use vstd::prelude::*;

use crate::bitgrid::BitGrid;
use crate::grid::Index;

verus! {

/// The pieces of `s` between its `'\n'` characters: one more than the number
/// of newlines, the last one empty when `s` ends with a newline.
pub open spec fn pieces(s: Seq<char>) -> Seq<Seq<char>>
    decreases s.len(),
{
    if s.len() == 0 {
        seq![Seq::empty()]
    } else {
        let p = pieces(s.drop_last());
        if s.last() == '\n' {
            p.push(Seq::empty())
        } else {
            p.update(p.len() - 1, p.last().push(s.last()))
        }
    }
}

pub proof fn lemma_pieces_len(s: Seq<char>)
    ensures
        pieces(s).len() >= 1,
    decreases s.len(),
{
    if s.len() > 0 {
        lemma_pieces_len(s.drop_last());
    }
}

/// A piece that a newline ends, without the carriage return before that
/// newline: `"\r\n"` ends a line as `"\n"` does.
pub open spec fn strip_cr(p: Seq<char>) -> Seq<char> {
    if p.len() > 0 && p.last() == '\r' {
        p.drop_last()
    } else {
        p
    }
}

/// The lines of `s`, without their terminators; a newline at the very end
/// does not start another line.
pub open spec fn lines(s: Seq<char>) -> Seq<Seq<char>> {
    let p = pieces(s);
    let n = if p.last().len() == 0 {
        p.len() - 1
    } else {
        p.len() as int
    };
    Seq::new(
        n as nat,
        |k: int|
            if k < p.len() - 1 {
                strip_cr(p[k])
            } else {
                p[k]
            },
    )
}

/// The position of the first `'#'` of `l` at or after `i`, or the length of
/// `l` when there is none.
pub open spec fn hash_from(l: Seq<char>, i: int) -> int
    decreases l.len() - i,
{
    if i >= l.len() {
        l.len() as int
    } else if l[i] == '#' {
        i
    } else {
        hash_from(l, i + 1)
    }
}

/// A line without its comment: what comes before its first `'#'`.
pub open spec fn content(l: Seq<char>) -> Seq<char> {
    l.take(hash_from(l, 0))
}

/// The rows of a pattern: the contents of its lines that are not empty.
pub open spec fn rows_of(lines: Seq<Seq<char>>) -> Seq<Seq<char>>
    decreases lines.len(),
{
    if lines.len() == 0 {
        Seq::empty()
    } else {
        let r = rows_of(lines.drop_last());
        if content(lines.last()).len() > 0 {
            r.push(content(lines.last()))
        } else {
            r
        }
    }
}

/// Whether some marker of some row lands on cell `(x, y)` of a grid `w` wide
/// and `h` high, rows and columns wrapping around.
pub open spec fn marked(rows: Seq<Seq<char>>, markers: Seq<char>, w: int, h: int, x: int, y: int) -> bool {
    exists|r: int, c: int|
        0 <= r < rows.len() && 0 <= c < rows[r].len() && #[trigger] markers.contains(rows[r][c]) && c % w == x
            && r % h == y
}

/// Whether the content of some line holds a marker.
pub open spec fn has_marker(ls: Seq<Seq<char>>, markers: Seq<char>) -> bool {
    exists|k: int, c: int|
        0 <= k < ls.len() && 0 <= c < content(ls[k]).len() && #[trigger] markers.contains(content(ls[k])[c])
}

/// A line's scan for `'#'` stops at the first one.
pub proof fn lemma_hash_from(l: Seq<char>, i: int, k: int)
    requires
        0 <= i <= k <= l.len(),
        forall|t: int| i <= t < k ==> l[t] != '#',
        k == l.len() || l[k] == '#',
    ensures
        hash_from(l, i) == k,
    decreases k - i,
{
    if i < k {
        lemma_hash_from(l, i + 1, k);
    }
}

/// An empty last row marks nothing.
pub proof fn lemma_marked_push_empty(rows: Seq<Seq<char>>, markers: Seq<char>, w: int, h: int, x: int, y: int)
    ensures
        marked(rows.push(Seq::empty()), markers, w, h, x, y) == marked(rows, markers, w, h, x, y),
{
    let rs = rows.push(Seq::empty());
    if marked(rs, markers, w, h, x, y) {
        let (r, c) = choose|r: int, c: int|
            0 <= r < rs.len() && 0 <= c < rs[r].len() && #[trigger] markers.contains(rs[r][c]) && c % w == x && r
                % h == y;
        assert(r < rows.len());
        assert(rows[r][c] == rs[r][c]);
    }
    if marked(rows, markers, w, h, x, y) {
        let (r, c) = choose|r: int, c: int|
            0 <= r < rows.len() && 0 <= c < rows[r].len() && #[trigger] markers.contains(rows[r][c]) && c % w == x
                && r % h == y;
        assert(rs[r][c] == rows[r][c]);
    }
}

/// Extending the last row by one character marks what it marked before, and
/// the new character's cell when it is a marker.
pub proof fn lemma_marked_push_char(
    rows: Seq<Seq<char>>,
    p: Seq<char>,
    ch: char,
    markers: Seq<char>,
    w: int,
    h: int,
    x: int,
    y: int,
)
    ensures
        marked(rows.push(p.push(ch)), markers, w, h, x, y) == (marked(rows.push(p), markers, w, h, x, y) || (
        markers.contains(ch) && (p.len() as int) % w == x && (rows.len() as int) % h == y)),
{
    let a = rows.push(p.push(ch));
    let b = rows.push(p);
    if marked(a, markers, w, h, x, y) {
        let (r, c) = choose|r: int, c: int|
            0 <= r < a.len() && 0 <= c < a[r].len() && #[trigger] markers.contains(a[r][c]) && c % w == x && r % h
                == y;
        if r == rows.len() && c == p.len() {
            assert(a[r][c] == ch);
        } else {
            assert(b[r][c] == a[r][c]);
        }
    }
    if marked(b, markers, w, h, x, y) {
        let (r, c) = choose|r: int, c: int|
            0 <= r < b.len() && 0 <= c < b[r].len() && #[trigger] markers.contains(b[r][c]) && c % w == x && r % h
                == y;
        assert(a[r][c] == b[r][c]);
    }
    if markers.contains(ch) && (p.len() as int) % w == x && (rows.len() as int) % h == y {
        let r = rows.len() as int;
        let c = p.len() as int;
        assert(a[r][c] == ch);
        assert(markers.contains(a[r][c]));
    }
}

/// Whether `c` is one of `set`.
fn contains_char<const N: usize>(set: &[char; N], c: char) -> (r: bool)
    ensures
        r == set@.contains(c),
{
    let mut i: usize = 0;
    while i < N
        invariant
            set@.len() == N,
            i <= N,
            forall|t: int| 0 <= t < i ==> set@[t] != c,
        decreases N - i,
    {
        if set[i] == c {
            return true;
        }
        i = i + 1;
    }
    false
}

/// The length of a piece once a carriage return that ends it is dropped.
fn stripped_len(p: &Vec<char>) -> (r: usize)
    ensures
        r as int == strip_cr(p@).len(),
        p@.take(r as int) == strip_cr(p@),
{
    let n = p.len();
    if n > 0 && p[n - 1] == '\r' {
        proof {
            assert(p@.take(n - 1) =~= p@.drop_last());
        }
        n - 1
    } else {
        proof {
            assert(p@.take(n as int) =~= p@);
        }
        n
    }
}

impl BitGrid {
    /// Reads a one-cell-deep grid from text. Each line whose content (what
    /// comes before its first `'#'`) is not empty is a row; a character of
    /// `set` in it sets the cell under it. The grid is one cell narrower than
    /// the first line is long and one row shorter than the text has lines, so
    /// a heading comment line is counted. Rows and columns beyond those
    /// extents wrap around. `None` when the text has no line or its first line
    /// is empty (an extent would be negative), when an extent is zero and a
    /// marker would still have to be placed, or when the grid is too large to
    /// allocate.
    pub fn parse<const N: usize>(text: &str, set: [char; N]) -> (r: Option<BitGrid>)
        requires
            text@.len() <= i32::MAX,
        ensures
            ({
                let ls = lines(text@);
                r.is_none() == (ls.len() < 1 || ls[0].len() < 1 || (ls[0].len() - 1) * (ls.len() - 1) + 8
                    > usize::MAX || ((ls[0].len() == 1 || ls.len() == 1) && has_marker(ls, set@)))
            }),
            r.is_some() ==> ({
                let ls = lines(text@);
                let g = r.unwrap();
                let w = ls[0].len() - 1;
                let h = ls.len() - 1;
                &&& g.well_formed()
                &&& g.spec_width() == w
                &&& g.spec_height() == h
                &&& g.spec_depth() == 1
                &&& forall|x: int, y: int|
                    0 <= x < w && 0 <= y < h ==> #[trigger] g.cell(x, y, 0) == marked(
                        rows_of(ls),
                        set@,
                        w,
                        h,
                        x,
                        y,
                    )
            }),
    {
        let ghost s = text@;
        let n = text.unicode_len();
        // Cut the text at its newlines.
        let mut done: Vec<Vec<char>> = Vec::new();
        let mut cur: Vec<char> = Vec::new();
        let mut i: usize = 0;
        while i < n
            invariant
                n == s.len(),
                s == text@,
                i <= n,
                done@.len() + 1 == pieces(s.take(i as int)).len(),
                forall|k: int| 0 <= k < done@.len() ==> #[trigger] done@[k]@ == pieces(s.take(i as int))[k],
                cur@ == pieces(s.take(i as int)).last(),
            decreases n - i,
        {
            let c = text.get_char(i);
            proof {
                assert(s.take(i + 1).drop_last() =~= s.take(i as int));
                lemma_pieces_len(s.take(i as int));
            }
            if c == '\n' {
                let piece = cur;
                done.push(piece);
                cur = Vec::new();
            } else {
                cur.push(c);
            }
            i = i + 1;
        }
        let ghost p = pieces(s);
        let ghost ls = lines(s);
        proof {
            assert(s.take(n as int) =~= s);
            lemma_pieces_len(s);
            lemma_pieces_count(s);
        }
        let nd = done.len();
        let count: usize = if cur.len() == 0 {
            nd
        } else {
            nd + 1
        };
        proof {
            assert(count == ls.len());
        }
        if count < 1 {
            return None;
        }
        let first_len = if nd > 0 {
            stripped_len(&done[0])
        } else {
            cur.len()
        };
        proof {
            assert(first_len == ls[0].len());
        }
        if first_len < 1 {
            return None;
        }
        let w: usize = first_len - 1;
        let h: usize = count - 1;
        proof {
            assert(w <= n) by {
                lemma_piece_within(s, 0);
            }
            assert(h <= n);
        }
        if h > 0 && w > (usize::MAX - 8) / h {
            proof {
                assert(w * h + 8 > usize::MAX) by (nonlinear_arith)
                    requires
                        w as int > (usize::MAX as int - 8) / (h as int),
                        h >= 1,
                ;
                assert((ls[0].len() - 1) * (ls.len() - 1) == w * h);
            }
            return None;
        }
        proof {
            if h > 0 {
                assert(w * h <= usize::MAX - 8) by (nonlinear_arith)
                    requires
                        w as int <= (usize::MAX as int - 8) / (h as int),
                        h >= 1,
                ;
            }
            assert((ls[0].len() - 1) * (ls.len() - 1) == w * h);
        }
        let mut grid = BitGrid::new(w, h, 1);
        let ghost wi = w as int;
        let ghost hi = h as int;
        proof {
            assert forall|x: int, yy: int| 0 <= x < wi && 0 <= yy < hi implies #[trigger] grid.cell(x, yy, 0) == marked(
                rows_of(ls.take(0)),
                set@,
                wi,
                hi,
                x,
                yy,
            ) by {
                grid.lemma_flat_index(x, yy, 0, 0);
                assert(rows_of(ls.take(0)) =~= Seq::<Seq<char>>::empty());
            }
        }
        // Lay the rows onto the grid.
        let mut y: usize = 0;
        let mut k: usize = 0;
        while k < count
            invariant
                s == text@,
                n == s.len(),
                n <= i32::MAX,
                p == pieces(s),
                ls == lines(s),
                count == ls.len(),
                nd == done@.len(),
                nd + 1 == p.len(),
                forall|t: int| 0 <= t < done@.len() ==> #[trigger] done@[t]@ == p[t],
                cur@ == p.last(),
                k <= count,
                grid.well_formed(),
                grid.spec_width() == wi && grid.spec_height() == hi && grid.spec_depth() == 1,
                wi == w && hi == h,
                w + 1 == ls[0].len() && h + 1 == ls.len(),
                w == 0 || h == 0 ==> forall|j: int, c: int|
                    0 <= j < k && 0 <= c < content(ls[j]).len() ==> !#[trigger] set@.contains(content(ls[j])[c]),
                y as int == rows_of(ls.take(k as int)).len(),
                y <= k,
                forall|x: int, yy: int|
                    0 <= x < wi && 0 <= yy < hi ==> #[trigger] grid.cell(x, yy, 0) == marked(
                        rows_of(ls.take(k as int)),
                        set@,
                        wi,
                        hi,
                        x,
                        yy,
                    ),
            decreases count - k,
        {
            let line: &Vec<char> = if k < nd {
                &done[k]
            } else {
                &cur
            };
            let len = if k < nd {
                stripped_len(line)
            } else {
                line.len()
            };
            let ghost l = ls[k as int];
            proof {
                assert(line@.take(len as int) == l);
                lemma_piece_within(s, k as int);
                lemma_pieces_count(s);
            }
            let mut end: usize = 0;
            while end < len && line[end] != '#'
                invariant
                    len <= line@.len(),
                    line@.take(len as int) == l,
                    end <= len,
                    forall|t: int| 0 <= t < end ==> l[t] != '#',
                decreases len - end,
            {
                end = end + 1;
            }
            proof {
                lemma_hash_from(l, 0, end as int);
            }
            let ghost cont = content(l);
            let ghost rows = rows_of(ls.take(k as int));
            proof {
                assert forall|x: int, yy: int| 0 <= x < wi && 0 <= yy < hi implies #[trigger] grid.cell(x, yy, 0)
                    == marked(rows.push(cont.take(0)), set@, wi, hi, x, yy) by {
                    assert(cont.take(0) =~= Seq::<char>::empty());
                    lemma_marked_push_empty(rows, set@, wi, hi, x, yy);
                }
            }
            let mut c: usize = 0;
            while c < end
                invariant
                    s == text@,
                    n == s.len(),
                    n <= i32::MAX,
                    line@.len() <= n,
                    len <= line@.len(),
                    line@.take(len as int) == l,
                    end <= len,
                    cont == l.take(end as int),
                    c <= end,
                    grid.well_formed(),
                    grid.spec_width() == wi && grid.spec_height() == hi && grid.spec_depth() == 1,
                    wi == w && hi == h,
                    w + 1 == ls[0].len() && h + 1 == ls.len(),
                    0 <= k < count,
                    ls == lines(s),
                    count == ls.len(),
                    l == ls[k as int],
                    cont == content(l),
                    w == 0 || h == 0 ==> forall|j: int, t: int|
                        0 <= j < k && 0 <= t < content(ls[j]).len() ==> !#[trigger] set@.contains(content(ls[j])[t]),
                    w == 0 || h == 0 ==> forall|t: int| 0 <= t < c ==> !#[trigger] set@.contains(cont[t]),
                    y as int == rows.len(),
                    y <= n,
                    forall|x: int, yy: int|
                        0 <= x < wi && 0 <= yy < hi ==> #[trigger] grid.cell(x, yy, 0) == marked(
                            rows.push(cont.take(c as int)),
                            set@,
                            wi,
                            hi,
                            x,
                            yy,
                        ),
                decreases end - c,
            {
                let ch = line[c];
                let ghost before = grid;
                proof {
                    assert(cont.take(c + 1) =~= cont.take(c as int).push(ch));
                }
                let is_marker = contains_char(&set, ch);
                if is_marker {
                    if w == 0 || h == 0 {
                        proof {
                            assert(cont[c as int] == ch);
                            assert(content(ls[k as int]) == cont);
                            assert(set@.contains(content(ls[k as int])[c as int]));
                            assert(has_marker(ls, set@));
                        }
                        return None;
                    }
                    grid.set(c as Index, y as Index, 0, true);
                }
                proof {
                    assert forall|x: int, yy: int| 0 <= x < wi && 0 <= yy < hi implies #[trigger] grid.cell(x, yy, 0)
                        == marked(rows.push(cont.take(c + 1)), set@, wi, hi, x, yy) by {
                        lemma_marked_push_char(rows, cont.take(c as int), ch, set@, wi, hi, x, yy);
                        before.lemma_flat_index(x, yy, c as int, y as int);
                        assert(before.cell(x, yy, 0) == marked(rows.push(cont.take(c as int)), set@, wi, hi, x, yy));
                        assert(cont.take(c as int).len() == c);
                        if is_marker {
                            let i = before.index_of(c as int, y as int, 0);
                            before.lemma_cells_len();
                            assert(grid.cells() == before.cells().update(i, true));
                            if x == c as int % wi && yy == y as int % hi {
                                assert(grid.cell(x, yy, 0));
                            } else {
                                assert(grid.cell(x, yy, 0) == before.cell(x, yy, 0));
                            }
                        }
                    }
                }
                c = c + 1;
            }
            proof {
                if w == 0 || h == 0 {
                    assert forall|j: int, t: int|
                        0 <= j < k + 1 && 0 <= t < content(ls[j]).len() implies !#[trigger] set@.contains(
                        content(ls[j])[t],
                    ) by {
                        if j == k {
                            assert(content(ls[j]) == cont);
                        }
                    }
                }
                assert(ls.take(k + 1).drop_last() =~= ls.take(k as int));
                assert(ls.take(k + 1).last() == l);
                assert(cont.take(end as int) =~= cont);
            }
            if end > 0 {
                y = y + 1;
            } else {
                proof {
                    assert forall|x: int, yy: int| 0 <= x < wi && 0 <= yy < hi implies #[trigger] grid.cell(x, yy, 0)
                        == marked(rows_of(ls.take(k + 1)), set@, wi, hi, x, yy) by {
                        assert(cont =~= Seq::<char>::empty());
                        lemma_marked_push_empty(rows, set@, wi, hi, x, yy);
                    }
                }
            }
            k = k + 1;
        }
        proof {
            assert(ls.take(count as int) =~= ls);
        }
        Some(grid)
    }
}

/// Every piece is no longer than the text.
proof fn lemma_piece_within(s: Seq<char>, k: int)
    ensures
        0 <= k < pieces(s).len() ==> pieces(s)[k].len() <= s.len(),
    decreases s.len(),
{
    if s.len() > 0 {
        lemma_pieces_len(s.drop_last());
        lemma_piece_within(s.drop_last(), k);
    }
}

/// There is one piece more than there are newlines, so no more than one more
/// than there are characters.
proof fn lemma_pieces_count(s: Seq<char>)
    ensures
        pieces(s).len() <= s.len() + 1,
    decreases s.len(),
{
    if s.len() > 0 {
        lemma_pieces_count(s.drop_last());
        lemma_pieces_len(s.drop_last());
        let q = pieces(s.drop_last());
        if s.last() == '\n' {
            assert(pieces(s).len() == q.len() + 1);
        } else {
            assert(pieces(s).len() == q.len());
        }
    }
}

} // verus!
