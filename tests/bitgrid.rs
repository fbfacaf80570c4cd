use simulations::{BitGrid, IVec3, Index};

#[test]
fn check_0x0x0() {
    // Make sure things don't panic
    let grid = BitGrid::new(0, 0, 0);
    let bytes = grid.as_bytes();
    assert_eq!(bytes.len(), 0);
    assert_eq!(grid.dims(), IVec3::new(0, 0, 0));
}

fn check_32x1_idx(x: Index, expected: (usize, u8)) {
    let grid = BitGrid::new(32, 1, 1);
    assert_eq!(grid.idx(x, 0, 0), expected, "flat index of x={x}");
    let _ = grid.get(x, 0, 0);
}

fn check_1x32_idx(y: Index, expected: (usize, u8)) {
    let grid = BitGrid::new(1, 32, 1);
    assert_eq!(grid.idx(0, y, 0), expected, "flat index of y={y}");
    let _ = grid.get(0, y, 0);
}

#[test]
fn check_32x1_idx_cases() {
    for (x, expected) in [(0, (0, 0)), (1, (0, 1)), (4, (0, 4)), (8, (1, 0)), (12, (1, 4)), (16, (2, 0)), (17, (2, 1))] {
        check_32x1_idx(x, expected);
        check_32x1_idx(x + 32, expected);
    }
}

#[test]
fn check_1x32_idx_cases() {
    for (y, expected) in [(0, (0, 0)), (1, (0, 1)), (4, (0, 4)), (8, (1, 0)), (12, (1, 4)), (16, (2, 0)), (17, (2, 1))] {
        check_1x32_idx(y, expected);
        check_1x32_idx(y + 32, expected);
    }
}

#[test]
fn check_negative_coordinates_wrap() {
    let grid = BitGrid::new(32, 1, 1);
    assert_eq!(grid.idx(-1, 0, 0), (3, 7));
    assert_eq!(grid.idx(-32, 0, 0), (0, 0));
    // More than one period below zero still wraps.
    assert_eq!(grid.idx(-33, 0, 0), (3, 7));
    assert_eq!(grid.idx(-65, 0, 0), (3, 7));
}

#[test]
fn check_parse_diagonal() {
    let text = "# 4x4\nO...\n.X..\n..O. # This comment should be ignored\n...O\n";
    let maybe_grid = BitGrid::parse(text, ['O', 'X']);

    let mut expected = BitGrid::new(4, 4, 1);
    expected.set(0, 0, 0, true);
    expected.set(1, 1, 0, true);
    expected.set(2, 2, 0, true);
    expected.set(3, 3, 0, true);

    assert_eq!(maybe_grid, Some(expected));
}

#[test]
fn check_parse_diagonal_rev() {
    let text = "# 4x4\n   O\n  O\n X\nO\n";
    let maybe_grid = BitGrid::parse(text, ['O', 'X']);

    let mut expected = BitGrid::new(4, 4, 1);
    expected.set(3, 0, 0, true);
    expected.set(2, 1, 0, true);
    expected.set(1, 2, 0, true);
    expected.set(0, 3, 0, true);

    assert_eq!(maybe_grid, Some(expected));
}

#[test]
fn check_parse_crlf_lines() {
    // The header is four characters long once its carriage return is dropped.
    let text = "#3x2\r\nO.O\r\n.O.\r\n";
    let grid = BitGrid::parse(text, ['O']).unwrap();
    assert_eq!(grid.dims(), IVec3::new(3, 2, 1));
    assert!(grid.get(0, 0, 0));
    assert!(!grid.get(1, 0, 0));
    assert!(grid.get(2, 0, 0));
    assert!(grid.get(1, 1, 0));
    assert_eq!(grid.count_set(), 3);
}

#[test]
fn check_parse_rejects_degenerate_text() {
    // No line, or an empty first line: an extent would be negative.
    assert_eq!(BitGrid::parse("", ['O']), None);
    assert_eq!(BitGrid::parse("\nO\n", ['O']), None);
    // A zero extent with a marker that would have to be placed on it.
    assert_eq!(BitGrid::parse("#\nO\n", ['O']), None);
    assert_eq!(BitGrid::parse("O", ['O']), None);
}

#[test]
fn check_parse_zero_extents() {
    let grid = BitGrid::parse("a", ['O']).unwrap();
    assert_eq!(grid.dims(), IVec3::new(0, 0, 1));
    assert_eq!(grid.as_bytes().len(), 0);

    let grid = BitGrid::parse("# only one line\n", ['O']).unwrap();
    assert_eq!(grid.dims(), IVec3::new(14, 0, 1));
    assert!(grid.is_empty());

    // A marker-free row on a zero-height grid is fine.
    let grid = BitGrid::parse("#\n..\n", ['O']).unwrap();
    assert_eq!(grid.dims(), IVec3::new(0, 1, 1));
}

#[test]
fn check_parse_wraps_long_rows() {
    // Two columns wide: the third character lands back on column 0.
    let text = "# 2\n..O\n";
    let grid = BitGrid::parse(text, ['O']).unwrap();
    assert_eq!(grid.dims(), IVec3::new(2, 1, 1));
    assert!(grid.get(0, 0, 0));
    assert!(!grid.get(1, 0, 0));
}

#[test]
fn check_get_set() {
    let mut grid = BitGrid::new(16, 16, 16);
    assert!(grid.is_empty());

    for z in 0..grid.depth() {
        for y in 0..grid.height() {
            for x in 0..grid.width() {
                assert!(grid.is_empty());
                assert_eq!(grid.get(x, y, z), false);

                grid.set(x, y, z, true);
                assert!(!grid.is_empty());
                assert_eq!(grid.get(x, y, z), true);

                grid.set(x, y, z, false);
                assert_eq!(grid.get(x, y, z), false);
            }
        }
    }
}

#[test]
fn check_set_returns_prior_value() {
    let mut grid = BitGrid::new(5, 5, 1);
    assert_eq!(grid.set(0, 0, 0, true), false);
    assert_eq!(grid.set(0, 0, 0, true), true);
    assert_eq!(grid.set(0, 0, 0, false), true);
    assert_eq!(grid.set(0, 0, 0, false), false);
}

#[test]
fn check_flip() {
    let mut grid = BitGrid::new(16, 16, 16);
    assert!(grid.is_empty());

    for z in 0..grid.depth() {
        for y in 0..grid.height() {
            for x in 0..grid.width() {
                grid.flip(x, y, z);
            }
        }
    }

    assert_eq!(grid.is_empty(), false);
    for z in 0..grid.depth() {
        for y in 0..grid.height() {
            for x in 0..grid.width() {
                assert_eq!(grid.get(x, y, z), true);
            }
        }
    }
}

#[test]
fn check_byte_layout() {
    let mut grid = BitGrid::new(16, 16, 16);

    for z in 0..grid.depth() {
        for y in 0..grid.height() {
            for x in 0..grid.width() {
                let (idx, bit) = grid.idx(x, y, z);
                assert_eq!(
                    grid.get(x, y, z),
                    false,
                    "Failed to get bit at ({x}, {y}, {z}) ~= idx={idx}, bit={bit}"
                );
                grid.set(x, y, z, true);
            }
        }
    }

    let byte_len = (grid.width() * grid.height() * grid.depth() / 8) as usize;
    assert_eq!(grid.as_bytes().len(), byte_len);
    assert_eq!(grid.as_bytes(), vec![0b1111_1111; byte_len]);
}

#[test]
fn check_linear_layout() {
    let mut grid = BitGrid::new(3, 2, 2);
    grid.set(2, 1, 1, true);
    // 2 + 1 * 3 + 1 * 3 * 2 == 11
    assert_eq!(grid.idx(2, 1, 1), (1, 3));
    assert_eq!(grid.as_bytes(), &[0b0000_0000, 0b0000_1000]);
}

#[test]
fn check_double_flip_restores() {
    let mut grid = BitGrid::new(7, 3, 2);
    grid.set(4, 1, 1, true);
    let before = grid.clone();
    for (x, y, z) in [(0, 0, 0), (4, 1, 1), (-3, 5, 7), (6, 2, 1)] {
        let first = grid.flip(x, y, z);
        assert_ne!(grid, before);
        let second = grid.flip(x, y, z);
        assert_eq!(second, !first);
        assert_eq!(grid, before);
    }
}

#[test]
fn check_wrap_law() {
    let mut grid = BitGrid::new(5, 3, 2);
    grid.set(3, 2, 1, true);
    for k in -3..=3 {
        assert!(grid.get(3 + 5 * k, 2, 1));
        assert!(grid.get(3, 2 + 3 * k, 1));
        assert!(grid.get(3, 2, 1 + 2 * k));
        assert!(!grid.get(2 + 5 * k, 2, 1));
    }
}

#[test]
fn check_packing_counts() {
    let mut grid = BitGrid::new(5, 3, 1);
    // 15 cells need 2 bytes.
    assert_eq!(grid.as_bytes().len(), 2);
    assert_eq!(grid.count_set() + grid.count_unset(), 16);
    assert_eq!(grid.count_unset(), 16);
    grid.set(0, 0, 0, true);
    grid.set(4, 2, 0, true);
    assert_eq!(grid.count_set(), 2);
    assert_eq!(grid.count_unset(), 14);
    assert_eq!(grid.count_set() + grid.count_unset(), 8 * grid.as_bytes().len());
}

#[test]
fn check_new_grid_counts() {
    let grid = BitGrid::new(5, 3, 2);
    assert_eq!(grid.as_bytes().len(), 4);
    assert_eq!(grid.count_set(), 0);
    assert_eq!(grid.count_unset(), 32);
}

#[test]
fn check_fill_covers_whole_buffer() {
    let mut grid = BitGrid::new(5, 3, 1);
    grid.fill(true);
    assert_eq!(grid.count_set(), 16);
    assert!(grid.get(4, 2, 0));
    grid.fill(false);
    assert!(grid.is_empty());
    assert_eq!(grid.count_unset(), 16);
}

#[test]
fn check_diff_with() {
    let mut a = BitGrid::new(4, 4, 1);
    let mut b = BitGrid::new(4, 4, 1);
    a.set(0, 0, 0, true);
    a.set(1, 1, 0, true);
    b.set(1, 1, 0, true);
    b.set(3, 3, 0, true);
    let d = a.diff_with(&b);
    assert_eq!(d.dims(), IVec3::new(4, 4, 1));
    assert!(d.get(0, 0, 0));
    assert!(!d.get(1, 1, 0));
    assert!(d.get(3, 3, 0));
    assert_eq!(d.count_set(), 2);
    assert!(a.diff_with(&a).is_empty());
}

#[test]
fn check_new_with_fn() {
    let grid = BitGrid::new_with_fn(4, 3, 2, |x, y, z| (x + y + z) % 2 == 0);
    for z in 0..2 {
        for y in 0..3 {
            for x in 0..4 {
                assert_eq!(grid.get(x, y, z), (x + y + z) % 2 == 0);
            }
        }
    }
    assert_eq!(grid.count_set(), 12);
    // The spare bits of the last byte stay clear.
    let grid = BitGrid::new_with_fn(3, 1, 1, |_, _, _| true);
    assert_eq!(grid.count_set(), 3);
    assert_eq!(grid.as_bytes(), &[0b0000_0111]);
}

#[test]
fn check_as_mut_bytes() {
    let mut grid = BitGrid::new(8, 2, 1);
    grid.as_mut_bytes()[1] = 0b0000_0101;
    assert!(grid.get(0, 1, 0));
    assert!(!grid.get(1, 1, 0));
    assert!(grid.get(2, 1, 0));
    assert_eq!(grid.count_set(), 2);
}
