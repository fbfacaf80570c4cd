use simulations::{Elementry, Life};

#[test]
fn check_square_lives() {
    let mut life: Life = Life::new(5, 5);

    // ....
    // .OO.
    // .OO.
    // ....
    for (x, y) in [(1, 1), (2, 1), (1, 2), (2, 2)] {
        life.set(x, y, true);
    }

    let updated = life.step();

    // Nothing changes; this pattern is stable
    assert_eq!(updated, 0);
}

#[test]
fn check_spinner_spins() {
    let mut life: Life = Life::new(5, 5);

    // ...
    // .O.
    // .O.
    // .O.
    // ...
    for (x, y) in [(1, 1), (1, 2), (1, 3)] {
        life.set(x, y, true);
    }

    let updated = life.step();

    // The spinner should spin - that means the 2 edges set are unset, and the rotated-edges that are unset are set
    // So 4.
    assert_eq!(updated, 4);
    assert!(life.get(0, 2) && life.get(1, 2) && life.get(2, 2));
    assert!(!life.get(1, 1) && !life.get(1, 3));
}

#[test]
fn check_life_set_returns_prior() {
    let mut life: Life = Life::new(5, 5);
    assert_eq!(life.set(0, 0, true), false);
    assert_eq!(life.set(0, 0, true), true);
    assert_eq!(life.set(0, 0, false), true);
    assert_eq!(life.set(0, 0, false), false);
}

#[test]
fn check_glider_returns_after_four_steps() {
    let mut life: Life = Life::new(8, 8);
    life.write_right_glider(1, 1);
    for _ in 0..4 {
        life.step();
    }
    // A glider moves one cell down and one right every four generations.
    let mut moved: Life = Life::new(8, 8);
    moved.write_right_glider(2, 2);
    assert_eq!(life.cells(), moved.cells());
}

#[test]
fn check_left_glider_shape() {
    let mut life: Life = Life::new(6, 6);
    life.write_left_glider(2, 1);
    let alive: Vec<(i32, i32)> = [(3, 1), (2, 2), (2, 3), (3, 3), (4, 3)].to_vec();
    for y in 0..6 {
        for x in 0..6 {
            assert_eq!(life.get(x, y), alive.contains(&(x, y)), "({x}, {y})");
        }
    }
}

#[test]
fn check_life_clear_random_and_clear() {
    let mut life: Life = Life::new(8, 4);
    life.clear_random(&[0x0000_00ff]);
    for y in 0..4 {
        for x in 0..8 {
            assert_eq!(life.get(x, y), y == 0);
        }
    }
    life.clear();
    assert!(life.cells().is_empty());
}

#[test]
fn check_single_seed() {
    let mut sim: Elementry = Elementry::new(30, 64);
    sim.set(32, true);

    let expected = [
        "................................O...............................",
        "...............................OOO..............................",
        "..............................OO..O.............................",
        ".............................OO.OOOO............................",
        "............................OO..O...O...........................",
        "...........................OO.OOOO.OOO..........................",
        "..........................OO..O....O..O.........................",
        ".........................OO.OOOO..OOOOOO........................",
        "........................OO..O...OOO.....O.......................",
        ".......................OO.OOOO.OO..O...OOO......................",
        "......................OO..O....O.OOOO.OO..O.....................",
        ".....................OO.OOOO..OO.O....O.OOOO....................",
        "....................OO..O...OOO..OO..OO.O...O...................",
        "...................OO.OOOO.OO..OOO.OOO..OO.OOO..................",
        "..................OO..O....O.OOO...O..OOO..O..O.................",
        ".................OO.OOOO..OO.O..O.OOOOO..OOOOOOO................",
        "................OO..O...OOO..OOOO.O....OOO......O...............",
        "...............OO.OOOO.OO..OOO....OO..OO..O....OOO..............",
        "..............OO..O....O.OOO..O..OO.OOO.OOOO..OO..O.............",
        ".............OO.OOOO..OO.O..OOOOOO..O...O...OOO.OOOO............",
        "............OO..O...OOO..OOOO.....OOOO.OOO.OO...O...O...........",
        "...........OO.OOOO.OO..OOO...O...OO....O...O.O.OOO.OOO..........",
        "..........OO..O....O.OOO..O.OOO.OO.O..OOO.OO.O.O...O..O.........",
        ".........OO.OOOO..OO.O..OOO.O...O..OOOO...O..O.OO.OOOOOO........",
        "........OO..O...OOO..OOOO...OO.OOOOO...O.OOOOO.O..O.....O.......",
        ".......OO.OOOO.OO..OOO...O.OO..O....O.OO.O.....OOOOO...OOO......",
        "......OO..O....O.OOO..O.OO.O.OOOO..OO.O..OO...OO....O.OO..O.....",
        ".....OO.OOOO..OO.O..OOO.O..O.O...OOO..OOOO.O.OO.O..OO.O.OOOO....",
        "....OO..O...OOO..OOOO...OOOO.OO.OO..OOO....O.O..OOOO..O.O...O...",
        "...OO.OOOO.OO..OOO...O.OO....O..O.OOO..O..OO.OOOO...OOO.OO.OOO..",
        "..OO..O....O.OOO..O.OO.O.O..OOOOO.O..OOOOOO..O...O.OO...O..O..O.",
        ".OO.OOOO..OO.O..OOO.O..O.OOOO.....OOOO.....OOOO.OO.O.O.OOOOOOOOO",
    ];
    for line in expected {
        assert_eq!(sim.to_ascii(), line);
        sim.step();
    }
}

#[test]
fn check_elementry_step_counts_changes() {
    let mut sim: Elementry = Elementry::new(30, 8);
    sim.set(4, true);
    // 30 turns the single seed into three live cells: two cells change.
    assert_eq!(sim.step(), 2);
    assert_eq!(sim.cells(), vec![false, false, false, true, true, true, false, false]);
}

#[test]
fn check_elementry_wraps_ends() {
    let mut sim: Elementry = Elementry::new(30, 8);
    sim.set(0, true);
    sim.step();
    assert_eq!(sim.to_ascii(), "OO.....O");
    assert_eq!(sim.width(), 8);
    assert!(sim.get(-1));
}

#[test]
fn check_elementry_clear_variants() {
    let mut sim: Elementry = Elementry::new(90, 40);
    sim.clear_alive();
    assert_eq!(sim.to_ascii(), "O".repeat(40));
    sim.clear();
    assert_eq!(sim.to_ascii(), ".".repeat(40));
    sim.clear_random(&[0x8000_0001, 0x0000_0002]);
    let row = sim.cells();
    assert!(row[0] && row[31] && row[33]);
    assert_eq!(row.iter().filter(|&&b| b).count(), 3);
}
