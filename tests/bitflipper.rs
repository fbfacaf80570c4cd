use simulations::bitflipper::next_multiple_of_n_in_direction;
use simulations::{BitFlipper, BitGrid, IVec3};

#[test]
fn test_next_multiple_of_n_in_direction() {
    for (i, n, dir, expected) in [
        (1, 1, 1, 2),
        (2, 2, 2, 4),
        (3, 2, 2, 4),
        (3, 7, 2, 7),
        (9, 3, 3, 12),
        (9, 5, -1, 5),
        (-9, -5, 1, -5),
        (-9, -10, -1, -10),
    ] {
        assert_eq!(expected, next_multiple_of_n_in_direction(i, n, dir), "({i}, {n}, {dir})");
    }
}

#[test]
fn test_next_multiple_documented_cases() {
    assert_eq!(next_multiple_of_n_in_direction(9, 5, -1), 5);
    assert_eq!(next_multiple_of_n_in_direction(-9, -10, -1), -10);
    assert_eq!(next_multiple_of_n_in_direction(10, 5, -1), 5);
    assert_eq!(next_multiple_of_n_in_direction(0, 3, 0), 3);
}

#[test]
fn test_1_by_1_by_1_enabled() {
    let mut expected = BitGrid::new(1, 1, 1);
    expected.flip(1, 1, 1);

    let mut bit_flipper: BitFlipper = BitFlipper::new(expected.dims(), IVec3::one());
    bit_flipper.step(1);

    let actual: &_ = bit_flipper.grid();
    assert_eq!(&expected, actual);
}

#[test]
fn test_32_by_32_by_32_simple_diagonal() {
    let expected = BitGrid::new(32, 32, 32);

    let mut bit_flipper: BitFlipper = BitFlipper::new(expected.dims(), IVec3::one());
    for _i in 0..64 {
        bit_flipper.step(1);
    }

    let actual: &_ = bit_flipper.grid();
    assert_eq!(&expected, actual);
}

#[test]
fn test_32_by_32_flat_diagonal_sweep() {
    let mut expected = BitGrid::new(32, 32, 1);
    for k in 0..32 {
        expected.set(k, k, 0, true);
    }

    let mut bit_flipper: BitFlipper = BitFlipper::new(IVec3::new(32, 32, 1), IVec3::new(1, 1, 0));
    bit_flipper.step(32);
    assert_eq!(bit_flipper.grid(), &expected);
    assert_eq!(bit_flipper.pos(), IVec3::new(32, 32, 0));

    // Bouncing off the far corner sweeps the same diagonal back.
    bit_flipper.step(32);
    assert!(bit_flipper.grid().is_empty());
    assert_eq!(bit_flipper.pos(), IVec3::new(0, 0, 0));
}

#[test]
fn test_each_tick_flips_one_cell() {
    let mut bit_flipper: BitFlipper = BitFlipper::new(IVec3::new(7, 5, 3), IVec3::new(3, -2, 1));
    for _ in 0..200 {
        let before = bit_flipper.grid().clone();
        bit_flipper.step(1);
        assert_eq!(before.diff_with(bit_flipper.grid()).count_set(), 1);
    }
}

#[test]
fn test_single_axis_direction_flips_one_cell() {
    let mut bit_flipper: BitFlipper = BitFlipper::new(IVec3::new(4, 4, 1), IVec3::new(1, 0, 0));
    for _ in 0..20 {
        let before = bit_flipper.grid().clone();
        bit_flipper.step(1);
        assert_eq!(before.diff_with(bit_flipper.grid()).count_set(), 1);
    }
}

#[test]
fn test_forward_then_backward_restores() {
    for (dims, dir, n) in [
        (IVec3::new(32, 16, 8), IVec3::new(3, 2, 1), 100),
        (IVec3::new(5, 7, 1), IVec3::new(2, 3, 0), 57),
        (IVec3::new(9, 4, 6), IVec3::new(-4, 1, 5), 333),
    ] {
        let mut bit_flipper: BitFlipper = BitFlipper::new(dims, dir);
        bit_flipper.step(n);
        assert!(!bit_flipper.grid().is_empty());
        bit_flipper.step(-n);
        assert_eq!(bit_flipper.pos(), IVec3::zero());
        assert!(bit_flipper.grid().is_empty());
    }
}

#[test]
fn test_backward_then_forward_restores() {
    let mut bit_flipper: BitFlipper = BitFlipper::new(IVec3::new(9, 4, 6), IVec3::new(-4, 1, 5));
    bit_flipper.step(-40);
    let p = bit_flipper.pos();
    let g = bit_flipper.grid().clone();
    bit_flipper.step(-25);
    bit_flipper.step(25);
    assert_eq!(bit_flipper.pos(), p);
    assert_eq!(bit_flipper.grid(), &g);
    bit_flipper.step(17);
    bit_flipper.step(-17);
    assert_eq!(bit_flipper.pos(), p);
    assert_eq!(bit_flipper.grid(), &g);
}

#[test]
fn test_one_tick_on_single_cell_grid_sets_one_bit() {
    let mut bit_flipper: BitFlipper = BitFlipper::new(IVec3::new(1, 1, 1), IVec3::one());
    bit_flipper.step(1);
    assert_eq!(bit_flipper.grid().count_set(), 1);
    assert_eq!(bit_flipper.grid().as_bytes(), &[0b0000_0001]);
}

#[test]
fn test_backward_from_origin_bounces() {
    let mut bit_flipper: BitFlipper = BitFlipper::new(IVec3::new(4, 4, 4), IVec3::one());
    bit_flipper.step(-1);
    assert_eq!(bit_flipper.pos(), IVec3::new(1, 1, 1));
    assert!(bit_flipper.grid().get(0, 0, 0));
}

#[test]
fn test_set_dir_rescales_position() {
    let mut bit_flipper: BitFlipper = BitFlipper::new(IVec3::new(8, 8, 1), IVec3::new(1, 1, 0));
    bit_flipper.step(3);
    assert_eq!(bit_flipper.pos(), IVec3::new(3, 3, 0));
    bit_flipper.set_dir(IVec3::new(2, 1, 0));
    // x: 3 * (1 * 1) / (1 * 1); y: 3 * (2 * 1) / (1 * 1); z: 0 * 2 / 1.
    assert_eq!(bit_flipper.pos(), IVec3::new(3, 6, 0));
    assert_eq!(bit_flipper.dir(), IVec3::new(2, 1, 0));
}

#[test]
fn test_set_dir_to_same_direction_keeps_position() {
    let mut bit_flipper: BitFlipper = BitFlipper::new(IVec3::new(8, 8, 1), IVec3::new(1, 1, 0));
    bit_flipper.set_dir(IVec3::new(1, 1, 0));
    assert_eq!(bit_flipper.pos(), IVec3::zero());
    bit_flipper.step(5);
    let p = bit_flipper.pos();
    bit_flipper.set_dir(IVec3::new(1, 1, 0));
    assert_eq!(bit_flipper.pos(), p);
}

#[test]
fn test_into_grid_and_accessors() {
    let grid = BitGrid::new(3, 3, 3);
    let mut bit_flipper = BitFlipper::new_with_grid(grid, IVec3::one());
    assert_eq!(bit_flipper.dims(), IVec3::new(3, 3, 3));
    bit_flipper.grid_mut().set(2, 2, 2, true);
    bit_flipper.step(1);
    let grid = bit_flipper.into_grid();
    assert!(grid.get(0, 0, 0));
    assert!(grid.get(2, 2, 2));
    assert_eq!(grid.count_set(), 2);
}
