//! Folding coordinates onto a table and combining entries.

use perlin_noise::lattice::combine_entries;
use perlin_noise::lattice::next_place;
use perlin_noise::lattice::wrap_coordinate;

#[test]
fn wrap_keeps_places_inside_the_table() {
    assert_eq!(wrap_coordinate(0, 256), 0);
    assert_eq!(wrap_coordinate(1, 256), 1);
    assert_eq!(wrap_coordinate(255, 256), 255);
}

#[test]
fn wrap_folds_from_the_far_end() {
    assert_eq!(wrap_coordinate(256, 256), 0);
    assert_eq!(wrap_coordinate(257, 256), 1);
    assert_eq!(wrap_coordinate(1000, 256), 232);
    assert_eq!(wrap_coordinate(10, 3), 1);
}

#[test]
fn wrap_floors_negative_coordinates() {
    assert_eq!(wrap_coordinate(-1, 256), 255);
    assert_eq!(wrap_coordinate(-256, 256), 0);
    assert_eq!(wrap_coordinate(-257, 256), 255);
    assert_eq!(wrap_coordinate(-1, 3), 2);
    assert_eq!(wrap_coordinate(-3, 3), 0);
    assert_eq!(wrap_coordinate(-4, 3), 2);
    assert_eq!(wrap_coordinate(-100, 7), 5);
}

#[test]
fn wrap_handles_the_extreme_coordinates() {
    assert_eq!(wrap_coordinate(isize::MIN, 256), 0);
    assert_eq!(wrap_coordinate(isize::MAX, 256), 255);
    assert_eq!(
        wrap_coordinate(isize::MIN, 7),
        (isize::MIN as i128).rem_euclid(7) as usize
    );
    assert_eq!(
        wrap_coordinate(isize::MAX, 7),
        (isize::MAX as i128).rem_euclid(7) as usize
    );
    assert_eq!(wrap_coordinate(isize::MIN, usize::MAX), isize::MAX as usize);
    assert_eq!(wrap_coordinate(-1, usize::MAX), usize::MAX - 1);
    assert_eq!(wrap_coordinate(isize::MAX, usize::MAX), isize::MAX as usize);
}

#[test]
fn wrap_on_a_table_of_one_is_always_zero() {
    for coord in [-5isize, -1, 0, 1, 5, isize::MIN, isize::MAX] {
        assert_eq!(wrap_coordinate(coord, 1), 0);
    }
}

#[test]
fn wrap_agrees_with_the_euclidean_remainder() {
    for n in [1usize, 2, 3, 5, 16, 255, 256, 257] {
        for coord in -600isize..600 {
            assert_eq!(wrap_coordinate(coord, n), coord.rem_euclid(n as isize) as usize);
        }
    }
}

#[test]
fn wrap_on_a_power_of_two_is_the_mask() {
    for coord in -1000isize..1000 {
        assert_eq!(wrap_coordinate(coord, 256), (coord & 255) as usize);
        assert_eq!(wrap_coordinate(coord, 16), (coord & 15) as usize);
    }
    assert_eq!(wrap_coordinate(isize::MIN, 256), (isize::MIN & 255) as usize);
    assert_eq!(wrap_coordinate(isize::MAX, 256), (isize::MAX & 255) as usize);
}

#[test]
fn next_place_steps_and_turns_over() {
    assert_eq!(next_place(0, 256), 1);
    assert_eq!(next_place(254, 256), 255);
    assert_eq!(next_place(255, 256), 0);
    assert_eq!(next_place(0, 1), 0);
    assert_eq!(next_place(2, 3), 0);
    assert_eq!(next_place(usize::MAX - 1, usize::MAX), 0);
}

#[test]
fn next_place_is_where_the_next_coordinate_folds_to() {
    for n in [1usize, 3, 7, 256] {
        for coord in -300isize..300 {
            assert_eq!(next_place(wrap_coordinate(coord, n), n), wrap_coordinate(coord + 1, n));
        }
    }
}

#[test]
fn combine_is_the_exclusive_or_folded_onto_the_table() {
    assert_eq!(combine_entries(1, 2, 4, 8), 7);
    assert_eq!(combine_entries(5, 5, 3, 8), 3);
    assert_eq!(combine_entries(200, 100, 50, 256), 158);
    assert_eq!(combine_entries(0, 0, 0, 3), 0);
    // 1 ^ 2 is 3, which a table of three folds back to 0.
    assert_eq!(combine_entries(1, 2, 0, 3), 0);
    // 4 ^ 2 ^ 1 is 7, which a table of five folds to 2.
    assert_eq!(combine_entries(4, 2, 1, 5), 2);
}

#[test]
fn combine_on_a_power_of_two_is_the_plain_exclusive_or() {
    for n in [4usize, 16, 256] {
        for a in 0..n {
            for b in [0, 1, n / 2, n - 1] {
                for c in [0, 3 % n, n - 1] {
                    assert_eq!(combine_entries(a, b, c, n), a ^ b ^ c);
                }
            }
        }
    }
}

#[test]
fn combine_stays_inside_any_table() {
    for n in [3usize, 5, 6, 7, 100] {
        for a in 0..n {
            for b in 0..n {
                assert!(combine_entries(a, b, n - 1, n) < n);
            }
        }
    }
}
