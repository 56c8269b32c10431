//! The partial shuffle and the tables it builds, run against the real
//! random number generator.

use perlin_noise::permutation::generate_permutations;
use perlin_noise::permutation::permute;
use perlin_noise::permutation::swap;
use rand::rngs::StdRng;
use rand::Rng;
use rand::SeedableRng;

fn sorted(values: &[usize]) -> Vec<usize> {
    let mut copy = values.to_vec();
    copy.sort();
    copy
}

fn identity(n: usize) -> Vec<usize> {
    (0..n).collect()
}

/// The partial shuffle written out with the generator's own calls.
fn shuffled_by_hand(before: &[usize], count: usize, rng: &mut StdRng) -> Vec<usize> {
    let mut values = before.to_vec();
    for i in (1..count - 1).rev() {
        let target: usize = rng.gen_range(0, i);
        values.swap(i, target);
    }
    values
}

#[test]
fn swap_exchanges_two_places() {
    let mut values = vec![10, 20, 30, 40];
    swap(&mut values, 0, 3);
    assert_eq!(values, vec![40, 20, 30, 10]);
}

#[test]
fn swap_of_a_place_with_itself_changes_nothing() {
    let mut values = vec![10, 20, 30];
    swap(&mut values, 1, 1);
    assert_eq!(values, vec![10, 20, 30]);
}

#[test]
fn table_of_one_is_the_identity() {
    let mut rng = StdRng::seed_from_u64(1);
    assert_eq!(generate_permutations(1, 1, &mut rng), vec![0]);
}

#[test]
fn table_of_two_is_the_identity() {
    let mut rng = StdRng::seed_from_u64(1);
    assert_eq!(generate_permutations(2, 2, &mut rng), vec![0, 1]);
}

#[test]
fn table_of_three_has_one_possible_outcome() {
    // The only place visited is 1, and the only place below it is 0.
    for seed in 0..20 {
        let mut rng = StdRng::seed_from_u64(seed);
        assert_eq!(generate_permutations(3, 3, &mut rng), vec![1, 0, 2]);
    }
}

#[test]
fn table_of_four_is_one_of_two_outcomes() {
    // Place 2 takes the entry of place 0 or 1, then place 1 takes that of place 0.
    let mut seen_first = false;
    let mut seen_second = false;
    for seed in 0..64 {
        let mut rng = StdRng::seed_from_u64(seed);
        let table = generate_permutations(4, 4, &mut rng);
        if table == vec![1, 2, 0, 3] {
            seen_first = true;
        } else {
            assert_eq!(table, vec![2, 0, 1, 3]);
            seen_second = true;
        }
    }
    assert!(seen_first);
    assert!(seen_second);
}

#[test]
fn sorted_table_is_the_identity() {
    for n in [3usize, 4, 5, 7, 16, 100, 256, 1000] {
        for seed in 0..8 {
            let mut rng = StdRng::seed_from_u64(seed);
            let table = generate_permutations(n, n, &mut rng);
            assert_eq!(table.len(), n);
            assert_eq!(sorted(&table), identity(n));
        }
    }
}

#[test]
fn last_place_keeps_its_entry() {
    for n in [1usize, 2, 3, 10, 256] {
        let mut rng = StdRng::seed_from_u64(42);
        let table = generate_permutations(n, n, &mut rng);
        assert_eq!(table[n - 1], n - 1);
    }
}

#[test]
fn no_earlier_place_keeps_its_entry() {
    for n in [3usize, 4, 5, 10, 256] {
        for seed in 0..16 {
            let mut rng = StdRng::seed_from_u64(seed);
            let table = generate_permutations(n, n, &mut rng);
            for place in 0..n - 1 {
                assert_ne!(table[place], place);
            }
        }
    }
}

#[test]
fn capacity_does_not_change_the_table() {
    let mut first = StdRng::seed_from_u64(9);
    let mut second = StdRng::seed_from_u64(9);
    assert_eq!(
        generate_permutations(0, 50, &mut first),
        generate_permutations(200, 50, &mut second)
    );
}

#[test]
fn permute_rearranges_any_entries() {
    let before = vec![7usize, 7, 3, 900, 12, 5];
    for seed in 0..16 {
        let mut values = before.clone();
        let mut rng = StdRng::seed_from_u64(seed);
        permute(&mut values, 6, &mut rng);
        assert_eq!(sorted(&values), sorted(&before));
        assert_eq!(values[5], 5);
    }
}

#[test]
fn permute_leaves_places_from_count_less_one_on() {
    let before = vec![10usize, 20, 30, 40, 50, 60];
    for seed in 0..16 {
        let mut values = before.clone();
        let mut rng = StdRng::seed_from_u64(seed);
        permute(&mut values, 4, &mut rng);
        assert_eq!(&values[3..], &before[3..]);
        assert_eq!(sorted(&values[..3]), vec![10, 20, 30]);
        for place in 0..3 {
            assert_ne!(values[place], before[place]);
        }
    }
}

#[test]
fn permute_over_one_or_two_changes_nothing() {
    let before = vec![10usize, 20, 30];
    for count in [1usize, 2] {
        let mut values = before.clone();
        let mut rng = StdRng::seed_from_u64(3);
        permute(&mut values, count, &mut rng);
        assert_eq!(values, before);
    }
    let mut empty: Vec<usize> = Vec::new();
    let mut rng = StdRng::seed_from_u64(3);
    permute(&mut empty, 1, &mut rng);
    assert!(empty.is_empty());
}

#[test]
fn permute_may_reach_one_past_the_end() {
    // With `count` one more than the length every place takes part.
    let before = vec![10usize, 20, 30, 40];
    for seed in 0..16 {
        let mut values = before.clone();
        let mut rng = StdRng::seed_from_u64(seed);
        permute(&mut values, 5, &mut rng);
        assert_eq!(sorted(&values), before);
        for place in 0..4 {
            assert_ne!(values[place], before[place]);
        }
    }
}

#[test]
fn same_seed_gives_the_same_table() {
    let mut first = StdRng::seed_from_u64(2024);
    let mut second = StdRng::seed_from_u64(2024);
    assert_eq!(
        generate_permutations(256, 256, &mut first),
        generate_permutations(256, 256, &mut second)
    );
}

#[test]
fn permute_makes_the_draws_of_the_partial_shuffle() {
    let before = vec![5usize, 50, 500, 5000, 50000, 7, 70, 700];
    for count in [1usize, 2, 3, 4, 6, 8, 9] {
        for seed in 0..8 {
            let mut values = before.clone();
            let mut rng = StdRng::seed_from_u64(seed);
            permute(&mut values, count, &mut rng);
            let mut same = StdRng::seed_from_u64(seed);
            assert_eq!(values, shuffled_by_hand(&before, count, &mut same));
            // Both generators have made the same draws and go on alike.
            assert_eq!(rng.gen_range(0, 1000usize), same.gen_range(0, 1000usize));
        }
    }
}

#[test]
fn generated_table_is_the_shuffled_identity() {
    for n in [1usize, 2, 3, 10, 256] {
        let mut rng = StdRng::seed_from_u64(99);
        let table = generate_permutations(n, n, &mut rng);
        let mut same = StdRng::seed_from_u64(99);
        assert_eq!(table, shuffled_by_hand(&identity(n), n, &mut same));
    }
}
