//! Lattice arithmetic: folding an unbounded lattice coordinate onto a table of
//! `n` places, stepping to the neighbouring place, and combining three table
//! entries into one index.

use vstd::arithmetic::div_mod::lemma_add_mod_noop;
use vstd::arithmetic::div_mod::lemma_fundamental_div_mod;
use vstd::arithmetic::div_mod::lemma_fundamental_div_mod_converse_mod;
use vstd::arithmetic::div_mod::lemma_mod_add_multiples_vanish;
use vstd::arithmetic::div_mod::lemma_mod_bound;
use vstd::arithmetic::div_mod::lemma_small_mod;
use vstd::prelude::*;

verus! {

/// The place that lattice coordinate `coord` falls on in a table of `n`
/// places: the remainder of flooring division, which for `n > 0` lies in
/// `0..n` for negative coordinates too.
pub open spec fn wrap(coord: int, n: int) -> int {
    coord % n
}

/// `n` is a power of two.
pub open spec fn is_power_of_two(n: usize) -> bool {
    n > 0 && n & ((n - 1) as usize) == 0
}

/// The index that three table entries combine to in a table of `n` entries:
/// their bitwise exclusive or, folded onto `0..n`.
pub open spec fn combine(a: usize, b: usize, c: usize, n: usize) -> int {
    ((a ^ b ^ c) as int) % (n as int)
}

/// Folding is periodic and lands inside the table.
pub proof fn lemma_wrap_range(coord: int, n: int)
    requires
        n > 0,
    ensures
        0 <= wrap(coord, n) < n,
        wrap(coord + n, n) == wrap(coord, n),
        0 <= coord < n ==> wrap(coord, n) == coord,
{
    lemma_mod_bound(coord, n);
    lemma_mod_add_multiples_vanish(coord, n);
    if 0 <= coord < n {
        lemma_small_mod(coord as nat, n as nat);
    }
}

/// A negative coordinate folds to the mirror image of the place that
/// `-(coord + 1)` folds to.
pub proof fn lemma_wrap_negative(coord: int, n: int)
    requires
        n > 0,
        coord < 0,
    ensures
        wrap(coord, n) == n - 1 - wrap(-(coord + 1), n),
{
    let k = -(coord + 1);
    lemma_fundamental_div_mod(k, n);
    lemma_mod_bound(k, n);
    let q = k / n;
    let m = k % n;
    assert(coord == (-(q + 1)) * n + (n - 1 - m)) by (nonlinear_arith)
        requires
            k == n * q + m,
            k == -(coord + 1),
    ;
    lemma_fundamental_div_mod_converse_mod(coord, n, -(q + 1), n - 1 - m);
}

/// Folds `coord` onto a table of `n` places.
pub fn wrap_coordinate(coord: isize, n: usize) -> (place: usize)
    requires
        n > 0,
    ensures
        place == wrap(coord as int, n as int),
        place < n,
{
    proof {
        lemma_wrap_range(coord as int, n as int);
    }
    if coord >= 0 {
        (coord as usize) % n
    } else {
        proof {
            lemma_wrap_negative(coord as int, n as int);
        }
        let mirrored: usize = ((-(coord + 1)) as usize) % n;
        n - 1 - mirrored
    }
}

/// Stepping to the next coordinate and folding gives the same place as
/// folding first and stepping inside the table.
pub proof fn lemma_wrap_step(coord: int, n: int)
    requires
        n > 0,
    ensures
        wrap(coord + 1, n) == wrap(wrap(coord, n) + 1, n),
{
    lemma_add_mod_noop(coord, 1, n);
    lemma_add_mod_noop(coord % n, 1, n);
    lemma_wrap_range(coord, n);
    lemma_wrap_range(coord % n, n);
}

/// The place that follows `place` in a table of `n` places, the last place
/// being followed by the first.
pub fn next_place(place: usize, n: usize) -> (next: usize)
    requires
        place < n,
    ensures
        next == wrap(place + 1, n as int),
        next < n,
{
    proof {
        lemma_wrap_range(place as int + 1, n as int);
        lemma_wrap_range(0, n as int);
    }
    if place + 1 == n {
        0
    } else {
        place + 1
    }
}

/// When the table size is a power of two, the exclusive or of three entries
/// below it is itself below it, so folding it changes nothing: the combined
/// index is the plain exclusive or.
pub proof fn lemma_combine_power_of_two(a: usize, b: usize, c: usize, n: usize)
    requires
        is_power_of_two(n),
        a < n,
        b < n,
        c < n,
    ensures
        combine(a, b, c, n) == a ^ b ^ c,
{
    assert(a ^ b ^ c < n) by (bit_vector)
        requires
            n > 0,
            n & ((n - 1) as usize) == 0,
            a < n,
            b < n,
            c < n,
    ;
    lemma_small_mod((a ^ b ^ c) as nat, n as nat);
}

/// Masking with a power of two less one takes the remainder of flooring
/// division by that power, for negative numbers too.
proof fn lemma_mask_is_remainder(coord: isize, n: isize)
    requires
        n > 0,
        n & ((n - 1) as isize) == 0,
    ensures
        coord & ((n - 1) as isize) == (coord as int) % (n as int),
    decreases n,
{
    if n == 1 {
        assert(coord & 0isize == 0) by (bit_vector);
    } else {
        let half_n = n >> 1;
        let half_coord = coord >> 1;
        let low = coord & 1;
        assert(half_n >= 1 && n == 2 * half_n && half_n & ((half_n - 1) as isize) == 0)
            by (bit_vector)
            requires
                n > 1,
                n & ((n - 1) as isize) == 0,
                half_n == n >> 1,
        ;
        assert(coord == 2 * half_coord + low && 0 <= low < 2) by (bit_vector)
            requires
                half_coord == coord >> 1,
                low == coord & 1,
        ;
        assert(coord & ((n - 1) as isize) == 2 * (half_coord & ((half_n - 1) as isize)) + low)
            by (bit_vector)
            requires
                n > 1,
                n & ((n - 1) as isize) == 0,
                half_n == n >> 1,
                half_coord == coord >> 1,
                low == coord & 1,
        ;
        lemma_mask_is_remainder(half_coord, half_n);
        let q = (half_coord as int) / (half_n as int);
        let r = (half_coord as int) % (half_n as int);
        lemma_fundamental_div_mod(half_coord as int, half_n as int);
        lemma_mod_bound(half_coord as int, half_n as int);
        assert(coord == q * n + (2 * r + low)) by (nonlinear_arith)
            requires
                coord == 2 * half_coord + low,
                half_coord == half_n * q + r,
                n == 2 * half_n,
        ;
        lemma_fundamental_div_mod_converse_mod(coord as int, n as int, q, 2 * r + low);
    }
}

/// When the table size is a power of two, folding a coordinate is masking it
/// with the size less one: for 256 places, with 255. The bound on `n` holds
/// of every size a table in memory can have.
pub proof fn lemma_wrap_power_of_two(coord: isize, n: usize)
    requires
        is_power_of_two(n),
        n <= isize::MAX,
    ensures
        wrap(coord as int, n as int) == coord & ((n - 1) as isize),
{
    let size = n as isize;
    assert(size & ((size - 1) as isize) == 0) by (bit_vector)
        requires
            n & ((n - 1) as usize) == 0,
            size == n as isize,
            size > 0,
    ;
    lemma_mask_is_remainder(coord, size);
}

/// Combines three table entries into an index of a table of `n` entries.
pub fn combine_entries(a: usize, b: usize, c: usize, n: usize) -> (index: usize)
    requires
        n > 0,
    ensures
        index == combine(a, b, c, n),
        index < n,
{
    proof {
        lemma_mod_bound((a ^ b ^ c) as int, n as int);
    }
    (a ^ b ^ c) % n
}

} // verus!
