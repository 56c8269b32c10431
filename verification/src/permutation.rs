//! Permutation tables: the identity sequence, the partial shuffle that
//! scrambles it, and what can be said about every table the shuffle yields.

use crate::random::draw_below;
use rand::rngs::StdRng;
use vstd::prelude::*;
use vstd::seq_lib::to_multiset_contains;
use vstd::seq_lib::to_multiset_len;
use vstd::seq_lib::to_multiset_update;
use vstd::set_lib::lemma_int_range;
use vstd::set_lib::lemma_subset_equality;
use vstd::set_lib::set_int_range;

verus! {

/// `s` is the sequence `0, 1, ..., n - 1`.
pub open spec fn is_identity(s: Seq<usize>, n: nat) -> bool {
    &&& s.len() == n
    &&& forall|i: int| 0 <= i < n ==> #[trigger] s[i] == i
}

/// `s` is a permutation of `0, 1, ..., n - 1`: it has `n` entries, every entry
/// lies below `n`, and no two entries are equal.
pub open spec fn is_permutation(s: Seq<usize>, n: nat) -> bool {
    &&& s.len() == n
    &&& forall|i: int| 0 <= i < n ==> #[trigger] s[i] < n
    &&& forall|i: int, j: int| 0 <= i < j < n ==> #[trigger] s[i] != #[trigger] s[j]
}

/// `from` names, for every place of a sequence, a place of a sequence of the
/// same length, and names no place twice.
pub open spec fn is_placement(from: Seq<int>) -> bool {
    &&& forall|p: int| 0 <= p < from.len() ==> 0 <= #[trigger] from[p] < from.len()
    &&& forall|p: int, q: int|
        0 <= p < q < from.len() ==> #[trigger] from[p] != #[trigger] from[q]
}

/// `s` with the entries at places `a` and `b` exchanged.
pub open spec fn exchanged(s: Seq<usize>, a: int, b: int) -> Seq<usize> {
    s.update(a, s[b]).update(b, s[a])
}

/// `draws` is a possible run of draws for a partial shuffle over `count`:
/// one draw for each of the places `count - 2` down to `1`, in that order,
/// each strictly below the place it is drawn for.
pub open spec fn is_draw_run(draws: Seq<int>, count: int) -> bool {
    &&& draws.len() == if count >= 2 { count - 2 } else { 0 }
    &&& forall|k: int| 0 <= k < draws.len() ==> 0 <= #[trigger] draws[k] < count - 2 - k
}

/// What the partial shuffle over `count` makes of `before` when its draws are
/// `draws`: the draw at position `k` belongs to the place `count - 2 - k`,
/// and that place is exchanged with the place drawn.
pub open spec fn shuffled_with(before: Seq<usize>, count: int, draws: Seq<int>) -> Seq<usize>
    decreases draws.len(),
{
    if draws.len() == 0 {
        before
    } else {
        exchanged(
            shuffled_with(before, count, draws.drop_last()),
            count - 1 - draws.len(),
            draws.last(),
        )
    }
}

/// `after` is `before` rearranged as a partial shuffle over `count` can
/// rearrange it, with `from[p]` the place in `before` of the entry that ends
/// at place `p`.
///
/// The shuffle visits the places `count - 2` down to `1` and swaps each with a
/// place strictly below it. Hence places from `count - 1` on keep their entry,
/// and, as soon as there is a place to visit (`count >= 3`), every place below
/// `count - 1` ends with an entry that started elsewhere.
pub open spec fn is_shuffle_placement(
    before: Seq<usize>,
    after: Seq<usize>,
    count: int,
    from: Seq<int>,
) -> bool {
    &&& after.len() == before.len()
    &&& from.len() == before.len()
    &&& is_placement(from)
    &&& forall|p: int| 0 <= p < after.len() ==> #[trigger] after[p] == before[from[p]]
    &&& forall|p: int| count - 1 <= p < from.len() && 0 <= p ==> #[trigger] from[p] == p
    &&& count >= 3 ==> forall|p: int| 0 <= p < count - 1 ==> #[trigger] from[p] != p
}

/// `s` is a table that the partial shuffle over `n` can make of
/// `0, 1, ..., n - 1`: the outcome of some possible run of draws.
pub open spec fn is_shuffled_identity(s: Seq<usize>, n: nat) -> bool {
    exists|start: Seq<usize>, draws: Seq<int>|
        is_identity(start, n) && is_draw_run(draws, n as int) && s == #[trigger] shuffled_with(
            start,
            n as int,
            draws,
        )
}

/// The state of a partial shuffle over `count` after its first `drawn` draws,
/// when the places from `next = count - 1 - drawn` up to `count - 2` have
/// been visited: what [`is_shuffle_placement`] says of the visited places
/// holds already, and every place below `next` still has its own entry or one
/// from a visited place.
spec fn is_placement_so_far(
    before: Seq<usize>,
    after: Seq<usize>,
    count: int,
    from: Seq<int>,
    drawn: nat,
) -> bool {
    let next = count - 1 - drawn;
    &&& after.len() == before.len()
    &&& from.len() == before.len()
    &&& is_placement(from)
    &&& forall|p: int| 0 <= p < after.len() ==> #[trigger] after[p] == before[from[p]]
    &&& forall|p: int| count - 1 <= p < from.len() && 0 <= p ==> #[trigger] from[p] == p
    &&& forall|p: int| next <= p < count - 1 && 0 <= p ==> #[trigger] from[p] != p
    &&& forall|p: int|
        0 <= p < next && p < from.len() ==> #[trigger] from[p] == p || from[p] >= next
    &&& count >= 3 && next <= 1 ==> from[0] != 0
}

/// `t` is in ascending order.
pub open spec fn is_sorted(t: Seq<usize>) -> bool {
    forall|i: int, j: int| 0 <= i <= j < t.len() ==> #[trigger] t[i] <= #[trigger] t[j]
}

/// Exchanges the entries at places `a` and `b`.
pub fn swap(values: &mut [usize], a: usize, b: usize)
    requires
        a < old(values)@.len(),
        b < old(values)@.len(),
    ensures
        final(values)@ == exchanged(old(values)@, a as int, b as int),
{
    let x = values[a];
    let y = values[b];
    values[a] = y;
    values[b] = x;
}

/// Shuffles `values` in place by the partial shuffle over `count`: for each
/// place `i` from `count - 2` down to `1`, draws a place strictly below `i`
/// and exchanges the two entries.
///
/// The result is what [`shuffled_with`] gives for some possible run of draws;
/// which run is up to `rng`. The bounds on `count` are those under which
/// every visited place exists.
///
/// This is on purpose not the textbook Fisher-Yates shuffle, which would
/// visit `count - 1` as well and let a place be exchanged with itself. The
/// partial form never moves the entry at `count - 1` and, from `count >= 3`
/// on, leaves no place below it its own entry ([`lemma_shuffle_placement`]):
/// a bias that the tables built here are meant to carry.
pub fn permute(values: &mut [usize], count: usize, rng: &mut StdRng)
    requires
        count >= 1,
        count <= 2 || count - 1 <= old(values)@.len(),
    ensures
        exists|draws: Seq<int>|
            is_draw_run(draws, count as int) && final(values)@ == #[trigger] shuffled_with(
                old(values)@,
                count as int,
                draws,
            ),
{
    let ghost before = values@;
    let ghost mut draws = Seq::<int>::empty();
    let mut i: usize = count - 1;
    while i > 1
        invariant
            1 <= count,
            i <= count - 1,
            i > 1 ==> count - 1 <= before.len(),
            draws.len() == count - 1 - i,
            forall|k: int| 0 <= k < draws.len() ==> 0 <= #[trigger] draws[k] < count - 2 - k,
            values@ == shuffled_with(before, count as int, draws),
            values@.len() == before.len(),
        decreases i,
    {
        i = i - 1;
        let target = draw_below(rng, i);
        swap(values, i, target);
        proof {
            assert(draws.push(target as int).drop_last() == draws);
            draws = draws.push(target as int);
        }
    }
    assert(is_draw_run(draws, count as int));
}

/// Builds a fresh permutation table of `point_count` entries: the identity
/// `0, 1, ..., point_count - 1`, put through [`permute`]. `capacity` is only
/// the room set aside for the table beforehand.
pub fn generate_permutations(capacity: usize, point_count: usize, rng: &mut StdRng) -> (values:
    Vec<usize>)
    requires
        point_count >= 1,
    ensures
        is_shuffled_identity(values@, point_count as nat),
{
    let mut values: Vec<usize> = Vec::with_capacity(capacity);
    let mut i: usize = 0;
    while i < point_count
        invariant
            i <= point_count,
            is_identity(values@, i as nat),
        decreases point_count - i,
    {
        values.push(i);
        i = i + 1;
    }
    permute(values.as_mut_slice(), point_count, rng);
    values
}

/// Exchanging two entries loses and adds none.
pub proof fn lemma_exchanged_keeps_entries(s: Seq<usize>, a: int, b: int)
    requires
        0 <= a < s.len(),
        0 <= b < s.len(),
    ensures
        exchanged(s, a, b).len() == s.len(),
        exchanged(s, a, b).to_multiset() == s.to_multiset(),
{
    if a == b {
        assert(exchanged(s, a, b) == s);
    } else {
        let half = s.update(a, s[b]);
        to_multiset_update(s, a, s[b]);
        to_multiset_update(half, b, s[a]);
        to_multiset_contains(s, s[a]);
        to_multiset_contains(s, s[b]);
        assert(s.contains(s[a]));
        assert(s.contains(s[b]));
        assert(s.to_multiset().insert(s[b]).remove(s[a]).insert(s[a]).remove(s[b])
            == s.to_multiset());
    }
}

/// A partial shuffle only rearranges: whatever the draws, the outcome has
/// the entries it started with, each as often as before.
pub proof fn lemma_shuffle_keeps_entries(before: Seq<usize>, count: int, draws: Seq<int>)
    requires
        count <= 2 || count - 1 <= before.len(),
        is_draw_run(draws, count),
    ensures
        shuffled_with(before, count, draws).len() == before.len(),
        shuffled_with(before, count, draws).to_multiset() == before.to_multiset(),
{
    lemma_partial_run_keeps_entries(before, count, draws);
}

/// [`lemma_shuffle_keeps_entries`] for a run of draws that may have stopped
/// early.
proof fn lemma_partial_run_keeps_entries(before: Seq<usize>, count: int, draws: Seq<int>)
    requires
        count <= 2 || count - 1 <= before.len(),
        draws.len() <= if count >= 2 { count - 2 } else { 0 },
        forall|k: int| 0 <= k < draws.len() ==> 0 <= #[trigger] draws[k] < count - 2 - k,
    ensures
        shuffled_with(before, count, draws).len() == before.len(),
        shuffled_with(before, count, draws).to_multiset() == before.to_multiset(),
    decreases draws.len(),
{
    if draws.len() > 0 {
        let earlier = draws.drop_last();
        lemma_partial_run_keeps_entries(before, count, earlier);
        assert(0 <= draws[draws.len() - 1] < count - 1 - draws.len());
        lemma_exchanged_keeps_entries(
            shuffled_with(before, count, earlier),
            count - 1 - draws.len(),
            draws.last(),
        );
    }
}

/// What is known of the placement after each draw of a run.
proof fn lemma_placement_so_far(before: Seq<usize>, count: int, draws: Seq<int>)
    requires
        count >= 1,
        count <= 2 || count - 1 <= before.len(),
        draws.len() <= if count >= 2 { count - 2 } else { 0 },
        forall|k: int| 0 <= k < draws.len() ==> 0 <= #[trigger] draws[k] < count - 2 - k,
    ensures
        exists|from: Seq<int>|
            is_placement_so_far(
                before,
                shuffled_with(before, count, draws),
                count,
                from,
                draws.len(),
            ),
    decreases draws.len(),
{
    if draws.len() == 0 {
        let from = Seq::new(before.len(), |p: int| p);
        assert(shuffled_with(before, count, draws) == before);
        assert(is_placement_so_far(before, before, count, from, 0));
    } else {
        let earlier = draws.drop_last();
        let place = count - 1 - draws.len();
        let target = draws.last();
        assert(0 <= draws[draws.len() - 1] < count - 1 - draws.len());
        lemma_placement_so_far(before, count, earlier);
        let stage = shuffled_with(before, count, earlier);
        let came = choose|came: Seq<int>|
            is_placement_so_far(before, stage, count, came, earlier.len());
        let from = came.update(place, came[target]).update(target, came[place]);
        assert(shuffled_with(before, count, draws) == exchanged(stage, place, target));
        assert(is_placement_so_far(
            before,
            exchanged(stage, place, target),
            count,
            from,
            draws.len(),
        ));
    }
}

/// Whatever the draws, a partial shuffle over `count` rearranges the entries
/// as [`is_shuffle_placement`] describes: places from `count - 1` on are left
/// alone, and for `count >= 3` no place below keeps its entry.
pub proof fn lemma_shuffle_placement(before: Seq<usize>, count: int, draws: Seq<int>)
    requires
        count >= 1,
        count <= 2 || count - 1 <= before.len(),
        is_draw_run(draws, count),
    ensures
        exists|from: Seq<int>|
            is_shuffle_placement(before, shuffled_with(before, count, draws), count, from),
{
    lemma_placement_so_far(before, count, draws);
    let after = shuffled_with(before, count, draws);
    let from = choose|from: Seq<int>|
        is_placement_so_far(before, after, count, from, draws.len());
    assert(is_shuffle_placement(before, after, count, from));
}

/// Every table that the partial shuffle can make of `0, 1, ..., n - 1` is a
/// permutation of `0..n` whose last entry is still `n - 1` and, for `n >= 3`,
/// in which no earlier entry is in its own place.
pub proof fn lemma_shuffled_identity(s: Seq<usize>, n: nat)
    requires
        is_shuffled_identity(s, n),
    ensures
        is_permutation(s, n),
        n >= 1 ==> s[n - 1] == n - 1,
        n >= 3 ==> forall|p: int| 0 <= p < n - 1 ==> #[trigger] s[p] != p,
{
    let (start, draws) = choose|start: Seq<usize>, draws: Seq<int>|
        is_identity(start, n) && is_draw_run(draws, n as int) && s == #[trigger] shuffled_with(
            start,
            n as int,
            draws,
        );
    if n == 0 {
        assert(s == start);
    } else {
        lemma_shuffle_placement(start, n as int, draws);
        let from = choose|from: Seq<int>| is_shuffle_placement(start, s, n as int, from);
        assert forall|p: int| 0 <= p < n implies #[trigger] s[p] == from[p] by {
            assert(s[p] == start[from[p]]);
        }
        assert forall|i: int, j: int| 0 <= i < j < n implies #[trigger] s[i] != #[trigger] s[j] by {
            assert(from[i] != from[j]);
        }
    }
}

/// Every value below `n` occurs in a permutation of `0..n`: with the entries
/// all different and all below `n`, none of the `n` values can be missing.
pub proof fn lemma_permutation_holds_every_value(s: Seq<usize>, n: nat, v: int)
    requires
        is_permutation(s, n),
        0 <= v < n,
    ensures
        exists|i: int| 0 <= i < n && #[trigger] s[i] == v,
{
    let values = s.map_values(|e: usize| e as int);
    assert(values.no_duplicates()) by {
        assert forall|i: int, j: int|
            0 <= i < values.len() && 0 <= j < values.len() && i != j implies values[i]
            != values[j] by {
            if i < j {
                assert(s[i] != s[j]);
            } else {
                assert(s[j] != s[i]);
            }
        }
    }
    values.unique_seq_to_set();
    lemma_int_range(0, n as int);
    assert(values.to_set().subset_of(set_int_range(0, n as int))) by {
        assert forall|e: int| values.to_set().contains(e) implies set_int_range(
            0,
            n as int,
        ).contains(e) by {
            let i = choose|i: int| 0 <= i < values.len() && values[i] == e;
            assert(s[i] < n);
        }
    }
    lemma_subset_equality(values.to_set(), set_int_range(0, n as int));
    assert(set_int_range(0, n as int).contains(v));
    assert(values.contains(v));
    let i = choose|i: int| 0 <= i < values.len() && values[i] == v;
    assert(s[i] == v);
}

/// Any rearrangement of a permutation of `0..n` is a permutation of `0..n`.
pub proof fn lemma_rearranged_permutation(s: Seq<usize>, t: Seq<usize>, n: nat)
    requires
        is_permutation(s, n),
        t.to_multiset() == s.to_multiset(),
    ensures
        is_permutation(t, n),
{
    to_multiset_len(s);
    to_multiset_len(t);
    assert(s.no_duplicates());
    s.lemma_multiset_has_no_duplicates();
    t.lemma_multiset_has_no_duplicates_conv();
    assert forall|i: int| 0 <= i < n implies #[trigger] t[i] < n by {
        assert(t.contains(t[i]));
        to_multiset_contains(t, t[i]);
        to_multiset_contains(s, t[i]);
        let k = choose|k: int| 0 <= k < s.len() && s[k] == t[i];
        assert(s[k] < n);
    }
}

/// In a sorted permutation of `0..n` no entry lies below its place.
proof fn lemma_sorted_not_below(t: Seq<usize>, n: nat, i: int)
    requires
        is_permutation(t, n),
        is_sorted(t),
        0 <= i < n,
    ensures
        t[i] >= i,
    decreases i,
{
    if i > 0 {
        lemma_sorted_not_below(t, n, i - 1);
        assert(t[i - 1] <= t[i]);
        assert(t[i - 1] != t[i]);
    }
}

/// In a sorted permutation of `0..n` no entry lies above its place.
proof fn lemma_sorted_not_above(t: Seq<usize>, n: nat, i: int)
    requires
        is_permutation(t, n),
        is_sorted(t),
        0 <= i < n,
    ensures
        t[i] <= i,
    decreases n - i,
{
    if i + 1 < n {
        lemma_sorted_not_above(t, n, i + 1);
        assert(t[i] <= t[i + 1]);
        assert(t[i] != t[i + 1]);
    } else {
        assert(t[i] < n);
    }
}

/// A permutation of `0..n`, once sorted, is exactly `0, 1, ..., n - 1`: that
/// is the only ascending sequence with the same entries.
pub proof fn lemma_sorted_permutation_is_identity(s: Seq<usize>, sorted: Seq<usize>, n: nat)
    requires
        is_permutation(s, n),
        is_sorted(sorted),
        sorted.to_multiset() == s.to_multiset(),
    ensures
        is_identity(sorted, n),
{
    lemma_rearranged_permutation(s, sorted, n);
    assert forall|i: int| 0 <= i < n implies #[trigger] sorted[i] == i by {
        lemma_sorted_not_below(sorted, n, i);
        lemma_sorted_not_above(sorted, n, i);
    }
}

} // verus!
