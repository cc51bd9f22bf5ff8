//! Demand bookkeeping of a nest: which requested part instances were not placed.
//!
//! A nest asks for `qty[k]` copies of every item type `k`. Unplaced instances are reported as a
//! flat list holding the type index `k` once per missing copy, in type order. A multi-sheet nest
//! spills: each sheet consumes the placements it made from the remaining demand, and whatever is
//! left after the last sheet is reported unplaced.
use vstd::prelude::*;

verus! {

/// `k` repeated once per unit of `counts[k]`, for every `k` in order.
pub open spec fn repeat_indices(counts: Seq<usize>) -> Seq<usize>
    decreases counts.len(),
{
    if counts.len() == 0 {
        Seq::empty()
    } else {
        repeat_indices(counts.drop_last()) + Seq::new(
            counts.last() as nat,
            |_i: int| (counts.len() - 1) as usize,
        )
    }
}

/// The sum of `counts`.
pub open spec fn total(counts: Seq<usize>) -> nat
    decreases counts.len(),
{
    if counts.len() == 0 {
        0
    } else {
        total(counts.drop_last()) + counts.last() as nat
    }
}

/// Per type, how many requested copies were not placed (`qty[k] - placed[k]`, or `0` when at least
/// `qty[k]` were placed).
pub open spec fn shortfall(qty: Seq<usize>, placed: Seq<usize>) -> Seq<usize> {
    Seq::new(
        qty.len(),
        |k: int|
            if placed[k] < qty[k] {
                (qty[k] - placed[k]) as usize
            } else {
                0usize
            },
    )
}

/// How many times `k` occurs in `items`.
pub open spec fn occurrences(items: Seq<usize>, k: usize) -> nat {
    items.to_multiset().count(k)
}

proof fn lemma_constant_seq_multiset(n: nat, v: usize, x: usize)
    ensures
        Seq::new(n, |_i: int| v).to_multiset().count(x) == if x == v {
            n
        } else {
            0
        },
    decreases n,
{
    broadcast use vstd::seq_lib::group_to_multiset_ensures;

    if n > 0 {
        let s = Seq::new(n, |_i: int| v);
        let t = Seq::new((n - 1) as nat, |_i: int| v);
        assert(s =~= t.push(v));
        lemma_constant_seq_multiset((n - 1) as nat, v, x);
    } else {
        assert(Seq::new(n, |_i: int| v) =~= Seq::<usize>::empty());
    }
}

/// `repeat_indices(counts)` holds every index `k < counts.len()` exactly `counts[k]` times, holds
/// nothing else, and has `total(counts)` elements.
pub proof fn lemma_repeat_indices_counts(counts: Seq<usize>, x: usize)
    requires
        counts.len() <= usize::MAX,
    ensures
        occurrences(repeat_indices(counts), x) == if x < counts.len() {
            counts[x as int] as nat
        } else {
            0
        },
        repeat_indices(counts).len() == total(counts),
    decreases counts.len(),
{
    if counts.len() > 0 {
        let prefix = counts.drop_last();
        let block = Seq::new(counts.last() as nat, |_i: int| (counts.len() - 1) as usize);
        lemma_repeat_indices_counts(prefix, x);
        lemma_constant_seq_multiset(counts.last() as nat, (counts.len() - 1) as usize, x);
        vstd::seq_lib::lemma_multiset_commutative(repeat_indices(prefix), block);
        broadcast use vstd::multiset::group_multiset_axioms;
        broadcast use vstd::seq_lib::group_to_multiset_ensures;
        assert((repeat_indices(prefix) + block).len() == repeat_indices(prefix).len() + block.len());
    } else {
        vstd::seq_lib::to_multiset_len(repeat_indices(counts));
        assert(repeat_indices(counts).to_multiset().count(x) == 0) by {
            broadcast use vstd::seq_lib::group_to_multiset_ensures;
        }
    }
}

/// After a nest that placed `placed[k]` copies of type `k` (never more than requested), every
/// requested instance is accounted for exactly once: the copies of type `k` listed as unplaced
/// plus the placed copies make up the demand `qty[k]`.
pub proof fn lemma_unplaced_complements_placed(qty: Seq<usize>, placed: Seq<usize>, k: usize)
    requires
        qty.len() == placed.len(),
        qty.len() <= usize::MAX,
        (k as int) < qty.len(),
        placed[k as int] <= qty[k as int],
    ensures
        occurrences(repeat_indices(shortfall(qty, placed)), k) + placed[k as int] == qty[k as int],
{
    lemma_repeat_indices_counts(shortfall(qty, placed), k);
}

/// Every requested instance, marked unplaced: item type `k` listed `qty[k]` times, in type order.
pub fn all_unplaced(qty: &[usize]) -> (out: Vec<usize>)
    ensures
        out@ == repeat_indices(qty@),
{
    let mut out: Vec<usize> = Vec::new();
    let mut k: usize = 0;
    while k < qty.len()
        invariant
            k <= qty@.len(),
            out@ == repeat_indices(qty@.subrange(0, k as int)),
        decreases qty@.len() - k,
    {
        let ghost before = out@;
        let mut c: usize = 0;
        while c < qty[k]
            invariant
                k < qty@.len(),
                c <= qty@[k as int],
                out@ == before + Seq::new(c as nat, |_i: int| k),
            decreases qty@[k as int] - c,
        {
            out.push(k);
            c = c + 1;
            assert(out@ =~= before + Seq::new(c as nat, |_i: int| k));
        }
        assert(qty@.subrange(0, k + 1).drop_last() =~= qty@.subrange(0, k as int));
        k = k + 1;
    }
    assert(qty@.subrange(0, qty@.len() as int) =~= qty@);
    out
}

/// The instances still missing after a nest that placed `placed[k]` copies of each type `k`:
/// type `k` listed `qty[k] - placed[k]` times (none when the demand was met), in type order.
pub fn unplaced_instances(qty: &[usize], placed: &[usize]) -> (out: Vec<usize>)
    requires
        qty@.len() == placed@.len(),
    ensures
        out@ == repeat_indices(shortfall(qty@, placed@)),
{
    let mut missing: Vec<usize> = Vec::new();
    let mut k: usize = 0;
    while k < qty.len()
        invariant
            k <= qty@.len(),
            qty@.len() == placed@.len(),
            missing@ == shortfall(qty@, placed@).subrange(0, k as int),
        decreases qty@.len() - k,
    {
        let want = qty[k];
        let got = placed[k];
        if got < want {
            missing.push(want - got);
        } else {
            missing.push(0);
        }
        k = k + 1;
        assert(missing@ =~= shortfall(qty@, placed@).subrange(0, k as int));
    }
    assert(missing@ =~= shortfall(qty@, placed@));
    all_unplaced(missing.as_slice())
}

/// Removes one unit of demand for every placed instance in `placed_items` (an item type index per
/// placement).
pub fn consume_placed(remaining: &mut [usize], placed_items: &[usize])
    requires
        forall|i: int|
            0 <= i < placed_items@.len() ==> (#[trigger] placed_items@[i] as int) < old(
                remaining,
            )@.len(),
        forall|k: usize|
            (k as int) < old(remaining)@.len() ==> occurrences(placed_items@, k) <= old(
                remaining,
            )@[k as int],
    ensures
        final(remaining)@.len() == old(remaining)@.len(),
        forall|k: usize|
            (k as int) < old(remaining)@.len() ==> final(remaining)@[k as int] == old(
                remaining,
            )@[k as int] - occurrences(placed_items@, k),
{
    broadcast use vstd::seq_lib::group_to_multiset_ensures;

    let ghost start = remaining@;
    let mut i: usize = 0;
    while i < placed_items.len()
        invariant
            i <= placed_items@.len(),
            remaining@.len() == start.len(),
            forall|j: int|
                0 <= j < placed_items@.len() ==> (#[trigger] placed_items@[j] as int) < start.len(),
            forall|k: usize|
                (k as int) < start.len() ==> occurrences(placed_items@, k) <= start[k as int],
            forall|k: usize|
                (k as int) < start.len() ==> remaining@[k as int] + occurrences(
                    placed_items@.subrange(0, i as int),
                    k,
                ) == start[k as int],
        decreases placed_items@.len() - i,
    {
        let p = placed_items[i];
        proof {
            let pre = placed_items@.subrange(0, i as int);
            let post = placed_items@.subrange(0, i + 1);
            assert(post =~= pre.push(p));
            lemma_prefix_occurrences_bounded(placed_items@, (i + 1) as nat, p);
        }
        proof {
            broadcast use vstd::multiset::group_multiset_axioms;
            let pre = placed_items@.subrange(0, i as int);
            let post = placed_items@.subrange(0, i + 1);
            assert(post =~= pre.push(p));
            vstd::seq_lib::to_multiset_build(pre, p);
            assert(post.to_multiset() =~= pre.to_multiset().insert(p));
            assert(occurrences(post, p) <= occurrences(placed_items@, p));
            assert(occurrences(post, p) == occurrences(pre, p) + 1);
            assert(occurrences(placed_items@, p) <= start[p as int]);
            assert(remaining@[p as int] + occurrences(pre, p) == start[p as int]);
            assert forall|k: usize| (k as int) < start.len() implies occurrences(post, k) == occurrences(pre, k) + if k == p { 1nat } else { 0nat } by {
                assert(post.to_multiset() == pre.to_multiset().insert(p));
            }
        }
        remaining[p] = remaining[p] - 1;
        i = i + 1;
    }
    assert(placed_items@.subrange(0, placed_items@.len() as int) =~= placed_items@);
}

proof fn lemma_prefix_occurrences_bounded(items: Seq<usize>, n: nat, k: usize)
    requires
        n <= items.len(),
    ensures
        occurrences(items.subrange(0, n as int), k) <= occurrences(items, k),
    decreases items.len() - n,
{
    broadcast use vstd::seq_lib::group_to_multiset_ensures;

    if n < items.len() {
        let a = items.subrange(0, n as int);
        let b = items.subrange(0, (n + 1) as int);
        assert(b =~= a.push(items[n as int]));
        lemma_prefix_occurrences_bounded(items, n + 1, k);
    } else {
        assert(items.subrange(0, n as int) =~= items);
    }
}

/// Whether every type's remaining demand is zero.
pub fn demand_met(remaining: &[usize]) -> (met: bool)
    ensures
        met == forall|k: int| 0 <= k < remaining@.len() ==> remaining@[k] == 0,
{
    let mut k: usize = 0;
    while k < remaining.len()
        invariant
            k <= remaining@.len(),
            forall|j: int| 0 <= j < k ==> remaining@[j] == 0,
        decreases remaining@.len() - k,
    {
        if remaining[k] != 0 {
            return false;
        }
        k = k + 1;
    }
    true
}

} // verus!
