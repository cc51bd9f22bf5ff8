//! The bin-packing problem instance: item types with their demand, and bins with their stock.
//!
//! Importing an instance keeps only the item types with positive demand and the bins with positive
//! stock, and requires the kept ids to be exactly `0, 1, ..., k - 1` (in any input order), so that
//! an item type or bin can be addressed by its id. The entries are then arranged by id.
use vstd::prelude::*;

verus! {

/// An entry to be arranged by id: `keep` tells whether it takes part (positive demand or stock).
pub struct Keyed<T> {
    pub id: usize,
    pub keep: bool,
    pub value: T,
}

/// Number of kept entries at positions `k..` of `s`.
pub open spec fn kept_from<T>(s: Seq<Keyed<T>>, k: nat) -> nat
    decreases s.len() - k,
{
    if k >= s.len() {
        0
    } else {
        kept_from(s, k + 1) + if s[k as int].keep {
            1nat
        } else {
            0nat
        }
    }
}

/// Number of kept entries of `s`.
pub open spec fn kept_count<T>(s: Seq<Keyed<T>>) -> nat {
    kept_from(s, 0)
}

/// The kept entries' ids are exactly `0..kept_count(s)`: each is below the count, and no two kept
/// entries share an id.
pub open spec fn ids_consecutive<T>(s: Seq<Keyed<T>>) -> bool {
    &&& forall|i: int| 0 <= i < s.len() && s[i].keep ==> s[i].id < kept_count(s)
    &&& forall|i: int, j: int|
        0 <= i < s.len() && 0 <= j < s.len() && i != j && s[i].keep && s[j].keep ==> s[i].id
            != s[j].id
}

/// `v` holds the kept entries' values, each at the position given by its id.
pub open spec fn arranged<T>(s: Seq<Keyed<T>>, v: Seq<T>) -> bool {
    &&& v.len() == kept_count(s)
    &&& forall|i: int| 0 <= i < s.len() && s[i].keep ==> v[s[i].id as int] == s[i].value
}

/// Number of `Some` slots among positions `k..` of `s`.
pub open spec fn some_from<T>(s: Seq<Option<T>>, k: nat) -> nat
    decreases s.len() - k,
{
    if k >= s.len() {
        0
    } else {
        some_from(s, k + 1) + if s[k as int] is Some {
            1nat
        } else {
            0nat
        }
    }
}

proof fn lemma_some_from_bound<T>(s: Seq<Option<T>>, k: nat)
    requires
        k <= s.len(),
    ensures
        some_from(s, k) <= s.len() - k,
        some_from(s, k) == s.len() - k ==> forall|i: int| k <= i < s.len() ==> s[i] is Some,
    decreases s.len() - k,
{
    if k < s.len() {
        lemma_some_from_bound(s, k + 1);
    }
}

proof fn lemma_some_from_fill<T>(s: Seq<Option<T>>, k: nat, at: int, v: T)
    requires
        k <= s.len(),
        0 <= at < s.len(),
        s[at] is None,
    ensures
        some_from(s.update(at, Some(v)), k) == some_from(s, k) + if k <= at {
            1nat
        } else {
            0nat
        },
    decreases s.len() - k,
{
    if k < s.len() {
        lemma_some_from_fill(s, k + 1, at, v);
    }
}

proof fn lemma_some_from_all_none<T>(n: nat, k: nat)
    requires
        k <= n,
    ensures
        some_from(Seq::new(n, |_i: int| None::<T>), k) == 0,
    decreases n - k,
{
    if k < n {
        lemma_some_from_all_none::<T>(n, k + 1);
    }
}

proof fn lemma_kept_from_bound<T>(s: Seq<Keyed<T>>, k: nat)
    requires
        k <= s.len(),
    ensures
        kept_from(s, k) <= s.len() - k,
    decreases s.len() - k,
{
    if k < s.len() {
        lemma_kept_from_bound(s, k + 1);
    }
}

/// Arranges the kept entries by id. Returns `None` exactly when the kept ids are not
/// `0..kept_count(entries)`.
pub fn arrange_by_id<T>(entries: Vec<Keyed<T>>) -> (r: Option<Vec<T>>)
    ensures
        r is Some <==> ids_consecutive(entries@),
        r matches Some(v) ==> arranged(entries@, v@),
{
    let ghost orig = entries@;
    let mut rest = entries;
    // Count the kept entries.
    let mut n: usize = 0;
    let mut k: usize = rest.len();
    proof {
        lemma_kept_from_bound(orig, 0);
    }
    while k > 0
        invariant
            rest@ == orig,
            orig == entries@,
            k <= orig.len(),
            n == kept_from(orig, k as nat),
            kept_from(orig, 0) <= orig.len(),
            orig.len() <= usize::MAX,
        decreases k,
    {
        k = k - 1;
        proof {
            lemma_kept_from_bound(orig, k as nat);
            lemma_kept_from_bound(orig, (k + 1) as nat);
        }
        if rest[k].keep {
            n = n + 1;
        }
    }
    // One empty slot per kept id.
    let mut slots: Vec<Option<T>> = Vec::new();
    let mut c: usize = 0;
    while c < n
        invariant
            c <= n,
            slots@ == Seq::new(c as nat, |_i: int| None::<T>),
        decreases n - c,
    {
        slots.push(None);
        c = c + 1;
        assert(slots@ =~= Seq::new(c as nat, |_i: int| None::<T>));
    }
    proof {
        lemma_some_from_all_none::<T>(n as nat, 0);
    }
    // Place every kept entry (from the back) into the slot of its id.
    let mut k: usize = rest.len();
    while k > 0
        invariant
            orig == entries@,
            k <= orig.len(),
            rest@ == orig.subrange(0, k as int),
            n == kept_count(orig),
            slots@.len() == n,
            some_from(slots@, 0) == kept_from(orig, k as nat),
            forall|p: int| k <= p < orig.len() && #[trigger] orig[p].keep ==> orig[p].id < n,
            forall|p: int|
                #![trigger orig[p]]
                k <= p < orig.len() && orig[p].keep ==> slots@[orig[p].id as int] == Some(orig[p].value),
            forall|p: int, q: int|
                k <= p < orig.len() && k <= q < orig.len() && p != q && orig[p].keep
                    && orig[q].keep ==> orig[p].id != orig[q].id,
            forall|s: int|
                0 <= s < n && (#[trigger] slots@[s]) is Some ==> exists|p: int|
                    k <= p < orig.len() && orig[p].keep && orig[p].id == s,
        decreases k,
    {
        let e = rest.pop().unwrap();
        k = k - 1;
        assert(e == orig[k as int]);
        assert(rest@ =~= orig.subrange(0, k as int));
        if e.keep {
            if e.id >= n {
                assert(orig[k as int].keep && orig[k as int].id >= kept_count(orig));
                assert(!ids_consecutive(orig));
                return None;
            }
            if slots[e.id].is_some() {
                proof {
                    let q = choose|p: int| k + 1 <= p < orig.len() && orig[p].keep && orig[p].id == e.id;
                    assert(orig[q].id == orig[k as int].id);
                    assert(q != k);
                    assert(!ids_consecutive(orig));
                }
                return None;
            }
            let ghost before = slots@;
            proof {
                lemma_some_from_fill(before, 0, e.id as int, e.value);
            }
            slots.set(e.id, Some(e.value));
            assert forall|p: int|
                #![trigger orig[p]]
                k <= p < orig.len() && orig[p].keep implies slots@[orig[p].id as int] == Some(orig[p].value) by {
                if p != k {
                    assert(k + 1 <= p);
                    assert(before[orig[p].id as int] == Some(orig[p].value));
                }
            }
            assert forall|p: int, q: int|
                k <= p < orig.len() && k <= q < orig.len() && p != q && orig[p].keep
                    && orig[q].keep implies orig[p].id != orig[q].id by {
                if p == k {
                    assert(before[orig[q].id as int] == Some(orig[q].value));
                } else if q == k {
                    assert(before[orig[p].id as int] == Some(orig[p].value));
                }
            }
            assert forall|s: int|
                0 <= s < n && (#[trigger] slots@[s]) is Some implies exists|p: int|
                    k <= p < orig.len() && orig[p].keep && orig[p].id == s by {
                if s != e.id as int {
                    assert(before[s] is Some);
                } else {
                    assert(orig[k as int].id == s);
                }
            }
        }
    }
    // Every slot is now filled: n kept entries landed in n distinct slots.
    proof {
        lemma_some_from_bound(slots@, 0);
        assert(ids_consecutive(orig));
    }
    let ghost filled = slots@;
    let mut out: Vec<T> = Vec::new();
    let mut c: usize = 0;
    while c < n
        invariant
            c <= n,
            slots@.len() == n,
            filled.len() == n,
            forall|s: int| c <= s < n ==> slots@[s] == filled[s],
            forall|s: int| 0 <= s < n ==> filled[s] is Some,
            out@.len() == c,
            forall|s: int| 0 <= s < c ==> Some(out@[s]) == filled[s],
        decreases n - c,
    {
        let mut tmp: Option<T> = None;
        assert(filled[c as int] is Some);
        assert(slots@[c as int] == filled[c as int]);
        assert(slots@[c as int] is Some);
        slots.set_and_swap(c, &mut tmp);
        assert(tmp is Some);
        match tmp {
            Some(v) => {
                out.push(v);
            },
            None => {
                assert(false);
                return None;
            },
        }
        c = c + 1;
    }
    assert forall|i: int| 0 <= i < orig.len() && orig[i].keep implies out@[orig[i].id as int]
        == orig[i].value by {
        assert(filled[orig[i].id as int] == Some(orig[i].value));
        assert(Some(out@[orig[i].id as int]) == filled[orig[i].id as int]);
    }
    Some(out)
}

/// An item type produced by the importer, with its id and requested demand.
pub struct ImportedItem<I> {
    pub id: usize,
    pub item: I,
    pub demand: u64,
}

/// A bin: a container with the number of copies in stock and the cost of using one.
pub struct Bin<C> {
    pub id: usize,
    pub container: C,
    pub stock: usize,
    pub cost: u64,
}

/// A bin-packing instance: `items[k]` is item type `k` with its demand, `bins[b]` is bin `b`.
pub struct BPInstance<I, C> {
    pub items: Vec<(I, usize)>,
    pub bins: Vec<Bin<C>>,
}

/// Why an instance was rejected.
#[derive(Clone, Copy, Debug, PartialEq, Eq, Structural)]
pub enum ImportError {
    /// The ids of the item types with positive demand are not `0..k`.
    NonConsecutiveItemIds,
    /// No item type has positive demand.
    NoItems,
    /// The ids of the bins with positive stock are not `0..k`.
    NonConsecutiveBinIds,
    /// No bin has positive stock.
    NoBins,
}

/// The item types keyed by id; kept when their demand is positive.
pub open spec fn keyed_items<I>(items: Seq<ImportedItem<I>>) -> Seq<Keyed<(I, usize)>> {
    Seq::new(
        items.len(),
        |i: int|
            Keyed {
                id: items[i].id,
                keep: items[i].demand > 0,
                value: (items[i].item, items[i].demand as usize),
            },
    )
}

/// The bins keyed by id; kept when their stock is positive.
pub open spec fn keyed_bins<C>(bins: Seq<Bin<C>>) -> Seq<Keyed<Bin<C>>> {
    Seq::new(bins.len(), |i: int| Keyed { id: bins[i].id, keep: bins[i].stock > 0, value: bins[i] })
}

/// Arranging the bins keeps each of them whole: every bin with positive stock sits, unchanged, at
/// the position of its id.
pub proof fn lemma_imported_bins_unchanged<C>(bins: Seq<Bin<C>>, arranged_bins: Seq<Bin<C>>)
    requires
        arranged(keyed_bins(bins), arranged_bins),
    ensures
        forall|i: int|
            0 <= i < bins.len() && bins[i].stock > 0 ==> arranged_bins[#[trigger] bins[i].id as int]
                == bins[i],
{
    assert forall|i: int| 0 <= i < bins.len() && bins[i].stock > 0 implies arranged_bins[
        #[trigger] bins[i].id as int] == bins[i] by {
        assert(keyed_bins(bins)[i].keep);
    }
}

/// Arranging the item types keeps each of them with its demand: every item type with positive
/// demand sits at the position of its id, paired with that demand.
pub proof fn lemma_imported_items_unchanged<I>(
    items: Seq<ImportedItem<I>>,
    arranged_items: Seq<(I, usize)>,
)
    requires
        arranged(keyed_items(items), arranged_items),
    ensures
        forall|i: int|
            0 <= i < items.len() && items[i].demand > 0 ==> arranged_items[#[trigger] items[i].id as int]
                == (items[i].item, items[i].demand as usize),
{
    assert forall|i: int| 0 <= i < items.len() && items[i].demand > 0 implies arranged_items[
        #[trigger] items[i].id as int] == (items[i].item, items[i].demand as usize) by {
        assert(keyed_items(items)[i].keep);
    }
}

/// Imports an instance: keeps the item types with positive demand and the bins with positive
/// stock, arranged by id. The item ids are checked first (consecutive, then non-empty), then the
/// bin ids in the same way.
pub fn import_instance<I, C>(items: Vec<ImportedItem<I>>, bins: Vec<Bin<C>>) -> (r: Result<
    BPInstance<I, C>,
    ImportError,
>)
    requires
        forall|i: int| 0 <= i < items@.len() ==> items@[i].demand <= usize::MAX,
    ensures
        r == Err::<BPInstance<I, C>, ImportError>(ImportError::NonConsecutiveItemIds) <==> !ids_consecutive(
            keyed_items(items@),
        ),
        r == Err::<BPInstance<I, C>, ImportError>(ImportError::NoItems) <==> ids_consecutive(
            keyed_items(items@),
        ) && kept_count(keyed_items(items@)) == 0,
        r == Err::<BPInstance<I, C>, ImportError>(ImportError::NonConsecutiveBinIds) <==> ids_consecutive(
            keyed_items(items@),
        ) && kept_count(keyed_items(items@)) > 0 && !ids_consecutive(keyed_bins(bins@)),
        r == Err::<BPInstance<I, C>, ImportError>(ImportError::NoBins) <==> ids_consecutive(
            keyed_items(items@),
        ) && kept_count(keyed_items(items@)) > 0 && ids_consecutive(keyed_bins(bins@))
            && kept_count(keyed_bins(bins@)) == 0,
        r matches Ok(inst) ==> arranged(keyed_items(items@), inst.items@) && arranged(
            keyed_bins(bins@),
            inst.bins@,
        ),
        r matches Ok(inst) ==> forall|i: int|
            0 <= i < bins@.len() && bins@[i].stock > 0 ==> inst.bins@[#[trigger] bins@[i].id as int]
                == bins@[i],
        r matches Ok(inst) ==> forall|i: int|
            0 <= i < items@.len() && items@[i].demand > 0 ==> inst.items@[
                #[trigger] items@[i].id as int] == (items@[i].item, items@[i].demand as usize),
{
    let ghost item_keys = keyed_items(items@);
    let ghost bin_keys = keyed_bins(bins@);
    let ghost items_in = items@;
    let ghost bins_in = bins@;
    let mut items = items;
    let mut keyed: Vec<Keyed<(I, usize)>> = Vec::new();
    let mut rev: Vec<ImportedItem<I>> = Vec::new();
    while items.len() > 0
        invariant
            items_in.len() == items@.len() + rev@.len(),
            forall|i: int| 0 <= i < items@.len() ==> items@[i] == items_in[i],
            forall|i: int| 0 <= i < rev@.len() ==> rev@[i] == items_in[items_in.len() - 1 - i],
        decreases items@.len(),
    {
        let it = items.pop().unwrap();
        rev.push(it);
    }
    while rev.len() > 0
        invariant
            items_in.len() == keyed@.len() + rev@.len(),
            forall|i: int| 0 <= i < items_in.len() ==> items_in[i].demand <= usize::MAX,
            forall|i: int| 0 <= i < rev@.len() ==> rev@[i] == items_in[items_in.len() - 1 - i],
            forall|i: int| 0 <= i < keyed@.len() ==> keyed@[i] == item_keys[i],
            item_keys == keyed_items(items_in),
        decreases rev@.len(),
    {
        let it = rev.pop().unwrap();
        assert(it == items_in[keyed@.len() as int]);
        let demand = it.demand as usize;
        keyed.push(Keyed { id: it.id, keep: it.demand > 0, value: (it.item, demand) });
    }
    assert(keyed@ =~= item_keys);
    let arranged_items = match arrange_by_id(keyed) {
        Some(v) => v,
        None => {
            return Err(ImportError::NonConsecutiveItemIds);
        },
    };
    if arranged_items.len() == 0 {
        return Err(ImportError::NoItems);
    }
    let mut bins = bins;
    let mut keyed_b: Vec<Keyed<Bin<C>>> = Vec::new();
    let mut rev_b: Vec<Bin<C>> = Vec::new();
    while bins.len() > 0
        invariant
            bins_in.len() == bins@.len() + rev_b@.len(),
            forall|i: int| 0 <= i < bins@.len() ==> bins@[i] == bins_in[i],
            forall|i: int| 0 <= i < rev_b@.len() ==> rev_b@[i] == bins_in[bins_in.len() - 1 - i],
        decreases bins@.len(),
    {
        let b = bins.pop().unwrap();
        rev_b.push(b);
    }
    while rev_b.len() > 0
        invariant
            bins_in.len() == keyed_b@.len() + rev_b@.len(),
            forall|i: int| 0 <= i < rev_b@.len() ==> rev_b@[i] == bins_in[bins_in.len() - 1 - i],
            forall|i: int| 0 <= i < keyed_b@.len() ==> keyed_b@[i] == bin_keys[i],
            bin_keys == keyed_bins(bins_in),
        decreases rev_b@.len(),
    {
        let b = rev_b.pop().unwrap();
        assert(b == bins_in[keyed_b@.len() as int]);
        let id = b.id;
        let keep = b.stock > 0;
        keyed_b.push(Keyed { id, keep, value: b });
    }
    assert(keyed_b@ =~= bin_keys);
    let arranged_bins = match arrange_by_id(keyed_b) {
        Some(v) => v,
        None => {
            return Err(ImportError::NonConsecutiveBinIds);
        },
    };
    if arranged_bins.len() == 0 {
        return Err(ImportError::NoBins);
    }
    proof {
        lemma_imported_bins_unchanged(bins_in, arranged_bins@);
        lemma_imported_items_unchanged(items_in, arranged_items@);
    }
    Ok(BPInstance { items: arranged_items, bins: arranged_bins })
}

/// The total cost of the bins used by a solution: `bins[id].cost` summed over the container id of
/// every layout in the solution.
pub open spec fn cost_of<C>(bins: Seq<Bin<C>>, ids: Seq<usize>) -> int
    decreases ids.len(),
{
    if ids.len() == 0 {
        0
    } else {
        cost_of(bins, ids.drop_last()) + bins[ids.last() as int].cost
    }
}

proof fn lemma_cost_of_prefix<C>(bins: Seq<Bin<C>>, ids: Seq<usize>, k: nat)
    requires
        k <= ids.len(),
    ensures
        cost_of(bins, ids.subrange(0, k as int)) <= cost_of(bins, ids),
    decreases ids.len() - k,
{
    if k < ids.len() {
        let longer = ids.subrange(0, (k + 1) as int);
        assert(longer.drop_last() =~= ids.subrange(0, k as int));
        lemma_cost_of_prefix(bins, ids, k + 1);
    } else {
        assert(ids.subrange(0, k as int) =~= ids);
    }
}

/// The cost is additive over layouts: one more layout on bin `id` adds exactly that bin's cost.
pub proof fn lemma_cost_of_push<C>(bins: Seq<Bin<C>>, ids: Seq<usize>, id: usize)
    ensures
        cost_of(bins, ids.push(id)) == cost_of(bins, ids) + bins[id as int].cost,
{
    assert(ids.push(id).drop_last() =~= ids);
}

/// The cost of two groups of layouts together is the sum of their costs.
pub proof fn lemma_cost_of_concat<C>(bins: Seq<Bin<C>>, a: Seq<usize>, b: Seq<usize>)
    ensures
        cost_of(bins, a + b) == cost_of(bins, a) + cost_of(bins, b),
    decreases b.len(),
{
    if b.len() > 0 {
        lemma_cost_of_concat(bins, a, b.drop_last());
        assert((a + b).drop_last() =~= a + b.drop_last());
    } else {
        assert(a + b =~= a);
    }
}

/// Every layout is charged its bin's cost: `k` layouts on bin `id` cost `k` times that bin's cost.
pub proof fn lemma_cost_of_repeated<C>(bins: Seq<Bin<C>>, id: usize, k: nat)
    ensures
        cost_of(bins, Seq::new(k, |_t: int| id)) == k * bins[id as int].cost,
    decreases k,
{
    if k > 0 {
        lemma_cost_of_repeated(bins, id, (k - 1) as nat);
        assert(Seq::new(k, |_t: int| id).drop_last() =~= Seq::new((k - 1) as nat, |_t: int| id));
        assert(k * bins[id as int].cost == (k - 1) * bins[id as int].cost + bins[id as int].cost) by (nonlinear_arith);
    } else {
        assert(Seq::new(k, |_t: int| id).len() == 0);
    }
}

/// The cost of a solution whose layouts use the containers `container_ids` (one id per layout).
pub fn solution_cost<I, C>(container_ids: &[usize], instance: &BPInstance<I, C>) -> (cost: u64)
    requires
        forall|t: int| 0 <= t < container_ids@.len() ==> (#[trigger] container_ids@[t] as int) < instance.bins@.len(),
        cost_of(instance.bins@, container_ids@) <= u64::MAX,
    ensures
        cost == cost_of(instance.bins@, container_ids@),
{
    let mut total: u64 = 0;
    let mut k: usize = 0;
    while k < container_ids.len()
        invariant
            k <= container_ids@.len(),
            forall|t: int| 0 <= t < container_ids@.len() ==> (#[trigger] container_ids@[t] as int) < instance.bins@.len(),
            cost_of(instance.bins@, container_ids@) <= u64::MAX,
            total == cost_of(instance.bins@, container_ids@.subrange(0, k as int)),
        decreases container_ids@.len() - k,
    {
        let id = container_ids[k];
        proof {
            let next = container_ids@.subrange(0, k + 1);
            assert(next.drop_last() =~= container_ids@.subrange(0, k as int));
            lemma_cost_of_prefix(instance.bins@, container_ids@, (k + 1) as nat);
            assert(cost_of(instance.bins@, next) <= u64::MAX);
        }
        total = total + instance.bins[id].cost;
        k = k + 1;
    }
    assert(container_ids@.subrange(0, container_ids@.len() as int) =~= container_ids@);
    total
}

/// The static representation of a problem instance: its item types and containers, addressed by
/// id.
pub trait Instance {
    type ItemType;

    type ContainerType;

    /// Number of item types.
    spec fn n_items(&self) -> nat;

    /// Number of containers.
    spec fn n_containers(&self) -> nat;

    /// Item type `id`.
    spec fn item_at(&self, id: int) -> Self::ItemType;

    /// Container `id`.
    spec fn container_at(&self, id: int) -> Self::ContainerType;

    /// All item types, in id order.
    fn items(&self) -> (r: Vec<&Self::ItemType>)
        ensures
            r@.len() == self.n_items(),
            forall|i: int| 0 <= i < r@.len() ==> *r@[i] == self.item_at(i),
    ;

    /// All containers, in id order.
    fn containers(&self) -> (r: Vec<&Self::ContainerType>)
        ensures
            r@.len() == self.n_containers(),
            forall|i: int| 0 <= i < r@.len() ==> *r@[i] == self.container_at(i),
    ;

    /// A specific item type.
    fn item(&self, id: usize) -> (r: &Self::ItemType)
        requires
            id < self.n_items(),
        ensures
            *r == self.item_at(id as int),
    ;

    /// A specific container.
    fn container(&self, id: usize) -> (r: &Self::ContainerType)
        requires
            id < self.n_containers(),
        ensures
            *r == self.container_at(id as int),
    ;
}

impl<I, C> Instance for BPInstance<I, C> {
    type ItemType = I;

    type ContainerType = C;

    open spec fn n_items(&self) -> nat {
        self.items@.len()
    }

    open spec fn n_containers(&self) -> nat {
        self.bins@.len()
    }

    open spec fn item_at(&self, id: int) -> I {
        self.items@[id].0
    }

    open spec fn container_at(&self, id: int) -> C {
        self.bins@[id].container
    }

    fn items(&self) -> (r: Vec<&I>) {
        let mut r: Vec<&I> = Vec::new();
        let mut k: usize = 0;
        while k < self.items.len()
            invariant
                k <= self.items@.len(),
                r@.len() == k,
                forall|i: int| 0 <= i < k ==> *r@[i] == self.items@[i].0,
            decreases self.items@.len() - k,
        {
            r.push(&self.items[k].0);
            k = k + 1;
        }
        r
    }

    fn containers(&self) -> (r: Vec<&C>) {
        let mut r: Vec<&C> = Vec::new();
        let mut k: usize = 0;
        while k < self.bins.len()
            invariant
                k <= self.bins@.len(),
                r@.len() == k,
                forall|i: int| 0 <= i < k ==> *r@[i] == self.bins@[i].container,
            decreases self.bins@.len() - k,
        {
            r.push(&self.bins[k].container);
            k = k + 1;
        }
        r
    }

    fn item(&self, id: usize) -> (r: &I) {
        &self.items[id].0
    }

    fn container(&self, id: usize) -> (r: &C) {
        &self.bins[id].container
    }
}

} // verus!
