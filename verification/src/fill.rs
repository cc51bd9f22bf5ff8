//! The demand-driven placement loop shared by construction, improvement fill and separation.
//!
//! Item types are visited in a fixed order (largest first). For the current type, copies are
//! attempted one at a time while its demand is unmet; a successful attempt places one more copy, a
//! failed one abandons the type (if one more copy cannot be made to fit, neither can further
//! copies) and moves on to the next type. The attempts themselves (geometric search) are made by
//! the caller; this state machine decides what to attempt next and records the outcomes.
use vstd::prelude::*;

verus! {

/// Progress of one pass over the placement order.
pub struct DemandFill {
    order: Vec<usize>,
    qty: Vec<usize>,
    placed: Vec<usize>,
    pos: usize,
}

/// The first position `p >= from` of `order` whose type still has unmet demand, or `order.len()`.
pub open spec fn next_open(order: Seq<usize>, qty: Seq<usize>, placed: Seq<usize>, from: nat) -> nat
    decreases order.len() - from,
{
    if from >= order.len() {
        order.len()
    } else if placed[order[from as int] as int] < qty[order[from as int] as int] {
        from
    } else {
        next_open(order, qty, placed, from + 1)
    }
}

proof fn lemma_next_open_bounds(order: Seq<usize>, qty: Seq<usize>, placed: Seq<usize>, from: nat)
    requires
        from <= order.len(),
    ensures
        from <= next_open(order, qty, placed, from) <= order.len(),
        next_open(order, qty, placed, from) < order.len() ==> placed[order[next_open(
            order,
            qty,
            placed,
            from,
        ) as int] as int] < qty[order[next_open(order, qty, placed, from) as int] as int],
        forall|p: int|
            from <= p < next_open(order, qty, placed, from) ==> placed[order[p] as int]
                >= qty[order[p] as int],
    decreases order.len() - from,
{
    if from < order.len() && !(placed[order[from as int] as int] < qty[order[from as int] as int]) {
        lemma_next_open_bounds(order, qty, placed, from + 1);
    }
}

/// Unmet demand over the types `0..n`: `qty[k] - placed[k]` summed over the types below their
/// demand.
pub open spec fn unmet_upto(qty: Seq<usize>, placed: Seq<usize>, n: nat) -> nat
    decreases n,
{
    if n == 0 {
        0
    } else {
        let k = (n - 1) as int;
        unmet_upto(qty, placed, (n - 1) as nat) + if placed[k] < qty[k] {
            (qty[k] - placed[k]) as nat
        } else {
            0nat
        }
    }
}

/// Placing one more copy of a type below its demand lowers the unmet demand by one.
proof fn lemma_unmet_place_one(qty: Seq<usize>, placed: Seq<usize>, k: int, n: nat)
    requires
        qty.len() == placed.len(),
        0 <= k < qty.len(),
        n <= qty.len(),
        placed[k] < qty[k],
    ensures
        unmet_upto(qty, placed.update(k, (placed[k] + 1) as usize), n) == if k < n {
            unmet_upto(qty, placed, n) - 1
        } else {
            unmet_upto(qty, placed, n) as int
        },
    decreases n,
{
    if n > 0 {
        lemma_unmet_place_one(qty, placed, k, (n - 1) as nat);
    }
}

impl DemandFill {
    /// The visiting order.
    pub closed spec fn order(&self) -> Seq<usize> {
        self.order@
    }

    /// The demand per item type.
    pub closed spec fn qty(&self) -> Seq<usize> {
        self.qty@
    }

    /// Copies placed so far, per item type.
    pub closed spec fn placed(&self) -> Seq<usize> {
        self.placed@
    }

    /// The position in the order of the type being worked on.
    pub closed spec fn pos(&self) -> nat {
        self.pos as nat
    }

    /// The work a pass can still do: the positions left in the order plus the unmet demand. Every
    /// reported attempt lowers it, so a pass makes at most `order.len()` plus total demand attempts.
    pub open spec fn work_left(&self) -> nat {
        ((self.order().len() - self.pos()) + unmet_upto(self.qty(), self.placed(), self.qty().len())) as nat
    }

    /// Every type in the order is a valid type, the counts are parallel to the demand, and the
    /// position lies within the order.
    pub closed spec fn wf(&self) -> bool {
        &&& self.qty@.len() == self.placed@.len()
        &&& forall|p: int| 0 <= p < self.order@.len() ==> (#[trigger] self.order@[p] as int) < self.qty@.len()
        &&& self.pos <= self.order@.len()
    }

    /// Starts a pass over `order` with `placed[k]` copies of each type `k` already placed.
    pub fn new(order: Vec<usize>, qty: Vec<usize>, placed: Vec<usize>) -> (f: Self)
        requires
            qty@.len() == placed@.len(),
            forall|p: int| 0 <= p < order@.len() ==> (#[trigger] order@[p] as int) < qty@.len(),
        ensures
            f.wf(),
            f.order() == order@,
            f.qty() == qty@,
            f.placed() == placed@,
            f.pos() == 0,
    {
        DemandFill { order, qty, placed, pos: 0 }
    }

    /// The item type to attempt next: the current type if its demand is still unmet, else the next
    /// type in the order with unmet demand. `None` once the order is exhausted.
    pub fn next_request(&mut self) -> (r: Option<usize>)
        requires
            old(self).wf(),
        ensures
            final(self).wf(),
            final(self).order() == old(self).order(),
            final(self).qty() == old(self).qty(),
            final(self).placed() == old(self).placed(),
            final(self).pos() == next_open(old(self).order(), old(self).qty(), old(self).placed(), old(self).pos()),
            r is None <==> final(self).pos() == final(self).order().len(),
            r matches Some(k) ==> k == final(self).order()[final(self).pos() as int],
            r matches Some(k) ==> final(self).placed()[k as int] < final(self).qty()[k as int],
            final(self).work_left() <= old(self).work_left(),
    {
        proof {
            lemma_next_open_bounds(self.order@, self.qty@, self.placed@, self.pos as nat);
        }
        let ghost target = next_open(self.order@, self.qty@, self.placed@, self.pos as nat);
        while self.pos < self.order.len()
            invariant
                self.wf(),
                self.order@ == old(self).order@,
                self.qty@ == old(self).qty@,
                self.placed@ == old(self).placed@,
                old(self).pos <= self.pos <= target,
                target == next_open(old(self).order@, old(self).qty@, old(self).placed@, old(self).pos as nat),
                next_open(self.order@, self.qty@, self.placed@, self.pos as nat) == target,
            decreases self.order@.len() - self.pos,
        {
            let k = self.order[self.pos];
            if self.placed[k] < self.qty[k] {
                assert(next_open(self.order@, self.qty@, self.placed@, self.pos as nat) == self.pos as nat);
                return Some(k);
            }
            self.pos = self.pos + 1;
            proof {
                lemma_next_open_bounds(self.order@, self.qty@, self.placed@, self.pos as nat);
            }
        }
        None
    }

    /// Records the outcome of an attempt at the current type: success places one more copy of it,
    /// failure abandons it and moves to the next type.
    pub fn report(&mut self, success: bool)
        requires
            old(self).wf(),
            old(self).pos() < old(self).order().len(),
            old(self).placed()[old(self).order()[old(self).pos() as int] as int] < old(
                self,
            ).qty()[old(self).order()[old(self).pos() as int] as int],
        ensures
            final(self).wf(),
            final(self).order() == old(self).order(),
            final(self).qty() == old(self).qty(),
            success ==> final(self).pos() == old(self).pos() && final(self).placed() == old(
                self,
            ).placed().update(
                old(self).order()[old(self).pos() as int] as int,
                (old(self).placed()[old(self).order()[old(self).pos() as int] as int] + 1) as usize,
            ),
            !success ==> final(self).pos() == old(self).pos() + 1 && final(self).placed() == old(
                self,
            ).placed(),
            final(self).work_left() < old(self).work_left(),
    {
        proof {
            let k = self.order@[self.pos as int] as int;
            lemma_unmet_place_one(self.qty@, self.placed@, k, self.qty@.len());
        }
        if success {
            let k = self.order[self.pos];
            let c = self.placed[k];
            self.placed.set(k, c + 1);
        } else if self.pos < self.order.len() {
            self.pos = self.pos + 1;
        }
    }

    /// Copies placed so far, per item type.
    pub fn placed_per_type(&self) -> (r: &Vec<usize>)
        ensures
            r@ == self.placed(),
    {
        &self.placed
    }

    /// Ends the pass, handing back the per-type placed counts.
    pub fn into_placed(self) -> (r: Vec<usize>)
        ensures
            r@ == self.placed(),
    {
        self.placed
    }
}

/// A pass never places more copies of a type than requested: starting from counts within the
/// demand, every successful report keeps them within it.
pub proof fn lemma_report_keeps_within_demand(
    qty: Seq<usize>,
    placed: Seq<usize>,
    k: int,
)
    requires
        qty.len() == placed.len(),
        0 <= k < qty.len(),
        placed[k] < qty[k],
        forall|t: int| 0 <= t < qty.len() ==> placed[t] <= qty[t],
    ensures
        forall|t: int|
            0 <= t < qty.len() ==> #[trigger] placed.update(k, (placed[k] + 1) as usize)[t] <= qty[t],
{
}

} // verus!
