use vstd::prelude::*;

verus! {

/// `<[T]>::swap` exchanges the elements at positions `a` and `b` of the slice (leaving the slice
/// unchanged when `a == b`) and panics when either index is out of bounds; the contract admits only
/// in-bounds indices and states the exchange over the slice's sequence view.
pub assume_specification<Elem>[ <[Elem]>::swap ](slice: &mut [Elem], a: usize, b: usize)
    requires
        a < old(slice)@.len(),
        b < old(slice)@.len(),
    ensures
        final(slice)@ == old(slice)@.update(a as int, old(slice)@[b as int]).update(
            b as int,
            old(slice)@[a as int],
        ),
;

} // verus!
