//! The convex hull of a polygon as indices into its vertex list, and the hull reconstituted from
//! the indices cached in the polygon's surrogate.
//!
//! A vertex is identified here by the bit patterns of its two coordinates.
use vstd::prelude::*;

verus! {

/// Whether `i` is the position of the first vertex equal to `p`.
pub open spec fn is_first_position(vertices: Seq<(u64, u64)>, p: (u64, u64), i: int) -> bool {
    &&& 0 <= i < vertices.len()
    &&& vertices[i] == p
    &&& forall|k: int| 0 <= k < i ==> vertices[k] != p
}

/// The index of the first vertex equal to `p`; `p` must be one of the vertices.
fn position_of(vertices: &[(u64, u64)], p: (u64, u64)) -> (i: usize)
    requires
        vertices@.contains(p),
    ensures
        is_first_position(vertices@, p, i as int),
{
    let mut i: usize = 0;
    while i < vertices.len()
        invariant
            i <= vertices@.len(),
            vertices@.contains(p),
            forall|k: int| 0 <= k < i ==> vertices@[k] != p,
        decreases vertices@.len() - i,
    {
        if vertices[i].0 == p.0 && vertices[i].1 == p.1 {
            return i;
        }
        i = i + 1;
    }
    proof {
        let w = choose|k: int| 0 <= k < vertices@.len() && vertices@[k] == p;
        assert(vertices@[w] == p);
    }
    0
}

/// The convex hull of a polygon as indices into its vertices: for each hull point, in hull order,
/// the index of the first vertex equal to it. Every hull point must be one of the vertices.
pub fn convex_hull_indices(vertices: &[(u64, u64)], hull: &[(u64, u64)]) -> (ix: Vec<usize>)
    requires
        forall|t: int| 0 <= t < hull@.len() ==> vertices@.contains(#[trigger] hull@[t]),
    ensures
        ix@.len() == hull@.len(),
        forall|t: int|
            0 <= t < hull@.len() ==> is_first_position(vertices@, hull@[t], #[trigger] ix@[t] as int),
{
    let mut ix: Vec<usize> = Vec::new();
    let mut t: usize = 0;
    while t < hull.len()
        invariant
            t <= hull@.len(),
            ix@.len() == t,
            forall|s: int| 0 <= s < hull@.len() ==> vertices@.contains(#[trigger] hull@[s]),
            forall|s: int| 0 <= s < t ==> is_first_position(vertices@, hull@[s], #[trigger] ix@[s] as int),
        decreases hull@.len() - t,
    {
        let i = position_of(vertices, hull[t]);
        ix.push(i);
        t = t + 1;
    }
    ix
}

/// The polygon has no surrogate, so no cached hull.
#[derive(Clone, Copy, Debug, PartialEq, Eq, Structural)]
pub enum NoSurrogate {
    Missing,
}

/// The convex hull of a polygon with vertices `vertices`, from the hull's vertex indices cached in
/// its surrogate (`None` when the polygon has no surrogate): the vertices at those indices, in the
/// cached order.
pub fn convex_hull_from_surrogate<P: Copy>(vertices: &[P], hull_indices: Option<&Vec<usize>>) -> (r:
    Result<Vec<P>, NoSurrogate>)
    requires
        hull_indices matches Some(ix) ==> forall|t: int|
            0 <= t < ix@.len() ==> (#[trigger] ix@[t] as int) < vertices@.len(),
    ensures
        hull_indices is None ==> r == Err::<Vec<P>, NoSurrogate>(NoSurrogate::Missing),
        hull_indices matches Some(ix) ==> r matches Ok(hull) && hull@ == Seq::new(
            ix@.len(),
            |t: int| vertices@[ix@[t] as int],
        ),
{
    match hull_indices {
        Some(ix) => {
            let mut hull: Vec<P> = Vec::new();
            let mut t: usize = 0;
            while t < ix.len()
                invariant
                    t <= ix@.len(),
                    forall|s: int| 0 <= s < ix@.len() ==> (#[trigger] ix@[s] as int) < vertices@.len(),
                    hull@ == Seq::new(t as nat, |s: int| vertices@[ix@[s] as int]),
                decreases ix@.len() - t,
            {
                hull.push(vertices[ix[t]]);
                t = t + 1;
                assert(hull@ =~= Seq::new(t as nat, |s: int| vertices@[ix@[s] as int]));
            }
            Ok(hull)
        },
        None => Err(NoSurrogate::Missing),
    }
}

} // verus!
