//! The index bookkeeping of polygon simplification and concavity closing.
//!
//! A polygon is a ring of vertices. Simplification looks at every *corner* `(prev, i, next)` of the
//! ring, proposes removal candidates from the corners' turn directions, and executes the cheapest
//! valid one; concavity closing replaces the run of vertices strictly between two vertices `i` and
//! `j` by a straight edge. The geometry (turn directions, areas, intersections) is computed on
//! floating-point coordinates by the caller; this module holds the ring arithmetic, generic over
//! the vertex type.
use vstd::prelude::*;

verus! {

/// Whether to strictly inflate or deflate when making any modifications to a shape.
#[derive(Clone, Copy, Debug, PartialEq, Eq, Hash, Structural)]
pub enum ShapeModifyMode {
    /// Modify the shape to be strictly larger than the original (superset).
    Inflate,
    /// Modify the shape to be strictly smaller than the original (subset).
    Deflate,
}

/// A corner of a ring: the vertex indices `(prev, at, next)`; the corner is the left-hand side of
/// the path `prev -> at -> next`.
#[derive(Clone, Copy, Debug, PartialEq, Eq, Structural)]
pub struct Corner(pub usize, pub usize, pub usize);

/// The turn direction of a corner, seen from its left-hand side.
#[derive(Clone, Copy, Debug, PartialEq, Eq, Structural)]
pub enum CornerType {
    Concave,
    Convex,
    Collinear,
}

/// A simplification move: remove the vertex of a concave or collinear corner, or replace the two
/// vertices of two consecutive convex corners by the intersection of their outer edges.
#[derive(Clone, Copy, Debug, PartialEq, Eq, Structural)]
pub enum Candidate {
    Concave(Corner),
    ConvexConvex(Corner, Corner),
    Collinear(Corner),
}

impl Corner {
    /// Reverses the corner's orientation (swaps `prev` and `next`).
    pub fn flip(&mut self)
        ensures
            *final(self) == Corner(old(self).2, old(self).1, old(self).0),
    {
        let t = self.0;
        self.0 = self.2;
        self.2 = t;
    }

    /// The three vertices of the corner, in `(prev, at, next)` order.
    pub fn to_points<P: Copy>(self, points: &[P]) -> (out: [P; 3])
        requires
            self.0 < points@.len(),
            self.1 < points@.len(),
            self.2 < points@.len(),
        ensures
            out@ == seq![points@[self.0 as int], points@[self.1 as int], points@[self.2 as int]],
    {
        let out = [points[self.0], points[self.1], points[self.2]];
        assert(out@ =~= seq![points@[self.0 as int], points@[self.1 as int], points@[self.2 as int]]);
        out
    }
}

/// The corner of a ring of `n` vertices centred on vertex `i`.
pub open spec fn ring_corner(n: nat, i: nat) -> Corner {
    Corner(((i + n - 1) % (n as int)) as usize, i as usize, ((i + 1) % n) as usize)
}

/// The corners examined by simplification: for inflation, every corner of the ring in vertex
/// order; for deflation, the same corners in reverse order, each flipped.
pub open spec fn ring_corners_spec(n: nat, mode: ShapeModifyMode) -> Seq<Corner> {
    match mode {
        ShapeModifyMode::Inflate => Seq::new(n, |i: int| ring_corner(n, i as nat)),
        ShapeModifyMode::Deflate => Seq::new(
            n,
            |i: int|
                {
                    let c = ring_corner(n, (n - 1 - i) as nat);
                    Corner(c.2, c.1, c.0)
                },
        ),
    }
}

/// The corners of a ring of `n` vertices, in the order simplification examines them under `mode`.
pub fn ring_corners(n: usize, mode: ShapeModifyMode) -> (corners: Vec<Corner>)
    requires
        n > 0,
    ensures
        corners@ == ring_corners_spec(n as nat, mode),
{
    let mut corners: Vec<Corner> = Vec::new();
    let mut k: usize = 0;
    while k < n
        invariant
            k <= n,
            corners@.len() == k,
            forall|t: int| 0 <= t < k ==> #[trigger] corners@[t] == ring_corners_spec(n as nat, mode)[t],
        decreases n - k,
    {
        // Inflation visits vertex k; deflation visits the ring backwards.
        let i = match mode {
            ShapeModifyMode::Inflate => k,
            ShapeModifyMode::Deflate => n - 1 - k,
        };
        let prev = if i == 0 {
            n - 1
        } else {
            i - 1
        };
        let next = if i + 1 == n {
            0
        } else {
            i + 1
        };
        let mut c = Corner(prev, i, next);
        proof {
            assert(((i + n - 1) % (n as int)) == prev as int) by {
                if i == 0 {
                    vstd::arithmetic::div_mod::lemma_small_mod((n - 1) as nat, n as nat);
                } else {
                    vstd::arithmetic::div_mod::lemma_mod_add_multiples_vanish((i - 1) as int, n as int);
                    vstd::arithmetic::div_mod::lemma_small_mod((i - 1) as nat, n as nat);
                }
            }
            assert(((i as nat + 1) % (n as nat)) == next as int) by {
                if i + 1 == n {
                    vstd::arithmetic::div_mod::lemma_mod_self_0(n as int);
                } else {
                    vstd::arithmetic::div_mod::lemma_small_mod((i + 1) as nat, n as nat);
                }
            }
            assert(c == ring_corner(n as nat, i as nat));
        }
        if mode == ShapeModifyMode::Deflate {
            c.flip();
        }
        corners.push(c);
        k = k + 1;
    }
    assert(corners@ =~= ring_corners_spec(n as nat, mode));
    corners
}

/// The index of the corner before position `i` in a cyclic list of `n` corners.
pub open spec fn prev_position(n: nat, i: nat) -> nat {
    if i == 0 {
        (n - 1) as nat
    } else {
        (i - 1) as nat
    }
}

/// The removal candidate (if any) proposed by the corner at position `i`, given the type of every
/// corner: a concave or collinear corner proposes its own removal; a convex corner preceded (in
/// cyclic order) by a convex corner proposes replacing both.
pub open spec fn candidate_at(corners: Seq<Corner>, types: Seq<CornerType>, i: nat) -> Seq<
    Candidate,
> {
    let p = prev_position(corners.len(), i);
    match types[i as int] {
        CornerType::Concave => seq![Candidate::Concave(corners[i as int])],
        CornerType::Collinear => seq![Candidate::Collinear(corners[i as int])],
        CornerType::Convex => if types[p as int] == CornerType::Convex {
            seq![Candidate::ConvexConvex(corners[p as int], corners[i as int])]
        } else {
            Seq::empty()
        },
    }
}

/// The candidates proposed by the corners at positions `0..k`, in position order.
pub open spec fn candidates_upto(corners: Seq<Corner>, types: Seq<CornerType>, k: nat) -> Seq<
    Candidate,
>
    decreases k,
{
    if k == 0 {
        Seq::empty()
    } else {
        candidates_upto(corners, types, (k - 1) as nat) + candidate_at(
            corners,
            types,
            (k - 1) as nat,
        )
    }
}

/// Generates the removal candidates of one simplification pass from the corners and their turn
/// types (`types[i]` is the type of `corners[i]`).
pub fn removal_candidates(corners: &[Corner], types: &[CornerType]) -> (out: Vec<Candidate>)
    requires
        corners@.len() > 0,
        types@.len() == corners@.len(),
    ensures
        out@ == candidates_upto(corners@, types@, corners@.len() as nat),
{
    let n = corners.len();
    let mut out: Vec<Candidate> = Vec::new();
    let mut prev_corner = corners[n - 1];
    let mut prev_type = types[n - 1];
    let mut i: usize = 0;
    while i < n
        invariant
            n == corners@.len(),
            types@.len() == n,
            i <= n,
            prev_corner == corners@[prev_position(n as nat, i as nat) as int],
            prev_type == types@[prev_position(n as nat, i as nat) as int],
            out@ == candidates_upto(corners@, types@, i as nat),
        decreases n - i,
    {
        let corner = corners[i];
        let corner_type = types[i];
        match corner_type {
            CornerType::Concave => out.push(Candidate::Concave(corner)),
            CornerType::Collinear => out.push(Candidate::Collinear(corner)),
            CornerType::Convex => {
                if prev_type == CornerType::Convex {
                    out.push(Candidate::ConvexConvex(prev_corner, corner));
                }
            },
        }
        proof {
            let step = candidate_at(corners@, types@, i as nat);
            assert(candidates_upto(corners@, types@, (i + 1) as nat) == candidates_upto(
                corners@,
                types@,
                i as nat,
            ) + step);
        }
        prev_corner = corner;
        prev_type = corner_type;
        i = i + 1;
        proof {
            assert(out@ =~= candidates_upto(corners@, types@, i as nat));
        }
    }
    out
}

/// Whether `candidate` is the one the corner at position `i` proposes, by the turn types: the
/// corner is concave (or collinear) and the candidate removes it, or the corner and its
/// predecessor are both convex and the candidate replaces that pair, predecessor first.
pub open spec fn proposed_at(
    corners: Seq<Corner>,
    types: Seq<CornerType>,
    candidate: Candidate,
    i: int,
) -> bool {
    let n = corners.len();
    &&& 0 <= i < n
    &&& match candidate {
        Candidate::Concave(c) => corners[i] == c && types[i] == CornerType::Concave,
        Candidate::Collinear(c) => corners[i] == c && types[i] == CornerType::Collinear,
        Candidate::ConvexConvex(c1, c2) => {
            let p = if i == 0 {
                n - 1
            } else {
                i - 1
            };
            &&& corners[i] == c2
            &&& corners[p] == c1
            &&& types[i] == CornerType::Convex
            &&& types[p] == CornerType::Convex
        },
    }
}

/// Whether some corner proposes `candidate`.
pub open spec fn proposed_by_some_corner(
    corners: Seq<Corner>,
    types: Seq<CornerType>,
    candidate: Candidate,
) -> bool {
    exists|i: int| #[trigger] proposed_at(corners, types, candidate, i)
}

proof fn lemma_candidates_upto_sound(corners: Seq<Corner>, types: Seq<CornerType>, k: nat)
    requires
        corners.len() > 0,
        types.len() == corners.len(),
        k <= corners.len(),
    ensures
        forall|t: int|
            0 <= t < candidates_upto(corners, types, k).len() ==> proposed_by_some_corner(
                corners,
                types,
                #[trigger] candidates_upto(corners, types, k)[t],
            ),
    decreases k,
{
    if k > 0 {
        let j = (k - 1) as nat;
        lemma_candidates_upto_sound(corners, types, j);
        let before = candidates_upto(corners, types, j);
        let step = candidate_at(corners, types, j);
        let all = candidates_upto(corners, types, k);
        assert(all == before + step);
        assert forall|t: int| 0 <= t < all.len() implies proposed_by_some_corner(
            corners,
            types,
            #[trigger] all[t],
        ) by {
            if t < before.len() {
                assert(all[t] == before[t]);
                assert(proposed_by_some_corner(corners, types, before[t]));
                let w = choose|i: int| #[trigger] proposed_at(corners, types, before[t], i);
                assert(proposed_at(corners, types, all[t], w));
            } else {
                assert(all[t] == step[t - before.len()]);
                assert(proposed_at(corners, types, all[t], j as int));
            }
        }
    }
}

/// The candidate the corner at position `i` calls for, if its turn types call for one.
pub open spec fn called_for(corners: Seq<Corner>, types: Seq<CornerType>, i: int) -> Option<Candidate> {
    let p = if i == 0 {
        corners.len() - 1
    } else {
        i - 1
    };
    if types[i] == CornerType::Concave {
        Some(Candidate::Concave(corners[i]))
    } else if types[i] == CornerType::Collinear {
        Some(Candidate::Collinear(corners[i]))
    } else if types[p] == CornerType::Convex {
        Some(Candidate::ConvexConvex(corners[p], corners[i]))
    } else {
        None
    }
}

proof fn lemma_candidates_upto_complete(corners: Seq<Corner>, types: Seq<CornerType>, k: nat, i: int)
    requires
        corners.len() > 0,
        types.len() == corners.len(),
        k <= corners.len(),
        0 <= i < k,
        called_for(corners, types, i) is Some,
    ensures
        candidates_upto(corners, types, k).contains(called_for(corners, types, i)->0),
    decreases k,
{
    let j = (k - 1) as nat;
    let before = candidates_upto(corners, types, j);
    let all = candidates_upto(corners, types, k);
    assert(all == before + candidate_at(corners, types, j));
    let cand = called_for(corners, types, i)->0;
    if i < j {
        lemma_candidates_upto_complete(corners, types, j, i);
        let w = choose|t: int| 0 <= t < before.len() && before[t] == cand;
        assert(all[w] == before[w]);
    } else {
        assert(all[before.len() as int] == cand);
    }
}

/// How many of the corners at positions `0..k` call for a candidate.
pub open spec fn count_called_for(corners: Seq<Corner>, types: Seq<CornerType>, k: nat) -> nat
    decreases k,
{
    if k == 0 {
        0
    } else {
        count_called_for(corners, types, (k - 1) as nat) + if called_for(
            corners,
            types,
            (k - 1) as int,
        ) is Some {
            1nat
        } else {
            0nat
        }
    }
}

proof fn lemma_candidates_upto_count(corners: Seq<Corner>, types: Seq<CornerType>, k: nat)
    requires
        corners.len() > 0,
        types.len() == corners.len(),
        k <= corners.len(),
    ensures
        candidates_upto(corners, types, k).len() == count_called_for(corners, types, k),
    decreases k,
{
    if k > 0 {
        let j = (k - 1) as nat;
        lemma_candidates_upto_count(corners, types, j);
        assert(prev_position(corners.len(), j) as int == (if j == 0 {
            corners.len() - 1
        } else {
            j - 1
        }));
    }
}

/// The candidates of a pass are exactly the ones its corners' turn types call for: every
/// candidate is proposed by some corner (so a two-convex-corner candidate consists of a corner
/// typed convex and its predecessor typed convex), and every corner whose types call for a
/// candidate — a concave corner, a collinear corner, a convex corner after a convex one — has its
/// candidate among them; there is one candidate per such corner.
pub proof fn lemma_removal_candidates_by_type(corners: Seq<Corner>, types: Seq<CornerType>)
    requires
        corners.len() > 0,
        types.len() == corners.len(),
    ensures
        forall|t: int|
            0 <= t < candidates_upto(corners, types, corners.len()).len() ==> proposed_by_some_corner(
                corners,
                types,
                #[trigger] candidates_upto(corners, types, corners.len())[t],
            ),
        forall|i: int|
            0 <= i < corners.len() && #[trigger] called_for(corners, types, i) is Some
                ==> candidates_upto(corners, types, corners.len()).contains(
                called_for(corners, types, i)->0,
            ),
        candidates_upto(corners, types, corners.len()).len() == count_called_for(
            corners,
            types,
            corners.len(),
        ),
{
    lemma_candidates_upto_count(corners, types, corners.len());
    lemma_candidates_upto_sound(corners, types, corners.len());
    assert forall|i: int|
        0 <= i < corners.len() && #[trigger] called_for(corners, types, i) is Some implies candidates_upto(
            corners,
            types,
            corners.len(),
        ).contains(called_for(corners, types, i)->0) by {
        lemma_candidates_upto_complete(corners, types, corners.len(), i);
    }
}

/// The ring after executing `candidate`: a concave or collinear corner's vertex is removed; for
/// two consecutive convex corners, the first corner's vertex is removed and the second corner's
/// vertex is replaced by the replacing vertex.
pub open spec fn executed<P>(shape: Seq<P>, candidate: Candidate, replacing_vertex: Option<P>) -> Seq<P> {
    match candidate {
        Candidate::Collinear(c) => shape.remove(c.1 as int),
        Candidate::Concave(c) => shape.remove(c.1 as int),
        Candidate::ConvexConvex(c1, c2) => {
            let other = if c1.1 < c2.1 {
                c2.1 - 1
            } else {
                c2.1 as int
            };
            shape.remove(c1.1 as int).update(other, replacing_vertex->0)
        },
    }
}

/// The indices a candidate refers to lie inside a ring of `n` vertices, and a two-corner
/// candidate names two distinct vertices.
pub open spec fn candidate_fits(candidate: Candidate, n: nat) -> bool {
    match candidate {
        Candidate::Collinear(c) => c.1 < n,
        Candidate::Concave(c) => c.1 < n,
        Candidate::ConvexConvex(c1, c2) => c1.1 < n && c2.1 < n && c1.1 != c2.1,
    }
}

/// Executes a simplification candidate on the vertex ring `shape`. `replacing_vertex` is the new
/// vertex of a two-corner candidate (the intersection of its outer edges); it is required there
/// and ignored otherwise.
pub fn execute_candidate<P: Copy>(shape: &[P], candidate: &Candidate, replacing_vertex: Option<P>) -> (out: Vec<P>)
    requires
        candidate_fits(*candidate, shape@.len()),
        candidate is ConvexConvex ==> replacing_vertex is Some,
    ensures
        out@ == executed(shape@, *candidate, replacing_vertex),
{
    let mut points: Vec<P> = Vec::new();
    let mut k: usize = 0;
    while k < shape.len()
        invariant
            k <= shape@.len(),
            points@ == shape@.subrange(0, k as int),
        decreases shape@.len() - k,
    {
        points.push(shape[k]);
        k = k + 1;
        assert(points@ =~= shape@.subrange(0, k as int));
    }
    assert(points@ =~= shape@);
    match candidate {
        Candidate::Collinear(c) => {
            points.remove(c.1);
        },
        Candidate::Concave(c) => {
            points.remove(c.1);
        },
        Candidate::ConvexConvex(c1, c2) => {
            let v = match replacing_vertex {
                Some(v) => v,
                None => {
                    return points;
                },
            };
            points.remove(c1.1);
            let other_index = if c1.1 < c2.1 {
                c2.1 - 1
            } else {
                c2.1
            };
            let ghost removed = points@;
            points.remove(other_index);
            points.insert(other_index, v);
            assert(points@ =~= removed.update(other_index as int, v));
        },
    }
    points
}

/// Executing a two-convex-corner candidate removes the first corner's vertex and puts the
/// replacing vertex where the second corner's vertex stood: every other vertex is kept, in order,
/// and the ring loses one vertex. Removing a concave or collinear corner's vertex keeps every
/// other vertex, in order.
pub proof fn lemma_executed_keeps_other_vertices<P>(
    shape: Seq<P>,
    candidate: Candidate,
    replacing_vertex: Option<P>,
)
    requires
        candidate_fits(candidate, shape.len()),
        candidate is ConvexConvex ==> replacing_vertex is Some,
    ensures
        executed(shape, candidate, replacing_vertex).len() == shape.len() - 1,
        candidate matches Candidate::ConvexConvex(c1, c2) ==> executed(
            shape,
            candidate,
            replacing_vertex,
        ) == shape.update(c2.1 as int, replacing_vertex->0).remove(c1.1 as int),
        candidate matches Candidate::Concave(c) ==> executed(shape, candidate, replacing_vertex)
            == shape.remove(c.1 as int),
        candidate matches Candidate::Collinear(c) ==> executed(shape, candidate, replacing_vertex)
            == shape.remove(c.1 as int),
{
    match candidate {
        Candidate::ConvexConvex(c1, c2) => {
            assert(executed(shape, candidate, replacing_vertex) =~= shape.update(
                c2.1 as int,
                replacing_vertex->0,
            ).remove(c1.1 as int));
        },
        _ => {},
    }
}

/// How many vertices closing the concavity between vertices `i` and `j` of a ring of `n` vertices
/// eliminates: those strictly between `i` and `j`, walking forward from `i`.
pub open spec fn vertices_between(i: nat, j: nat, n: nat) -> nat {
    if j > i {
        (j - i - 1) as nat
    } else {
        (n - i + j - 1) as nat
    }
}

/// Number of vertices eliminated by closing the concavity between vertices `i` and `j` of a ring
/// of `n_points` vertices (`i != j`).
pub fn calc_vert_elim(i: usize, j: usize, n_points: usize) -> (count: usize)
    requires
        i < n_points,
        j < n_points,
        i != j,
    ensures
        count == vertices_between(i as nat, j as nat, n_points as nat),
{
    if j > i {
        j - i - 1
    } else {
        n_points - i + j - 1
    }
}

/// `best` is the first pair of `pairs` that eliminates the most vertices on a ring of `n` vertices.
pub open spec fn is_first_best(pairs: Seq<(usize, usize)>, n: nat, b: int) -> bool {
    &&& 0 <= b < pairs.len()
    &&& forall|t: int|
        0 <= t < pairs.len() ==> vertices_between(pairs[t].0 as nat, pairs[t].1 as nat, n)
            <= vertices_between(pairs[b].0 as nat, pairs[b].1 as nat, n)
    &&& forall|t: int|
        0 <= t < b ==> vertices_between(pairs[t].0 as nat, pairs[t].1 as nat, n) < vertices_between(
            pairs[b].0 as nat,
            pairs[b].1 as nat,
            n,
        )
}

/// Chooses which concavity to close among the valid candidate pairs `(i, j)`, listed in search
/// order: the one eliminating the most vertices, the earliest on ties; `None` when there is none.
pub fn select_concavity(valid: &[(usize, usize)], n_points: usize) -> (best: Option<(usize, usize)>)
    requires
        forall|t: int|
            0 <= t < valid@.len() ==> (#[trigger] valid@[t]).0 < n_points && valid@[t].1 < n_points
                && valid@[t].0 != valid@[t].1,
    ensures
        best is None <==> valid@.len() == 0,
        best matches Some(p) ==> exists|b: int| is_first_best(valid@, n_points as nat, b) && valid@[b] == p,
{
    if valid.len() == 0 {
        return None;
    }
    let mut b: usize = 0;
    let (i0, j0) = valid[0];
    let mut best_elim = calc_vert_elim(i0, j0, n_points);
    let mut t: usize = 1;
    while t < valid.len()
        invariant
            forall|s: int|
                0 <= s < valid@.len() ==> (#[trigger] valid@[s]).0 < n_points && valid@[s].1 < n_points
                    && valid@[s].0 != valid@[s].1,
            1 <= t <= valid@.len(),
            b < t,
            best_elim == vertices_between(valid@[b as int].0 as nat, valid@[b as int].1 as nat, n_points as nat),
            forall|s: int|
                0 <= s < t ==> vertices_between(valid@[s].0 as nat, valid@[s].1 as nat, n_points as nat)
                    <= best_elim,
            forall|s: int|
                0 <= s < b ==> vertices_between(valid@[s].0 as nat, valid@[s].1 as nat, n_points as nat)
                    < best_elim,
        decreases valid@.len() - t,
    {
        let (i, j) = valid[t];
        let elim = calc_vert_elim(i, j, n_points);
        if elim > best_elim {
            b = t;
            best_elim = elim;
        }
        t = t + 1;
    }
    assert(is_first_best(valid@, n_points as nat, b as int));
    Some(valid[b])
}

/// The ring left after closing the concavity between vertices `i` and `j`: the vertices strictly
/// between them (walking forward from `i`, wrapping around) are removed.
pub open spec fn closed_ring<P>(points: Seq<P>, i: nat, j: nat) -> Seq<P> {
    if i < j {
        points.subrange(0, (i + 1) as int) + points.subrange(j as int, points.len() as int)
    } else {
        points.subrange(j as int, (i + 1) as int)
    }
}

/// `i` and `j` are distinct, non-adjacent vertices of a ring of `n` vertices.
pub open spec fn non_adjacent(i: nat, j: nat, n: nat) -> bool {
    &&& i < n
    &&& j < n
    &&& i != j
    &&& (i + 1) % n != j
    &&& (j + 1) % n != i
}

/// Closes the concavity between the non-adjacent vertices `i` and `j` of the ring `points` by
/// dropping the vertices strictly between them, so that `i` and `j` become neighbours.
pub fn close_concavity<P: Copy>(points: &[P], i: usize, j: usize) -> (out: Vec<P>)
    requires
        non_adjacent(i as nat, j as nat, points@.len()),
    ensures
        out@ == closed_ring(points@, i as nat, j as nat),
        out@.len() + vertices_between(i as nat, j as nat, points@.len()) == points@.len(),
{
    let n = points.len();
    proof {
        if i + 1 < n {
            vstd::arithmetic::div_mod::lemma_small_mod((i + 1) as nat, n as nat);
        } else {
            vstd::arithmetic::div_mod::lemma_mod_self_0(n as int);
        }
        if j + 1 < n {
            vstd::arithmetic::div_mod::lemma_small_mod((j + 1) as nat, n as nat);
        } else {
            vstd::arithmetic::div_mod::lemma_mod_self_0(n as int);
        }
    }
    let mut out: Vec<P> = Vec::new();
    if i < j {
        // keep 0..=i, then j..n
        let mut k: usize = 0;
        while k <= i
            invariant
                i < j < n,
                n == points@.len(),
                k <= i + 1,
                out@ == points@.subrange(0, k as int),
            decreases i + 1 - k,
        {
            out.push(points[k]);
            k = k + 1;
            assert(out@ =~= points@.subrange(0, k as int));
        }
        let ghost head = out@;
        let mut k: usize = j;
        while k < n
            invariant
                i < j < n,
                n == points@.len(),
                j <= k <= n,
                head == points@.subrange(0, i + 1),
                out@ == head + points@.subrange(j as int, k as int),
            decreases n - k,
        {
            out.push(points[k]);
            k = k + 1;
            assert(out@ =~= head + points@.subrange(j as int, k as int));
        }
    } else {
        // keep j..=i
        let mut k: usize = j;
        while k <= i
            invariant
                j < i < n,
                n == points@.len(),
                j <= k <= i + 1,
                out@ == points@.subrange(j as int, k as int),
            decreases i + 1 - k,
        {
            out.push(points[k]);
            k = k + 1;
            assert(out@ =~= points@.subrange(j as int, k as int));
        }
    }
    out
}

/// The elements of `points` whose flag is `false`, in order.
pub open spec fn unflagged<P>(points: Seq<P>, flags: Seq<bool>) -> Seq<P>
    decreases points.len(),
{
    if points.len() == 0 {
        Seq::empty()
    } else {
        let rest = unflagged(points.drop_last(), flags.drop_last());
        if flags.last() {
            rest
        } else {
            rest.push(points.last())
        }
    }
}

/// Removes, in place, every vertex that duplicates its successor on the ring: `same_as_next[i]`
/// tells whether vertex `i` coincides (within tolerance) with vertex `(i + 1) mod n`. Flagged
/// vertices are removed from the back, so earlier indices stay valid.
pub fn eliminate_degenerate_vertices<P>(points: &mut Vec<P>, same_as_next: &[bool])
    requires
        same_as_next@.len() == old(points)@.len(),
    ensures
        final(points)@ == unflagged(old(points)@, same_as_next@),
{
    let ghost orig = points@;
    let n = points.len();
    let mut i: usize = n;
    while i > 0
        invariant
            i <= n,
            n == orig.len(),
            same_as_next@.len() == n,
            points@ == orig.subrange(0, i as int) + unflagged_suffix(orig, same_as_next@, i as nat),
        decreases i,
    {
        i = i - 1;
        proof {
            lemma_unflagged_suffix_step(orig, same_as_next@, i as nat);
        }
        if same_as_next[i] {
            let ghost before = points@;
            points.remove(i);
            assert(points@ =~= orig.subrange(0, i as int) + unflagged_suffix(orig, same_as_next@, i as nat));
        } else {
            assert(points@ =~= orig.subrange(0, i as int) + unflagged_suffix(orig, same_as_next@, i as nat));
        }
    }
    proof {
        lemma_unflagged_suffix_whole(orig, same_as_next@);
    }
    assert(points@ =~= unflagged(orig, same_as_next@));
}

/// The unflagged elements among positions `i..` of `points`.
pub open spec fn unflagged_suffix<P>(points: Seq<P>, flags: Seq<bool>, i: nat) -> Seq<P>
    decreases points.len() - i,
{
    if i >= points.len() {
        Seq::empty()
    } else {
        let rest = unflagged_suffix(points, flags, i + 1);
        if flags[i as int] {
            rest
        } else {
            seq![points[i as int]] + rest
        }
    }
}

proof fn lemma_unflagged_suffix_step<P>(points: Seq<P>, flags: Seq<bool>, i: nat)
    requires
        i < points.len(),
    ensures
        unflagged_suffix(points, flags, i) == if flags[i as int] {
            unflagged_suffix(points, flags, i + 1)
        } else {
            seq![points[i as int]] + unflagged_suffix(points, flags, i + 1)
        },
{
}

proof fn lemma_unflagged_prefix_split<P>(points: Seq<P>, flags: Seq<bool>, k: nat)
    requires
        k <= points.len(),
        flags.len() == points.len(),
    ensures
        unflagged(points, flags) == unflagged(points.subrange(0, k as int), flags.subrange(0, k as int))
            + unflagged_suffix(points, flags, k),
    decreases points.len() - k,
{
    if k < points.len() {
        lemma_unflagged_prefix_split(points, flags, k + 1);
        let p1 = points.subrange(0, (k + 1) as int);
        let f1 = flags.subrange(0, (k + 1) as int);
        assert(p1.drop_last() =~= points.subrange(0, k as int));
        assert(f1.drop_last() =~= flags.subrange(0, k as int));
        assert(unflagged(p1, f1) == {
            let rest = unflagged(p1.drop_last(), f1.drop_last());
            if f1.last() {
                rest
            } else {
                rest.push(p1.last())
            }
        });
        if flags[k as int] {
        } else {
            assert(unflagged(points.subrange(0, k as int), flags.subrange(0, k as int)).push(points[k as int])
                + unflagged_suffix(points, flags, k + 1)
                =~= unflagged(points.subrange(0, k as int), flags.subrange(0, k as int))
                + (seq![points[k as int]] + unflagged_suffix(points, flags, k + 1)));
        }
    } else {
        assert(points.subrange(0, k as int) =~= points);
        assert(flags.subrange(0, k as int) =~= flags);
        assert(unflagged(points, flags) + Seq::<P>::empty() =~= unflagged(points, flags));
    }
}

proof fn lemma_unflagged_suffix_whole<P>(points: Seq<P>, flags: Seq<bool>)
    requires
        flags.len() == points.len(),
    ensures
        unflagged_suffix(points, flags, 0) == unflagged(points, flags),
{
    lemma_unflagged_prefix_split(points, flags, 0);
    let p0 = points.subrange(0, 0);
    let f0 = flags.subrange(0, 0);
    assert(p0.len() == 0);
    assert(unflagged(p0, f0) == Seq::<P>::empty());
    assert(Seq::<P>::empty() + unflagged_suffix(points, flags, 0) =~= unflagged_suffix(points, flags, 0));
}

} // verus!
