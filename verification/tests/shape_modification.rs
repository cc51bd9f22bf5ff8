use ironnest::shape_modification::{
    calc_vert_elim, close_concavity, eliminate_degenerate_vertices, execute_candidate,
    removal_candidates, ring_corners, select_concavity, Candidate, Corner, CornerType, ShapeModifyMode,
};

#[test]
fn corner_flip_swaps_ends() {
    let mut c = Corner(4, 0, 1);
    c.flip();
    assert_eq!(c, Corner(1, 0, 4));
    c.flip();
    assert_eq!(c, Corner(4, 0, 1));
}

#[test]
fn corner_to_points_picks_the_three_vertices() {
    let pts = [(0.0, 0.0), (1.0, 0.0), (1.0, 1.0), (0.0, 1.0)];
    assert_eq!(
        Corner(3, 0, 1).to_points(&pts),
        [(0.0, 1.0), (0.0, 0.0), (1.0, 0.0)]
    );
}

#[test]
fn ring_corners_inflate_wraps_around() {
    assert_eq!(
        ring_corners(4, ShapeModifyMode::Inflate),
        vec![Corner(3, 0, 1), Corner(0, 1, 2), Corner(1, 2, 3), Corner(2, 3, 0)]
    );
}

#[test]
fn ring_corners_deflate_is_reversed_and_flipped() {
    assert_eq!(
        ring_corners(4, ShapeModifyMode::Deflate),
        vec![Corner(0, 3, 2), Corner(3, 2, 1), Corner(2, 1, 0), Corner(1, 0, 3)]
    );
}

#[test]
fn removal_candidates_from_corner_types() {
    let corners = ring_corners(4, ShapeModifyMode::Inflate);
    let types = [
        CornerType::Convex,
        CornerType::Concave,
        CornerType::Convex,
        CornerType::Convex,
    ];
    // corner 0 is convex after convex corner 3 (cyclic); corner 1 concave; corner 2 convex after a
    // concave one (nothing); corner 3 convex after convex corner 2.
    assert_eq!(
        removal_candidates(&corners, &types),
        vec![
            Candidate::ConvexConvex(Corner(2, 3, 0), Corner(3, 0, 1)),
            Candidate::Concave(Corner(0, 1, 2)),
            Candidate::ConvexConvex(Corner(1, 2, 3), Corner(2, 3, 0)),
        ]
    );
    let collinear = [CornerType::Collinear; 4];
    assert_eq!(removal_candidates(&corners, &collinear).len(), 4);
}

#[test]
fn execute_concave_candidate_removes_its_vertex() {
    let shape = ['a', 'b', 'c', 'd', 'e'];
    let out = execute_candidate(&shape, &Candidate::Concave(Corner(1, 2, 3)), None);
    assert_eq!(out, vec!['a', 'b', 'd', 'e']);
    let out = execute_candidate(&shape, &Candidate::Collinear(Corner(3, 4, 0)), None);
    assert_eq!(out, vec!['a', 'b', 'c', 'd']);
}

#[test]
fn execute_convex_convex_candidate_replaces_two_vertices() {
    let shape = ['a', 'b', 'c', 'd', 'e'];
    // corners (0,1,2) and (1,2,3): vertex 1 removed, vertex 2 replaced by 'X'
    let out = execute_candidate(
        &shape,
        &Candidate::ConvexConvex(Corner(0, 1, 2), Corner(1, 2, 3)),
        Some('X'),
    );
    assert_eq!(out, vec!['a', 'X', 'd', 'e']);
    // wrapping corners (3,4,0) and (4,0,1): vertex 4 removed, vertex 0 replaced
    let out = execute_candidate(
        &shape,
        &Candidate::ConvexConvex(Corner(3, 4, 0), Corner(4, 0, 1)),
        Some('Y'),
    );
    assert_eq!(out, vec!['Y', 'b', 'c', 'd']);
}

#[test]
fn calc_vert_elim_counts_between() {
    assert_eq!(calc_vert_elim(1, 4, 6), 2);
    assert_eq!(calc_vert_elim(4, 1, 6), 2);
    assert_eq!(calc_vert_elim(5, 2, 6), 2);
}

#[test]
fn close_concavity_drops_the_vertices_between() {
    let pts = [0, 1, 2, 3, 4, 5];
    assert_eq!(close_concavity(&pts, 1, 4), vec![0, 1, 4, 5]);
    // wrapping: from 4 forward to 1 eliminates 5 and 0
    assert_eq!(close_concavity(&pts, 4, 1), vec![1, 2, 3, 4]);
    assert_eq!(close_concavity(&pts, 5, 2), vec![2, 3, 4, 5]);
    assert_eq!(close_concavity(&pts, 0, 3).len(), 6 - calc_vert_elim(0, 3, 6));
}

#[test]
fn eliminate_degenerate_vertices_removes_flagged() {
    let mut pts = vec![10, 11, 11, 12, 10];
    // vertex 1 == vertex 2, vertex 4 == vertex 0 (wrap)
    eliminate_degenerate_vertices(&mut pts, &[false, true, false, false, true]);
    assert_eq!(pts, vec![10, 11, 12]);
    let mut none: Vec<i32> = vec![1, 2, 3];
    eliminate_degenerate_vertices(&mut none, &[false, false, false]);
    assert_eq!(none, vec![1, 2, 3]);
}

#[test]
fn select_concavity_prefers_most_eliminated_then_earliest() {
    // ring of 8: (0,3) eliminates 2, (1,5) eliminates 3, (2,6) eliminates 3, (6,1) eliminates 2
    assert_eq!(
        select_concavity(&[(0, 3), (1, 5), (2, 6), (6, 1)], 8),
        Some((1, 5))
    );
    assert_eq!(select_concavity(&[], 8), None);
    // wrapping pair (7, 4) eliminates 0, 1, 2, 3
    assert_eq!(select_concavity(&[(0, 3), (7, 4)], 8), Some((7, 4)));
}
