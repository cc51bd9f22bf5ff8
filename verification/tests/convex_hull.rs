use ironnest::convex_hull::{convex_hull_from_surrogate, convex_hull_indices, NoSurrogate};

fn key(x: f64, y: f64) -> (u64, u64) {
    (x.to_bits(), y.to_bits())
}

#[test]
fn convex_hull_from_cached_indices() {
    let vertices = [(0.0, 0.0), (2.0, 0.0), (1.0, 0.5), (2.0, 2.0), (0.0, 2.0)];
    let ix = vec![0, 1, 3, 4];
    assert_eq!(
        convex_hull_from_surrogate(&vertices, Some(&ix)),
        Ok(vec![(0.0, 0.0), (2.0, 0.0), (2.0, 2.0), (0.0, 2.0)])
    );
}

#[test]
fn convex_hull_without_surrogate_is_an_error() {
    let vertices = [1, 2, 3];
    assert_eq!(
        convex_hull_from_surrogate(&vertices, None),
        Err(NoSurrogate::Missing)
    );
}

#[test]
fn hull_indices_point_at_the_first_equal_vertex() {
    let vertices = [
        key(0.0, 0.0),
        key(2.0, 0.0),
        key(1.0, 0.5),
        key(2.0, 2.0),
        key(0.0, 2.0),
        key(2.0, 0.0),
    ];
    let hull = [key(0.0, 0.0), key(2.0, 0.0), key(2.0, 2.0), key(0.0, 2.0)];
    assert_eq!(convex_hull_indices(&vertices, &hull), vec![0, 1, 3, 4]);
}

#[test]
fn hull_indices_of_an_empty_hull_are_empty() {
    let vertices = [key(1.0, 1.0)];
    assert_eq!(convex_hull_indices(&vertices, &[]), Vec::<usize>::new());
}

#[test]
fn hull_indices_follow_hull_order() {
    let vertices = [key(0.0, 0.0), key(3.0, 0.0), key(3.0, 3.0)];
    let hull = [key(3.0, 3.0), key(0.0, 0.0), key(3.0, 0.0)];
    assert_eq!(convex_hull_indices(&vertices, &hull), vec![2, 0, 1]);
}
