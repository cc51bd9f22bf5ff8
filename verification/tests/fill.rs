use ironnest::fill::DemandFill;
use ironnest::search::split_budget;

#[test]
fn demand_fill_abandons_a_type_after_a_failure() {
    let mut f = DemandFill::new(vec![1, 0], vec![1, 2], vec![0, 0]);
    assert_eq!(f.next_request(), Some(1));
    f.report(true);
    assert_eq!(f.placed_per_type(), &vec![0, 1]);
    assert_eq!(f.next_request(), Some(1));
    f.report(false); // one more copy of type 1 does not fit: move on
    assert_eq!(f.next_request(), Some(0));
    f.report(true);
    assert_eq!(f.next_request(), None);
    assert_eq!(f.into_placed(), vec![1, 1]);
}

#[test]
fn demand_fill_skips_types_already_satisfied() {
    let mut f = DemandFill::new(vec![0, 1, 2], vec![1, 3, 0], vec![1, 1, 0]);
    assert_eq!(f.next_request(), Some(1));
    f.report(true);
    assert_eq!(f.next_request(), Some(1));
    f.report(true);
    assert_eq!(f.next_request(), None);
    assert_eq!(f.into_placed(), vec![1, 3, 0]);
}

#[test]
fn demand_fill_with_empty_order_requests_nothing() {
    let mut f = DemandFill::new(vec![], vec![4], vec![0]);
    assert_eq!(f.next_request(), None);
    assert_eq!(f.into_placed(), vec![0]);
}

#[test]
fn split_budget_reserves_two_tenths_for_refinement() {
    assert_eq!(split_budget(2000), (1600, 400));
    assert_eq!(split_budget(7), (6, 1));
    assert_eq!(split_budget(4), (4, 0));
    assert_eq!(split_budget(0), (0, 0));
}

#[test]
fn a_pass_makes_at_most_order_length_plus_demand_attempts() {
    // Succeed on every second attempt: the pass still ends within 3 + (2 + 1 + 3) attempts.
    let mut fill = DemandFill::new(vec![2, 0, 1], vec![2, 1, 3], vec![0, 0, 0]);
    let mut attempts = 0;
    while let Some(_k) = fill.next_request() {
        attempts += 1;
        fill.report(attempts % 2 == 0);
        assert!(attempts <= 9);
    }
    assert_eq!(attempts, 4);
    assert_eq!(fill.into_placed(), vec![1, 1, 0]);
}
