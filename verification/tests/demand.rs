use ironnest::demand::{all_unplaced, consume_placed, demand_met, unplaced_instances};

#[test]
fn all_unplaced_lists_each_type_qty_times() {
    assert_eq!(all_unplaced(&[2, 0, 3]), vec![0, 0, 2, 2, 2]);
    assert!(all_unplaced(&[]).is_empty());
    assert!(all_unplaced(&[0, 0]).is_empty());
}

#[test]
fn unplaced_instances_reports_the_shortfall() {
    assert_eq!(unplaced_instances(&[4], &[1]), vec![0, 0, 0]);
    assert_eq!(unplaced_instances(&[16], &[16]), Vec::<usize>::new());
    assert_eq!(unplaced_instances(&[2, 3, 1], &[0, 1, 1]), vec![0, 0, 1, 1]);
    // never negative when more were placed than requested
    assert_eq!(unplaced_instances(&[1, 2], &[3, 0]), vec![1, 1]);
}

#[test]
fn empty_demand_reports_nothing() {
    assert!(unplaced_instances(&[0], &[0]).is_empty());
}

#[test]
fn multi_sheet_spill_consumes_placements() {
    // Two item types, demand [3, 2]; sheet 1 places types 0, 1, 0; sheet 2 places type 1.
    let mut remaining = vec![3, 2];
    consume_placed(&mut remaining, &[0, 1, 0]);
    assert_eq!(remaining, vec![1, 1]);
    assert!(!demand_met(&remaining));
    consume_placed(&mut remaining, &[1]);
    assert_eq!(remaining, vec![1, 0]);
    assert_eq!(all_unplaced(&remaining), vec![0]);
    consume_placed(&mut remaining, &[0]);
    assert!(demand_met(&remaining));
    assert!(all_unplaced(&remaining).is_empty());
}

#[test]
fn demand_met_on_no_types() {
    assert!(demand_met(&[]));
}
