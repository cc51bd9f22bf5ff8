use ironnest::bpp::{import_instance, solution_cost, BPInstance, Bin, ImportError, ImportedItem, Instance};

fn item(id: usize, demand: u64) -> ImportedItem<&'static str> {
    ImportedItem {
        id,
        item: ["a", "b", "c", "d"][id % 4],
        demand,
    }
}

fn bin(id: usize, stock: usize) -> Bin<u32> {
    Bin {
        id,
        container: 100 + id as u32,
        stock,
        cost: 7,
    }
}

#[test]
fn import_arranges_by_id_and_drops_zero_demand() {
    let inst = import_instance(
        vec![item(1, 3), item(2, 0), item(0, 5)],
        vec![bin(0, 2), bin(1, 0)],
    )
    .expect("valid instance");
    assert_eq!(inst.items.len(), 2);
    assert_eq!(inst.items[0], ("a", 5));
    assert_eq!(inst.items[1], ("b", 3));
    assert_eq!(inst.bins.len(), 1);
    assert_eq!(inst.bins[0].container, 100);
    assert_eq!(*inst.item(1), "b");
    assert_eq!(*inst.container(0), 100);
    assert_eq!(inst.items(), vec![&"a", &"b"]);
    assert_eq!(inst.containers(), vec![&100]);
}

#[test]
fn import_rejects_a_gap_in_item_ids() {
    let r = import_instance(vec![item(0, 1), item(2, 1)], vec![bin(0, 1)]);
    assert_eq!(r.err(), Some(ImportError::NonConsecutiveItemIds));
}

#[test]
fn import_rejects_duplicate_item_ids() {
    let r = import_instance(vec![item(0, 1), item(0, 2)], vec![bin(0, 1)]);
    assert_eq!(r.err(), Some(ImportError::NonConsecutiveItemIds));
}

#[test]
fn import_rejects_no_positive_demand() {
    let r = import_instance(vec![item(0, 0)], vec![bin(0, 1)]);
    assert_eq!(r.err(), Some(ImportError::NoItems));
    let r = import_instance(Vec::<ImportedItem<&str>>::new(), vec![bin(0, 1)]);
    assert_eq!(r.err(), Some(ImportError::NoItems));
}

#[test]
fn import_rejects_bad_bins() {
    let r = import_instance(vec![item(0, 1)], vec![bin(1, 1)]);
    assert_eq!(r.err(), Some(ImportError::NonConsecutiveBinIds));
    let r = import_instance(vec![item(0, 1)], vec![bin(0, 0)]);
    assert_eq!(r.err(), Some(ImportError::NoBins));
}

#[test]
fn item_ids_are_checked_before_bins() {
    let r = import_instance(vec![item(1, 1)], vec![bin(5, 1)]);
    assert_eq!(r.err(), Some(ImportError::NonConsecutiveItemIds));
}

#[test]
fn zero_demand_items_may_have_any_id() {
    let inst = import_instance(vec![item(9, 0), item(0, 2)], vec![bin(0, 1)]).expect("valid");
    assert_eq!(inst.items, vec![("a", 2)]);
}

#[test]
fn solution_cost_sums_used_bins() {
    let inst: BPInstance<&str, u32> = BPInstance {
        items: vec![("a", 1)],
        bins: vec![
            Bin { id: 0, container: 1, stock: 2, cost: 5 },
            Bin { id: 1, container: 2, stock: 1, cost: 11 },
        ],
    };
    assert_eq!(solution_cost(&[0, 1, 0], &inst), 21);
    assert_eq!(solution_cost(&[], &inst), 0);
}
