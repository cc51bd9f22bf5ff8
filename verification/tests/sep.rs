use ironnest::geo_enums::{GeoPosition, GeoRelation};
use ironnest::prng::Prng;
use ironnest::sep::{sep_config, CDAxis, SampleConfig, SEED_SAMPLES};

#[test]
fn cd_axis_pick_follows_below_four() {
    let mut a = Prng::seed_from_u64(9);
    let mut b = Prng::seed_from_u64(9);
    for _ in 0..20 {
        let expected = match b.below(4) {
            0 => CDAxis::Horizontal,
            1 => CDAxis::Vertical,
            2 => CDAxis::ForwardDiag,
            _ => CDAxis::BackwardDiag,
        };
        assert_eq!(CDAxis::pick(&mut a), expected);
    }
}

#[test]
fn cd_axis_reference_picks() {
    // below(4) from seed 9 draws 2, 3, 0, 1
    let mut p = Prng::seed_from_u64(9);
    assert_eq!(CDAxis::pick(&mut p), CDAxis::ForwardDiag);
    assert_eq!(CDAxis::pick(&mut p), CDAxis::BackwardDiag);
    assert_eq!(CDAxis::pick(&mut p), CDAxis::Horizontal);
    assert_eq!(CDAxis::pick(&mut p), CDAxis::Vertical);
}

#[test]
fn separation_budget_is_fixed() {
    let cfg = sep_config();
    assert_eq!(
        cfg.sample,
        SampleConfig {
            n_container_samples: 80,
            n_focussed_samples: 40,
            n_coord_descents: 3
        }
    );
    assert_eq!(cfg.iter_no_imprv_limit, 150);
    assert_eq!(cfg.strike_limit, 4);
    assert_eq!(SEED_SAMPLES, 400);
}

#[test]
fn geo_enums_compare() {
    assert_ne!(GeoPosition::Exterior, GeoPosition::Interior);
    assert_eq!(GeoRelation::Disjoint, GeoRelation::Disjoint);
    assert_ne!(GeoRelation::Enclosed, GeoRelation::Surrounding);
}
