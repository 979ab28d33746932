use gbfr_build_calculator::model::{
    SearchResult, Sigil, Trait, TraitKind, TraitSet, Wrightstone,
};

fn t(kind: TraitKind, level: u8) -> Trait {
    Trait::new(kind, level)
}

#[test]
fn trait_new_keeps_fields() {
    let tr = Trait::new(TraitKind::Aegis, 15);
    assert_eq!(tr.kind, TraitKind::Aegis);
    assert_eq!(tr.level, 15);
}

#[test]
fn sigil_new_single_has_no_second_grant() {
    let s = Sigil::new_single(t(TraitKind::Aegis, 15));
    assert_eq!(s.trait1, t(TraitKind::Aegis, 15));
    assert!(s.trait2.is_none());
}

#[test]
fn empty_set_has_level_zero_everywhere() {
    let set = TraitSet::new();
    assert_eq!(set.level(TraitKind::DMGCap), 0);
    assert!(!set.contains(TraitKind::DMGCap));
    assert_eq!(set.iter().len(), 0);
}

#[test]
fn add_inserts_and_accumulates() {
    let mut set = TraitSet::new();
    set.add(t(TraitKind::DMGCap, 5));
    assert_eq!(set.level(TraitKind::DMGCap), 5);
    assert!(set.contains(TraitKind::DMGCap));
    set.add(t(TraitKind::DMGCap, 7));
    assert_eq!(set.level(TraitKind::DMGCap), 12);
    set.add(t(TraitKind::HP, 3));
    assert_eq!(set.level(TraitKind::HP), 3);
    assert_eq!(set.level(TraitKind::DMGCap), 12);
    assert_eq!(set.iter().len(), 2);
}

#[test]
fn aggregation_order_is_irrelevant() {
    let grants = vec![
        t(TraitKind::DMGCap, 5),
        t(TraitKind::HP, 3),
        t(TraitKind::DMGCap, 2),
        t(TraitKind::Uplift, 1),
    ];
    let mut reversed = grants.clone();
    reversed.reverse();
    let a = TraitSet::from_traits(&grants);
    let b = TraitSet::from_traits(&reversed);
    for kind in [TraitKind::DMGCap, TraitKind::HP, TraitKind::Uplift, TraitKind::ATK] {
        assert_eq!(a.level(kind), b.level(kind));
    }
    assert_eq!(a.level(TraitKind::DMGCap), 7);
    assert_eq!(a.level(TraitKind::HP), 3);
    assert_eq!(a.level(TraitKind::Uplift), 1);
    assert_eq!(a.level(TraitKind::ATK), 0);
}

#[test]
fn superset_compares_levels() {
    let mut have = TraitSet::new();
    have.add(t(TraitKind::DMGCap, 10));
    have.add(t(TraitKind::HP, 6));
    let mut want = TraitSet::new();
    want.add(t(TraitKind::DMGCap, 10));
    assert!(have.is_superset_of(&want));
    want.add(t(TraitKind::HP, 7));
    assert!(!have.is_superset_of(&want));
}

#[test]
fn superset_is_vacuous_on_empty_requirements() {
    let have = TraitSet::new();
    let want = TraitSet::new();
    assert!(have.is_superset_of(&want));
}

#[test]
fn superset_treats_absent_kinds_as_level_zero() {
    let have = TraitSet::new();
    let mut want = TraitSet::new();
    want.add(t(TraitKind::DMGCap, 0));
    assert!(have.is_superset_of(&want));
    let mut want_more = TraitSet::new();
    want_more.add(t(TraitKind::DMGCap, 1));
    assert!(!have.is_superset_of(&want_more));
}

#[test]
fn result_trait_level_sums_every_grant() {
    let result = SearchResult {
        sigils: vec![
            Sigil { trait1: t(TraitKind::DMGCap, 5), trait2: Some(t(TraitKind::HP, 2)) },
            Sigil { trait1: t(TraitKind::HP, 4), trait2: Some(t(TraitKind::DMGCap, 1)) },
        ],
        wrightstone: Some(Wrightstone {
            trait1: t(TraitKind::DMGCap, 3),
            trait2: Some(t(TraitKind::Uplift, 1)),
            trait3: None,
        }),
    };
    assert_eq!(result.trait_level(TraitKind::DMGCap), 9);
    assert_eq!(result.trait_level(TraitKind::HP), 6);
    assert_eq!(result.trait_level(TraitKind::Uplift), 1);
    assert_eq!(result.trait_level(TraitKind::ATK), 0);
}

#[test]
fn result_traits_aggregates_like_trait_level() {
    let result = SearchResult {
        sigils: vec![
            Sigil { trait1: t(TraitKind::DMGCap, 5), trait2: None },
            Sigil { trait1: t(TraitKind::DMGCap, 5), trait2: Some(t(TraitKind::HP, 2)) },
        ],
        wrightstone: None,
    };
    let set = result.traits();
    assert_eq!(set.level(TraitKind::DMGCap), 10);
    assert_eq!(set.level(TraitKind::HP), 2);
    assert!(!set.contains(TraitKind::ATK));
}

#[test]
fn total_trait_level_sums_over_all_kinds() {
    let result = SearchResult {
        sigils: vec![
            Sigil { trait1: t(TraitKind::DMGCap, 5), trait2: Some(t(TraitKind::HP, 2)) },
        ],
        wrightstone: Some(Wrightstone {
            trait1: t(TraitKind::Uplift, 3),
            trait2: None,
            trait3: Some(t(TraitKind::ATK, 4)),
        }),
    };
    assert_eq!(result.total_trait_level(), 5 + 2 + 3 + 4);
}
