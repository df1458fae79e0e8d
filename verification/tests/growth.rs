use vectordb::storage::growth::{
    binomial, saturating_geometric, GrowthScheme, HorizontalLeveling, HorizontalTiering, Vertical,
};
use vectordb::storage::shape::TreeShape;

#[test]
fn binomial_matches_known_values() {
    assert_eq!(binomial(5, 0), 1);
    assert_eq!(binomial(5, 5), 1);
    assert_eq!(binomial(5, 2), 10);
    assert_eq!(binomial(10, 3), 120);
    assert_eq!(binomial(52, 5), 2_598_960);
    assert_eq!(binomial(3, 7), 0, "k > n has no combinations");
}

#[test]
fn binomial_handles_large_inputs_without_overflowing() {
    assert_eq!(binomial(60, 30), 118_264_581_564_861_424);
    assert_eq!(
        binomial(100, 50),
        u64::MAX,
        "saturates rather than wrapping"
    );
}

#[test]
fn geometric_growth_saturates_rather_than_wrapping() {
    assert_eq!(saturating_geometric(4, 10, 0), 4);
    assert_eq!(saturating_geometric(4, 10, 3), 4000);
    assert_eq!(saturating_geometric(1024, 10, 64), u64::MAX);
}

#[test]
fn every_scheme_satisfies_the_trait() {
    offers_nothing_for_an_empty_tree(Vertical::new(1024, 10));
    offers_nothing_for_an_empty_tree(HorizontalLeveling::new(4));
    offers_nothing_for_an_empty_tree(HorizontalTiering::new(4, 1024, 1024 * 1024));
}

fn offers_nothing_for_an_empty_tree<S: GrowthScheme>(mut scheme: S) {
    assert!(!scheme.name().is_empty());
    scheme.note_flush();
    assert_eq!(scheme.next_compaction(&TreeShape::default()), None);
}
