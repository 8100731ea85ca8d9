use democracy_index::RegimeType;
use std::cmp::Ordering;

#[test]
fn test_sort_regime_types() {
    let list = &mut [
        RegimeType::HybridRegime,
        RegimeType::FlawedDemocracy,
        RegimeType::Authoritarian,
        RegimeType::FullDemocracy,
    ];
    list.sort();
    assert_eq!(
        list,
        &[
            RegimeType::Authoritarian,
            RegimeType::HybridRegime,
            RegimeType::FlawedDemocracy,
            RegimeType::FullDemocracy,
        ]
    );
    assert!(RegimeType::FullDemocracy > RegimeType::Authoritarian);
}

#[test]
fn regime_order_is_the_scale() {
    assert!(RegimeType::Authoritarian < RegimeType::HybridRegime);
    assert!(RegimeType::HybridRegime < RegimeType::FlawedDemocracy);
    assert!(RegimeType::FlawedDemocracy < RegimeType::FullDemocracy);
    assert_eq!(
        RegimeType::FullDemocracy.partial_cmp(&RegimeType::HybridRegime),
        Some(Ordering::Greater)
    );
    assert_eq!(
        RegimeType::HybridRegime.partial_cmp(&RegimeType::HybridRegime),
        Some(Ordering::Equal)
    );
    assert_eq!(RegimeType::Authoritarian.rank(), 0);
    assert_eq!(RegimeType::FullDemocracy.rank(), 3);
}

#[test]
fn sorting_a_subset_keeps_the_scale() {
    let mut list = vec![
        RegimeType::FullDemocracy,
        RegimeType::Authoritarian,
        RegimeType::FullDemocracy,
        RegimeType::FlawedDemocracy,
    ];
    list.sort();
    assert_eq!(
        list,
        vec![
            RegimeType::Authoritarian,
            RegimeType::FlawedDemocracy,
            RegimeType::FullDemocracy,
            RegimeType::FullDemocracy,
        ]
    );
    let mut by_partial = vec![RegimeType::FlawedDemocracy, RegimeType::HybridRegime];
    by_partial.sort_by(|a, b| a.partial_cmp(b).unwrap());
    assert_eq!(by_partial, vec![RegimeType::HybridRegime, RegimeType::FlawedDemocracy]);
}

#[test]
fn regime_labels() {
    assert_eq!(RegimeType::Authoritarian.as_str(), "Authoritarian regime");
    assert_eq!(RegimeType::HybridRegime.as_str(), "Hybrid regime");
    assert_eq!(RegimeType::FlawedDemocracy.as_str(), "Flawed democracy");
    assert_eq!(RegimeType::FullDemocracy.as_str(), "Full democracy");
}
