//! The distributed Conversion Day decision, over gathered snapshots.

use habi_core::conversion_day_coordinator::{
    check_post_conversion_day_safety, compute_conversion_day, PeerSnapshot,
};
use habi_core::names::NameSet;

fn set(items: &[&str]) -> NameSet {
    NameSet::from_strs(items)
}

#[test]
fn no_conflict_returns_the_globally_spent_set() {
    let snapshots = vec![
        PeerSnapshot { node_id: "N1".into(), ledger: set(&["b2"]), spent: set(&["b1"]) },
        PeerSnapshot { node_id: "N2".into(), ledger: set(&["b2"]), spent: set(&[]) },
        PeerSnapshot { node_id: "N3".into(), ledger: set(&[]), spent: set(&[]) },
    ];
    let result = compute_conversion_day(&snapshots).unwrap();
    assert_eq!(result, set(&["b1"]));
}

#[test]
fn genuine_double_spend_is_detected_as_a_conflict() {
    let snapshots = vec![
        PeerSnapshot { node_id: "N1".into(), ledger: set(&["b2"]), spent: set(&["b1"]) },
        PeerSnapshot { node_id: "N2".into(), ledger: set(&["b2"]), spent: set(&["b1"]) },
    ];
    let err = compute_conversion_day(&snapshots).unwrap_err();
    assert_eq!(err.violations, vec![("b1".to_string(), vec!["N1".to_string(), "N2".to_string()])]);
}

#[test]
fn post_conversion_day_safety_holds_after_correct_burn() {
    let snapshots = vec![
        PeerSnapshot { node_id: "N1".into(), ledger: set(&[]), spent: set(&["b1"]) },
        PeerSnapshot { node_id: "N2".into(), ledger: set(&[]), spent: set(&[]) },
    ];
    assert!(check_post_conversion_day_safety(&snapshots));
}

#[test]
fn post_conversion_day_safety_fails_if_burn_was_incomplete() {
    let snapshots = vec![
        PeerSnapshot { node_id: "N1".into(), ledger: set(&[]), spent: set(&["b1"]) },
        PeerSnapshot { node_id: "N2".into(), ledger: set(&["b1"]), spent: set(&[]) },
    ];
    assert!(!check_post_conversion_day_safety(&snapshots));
}
