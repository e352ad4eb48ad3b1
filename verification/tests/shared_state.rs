//! One node's local state and its pure merge, propagate and spend steps.

use habi_core::names::NameSet;
use habi_core::shared_state::NodeShared;

fn set(items: &[&str]) -> NameSet {
    NameSet::from_strs(items)
}

#[test]
fn link_up_merge_matches_network_rs_semantics() {
    let mut n1 = NodeShared::new("N1");
    n1.node.ledger.insert("b1".to_string());

    let peer_ledger = set(&["b2"]);
    let peer_spent = set(&[]);
    let merged = n1.compute_link_up_merge(&peer_ledger, &peer_spent);
    assert_eq!(merged, set(&["b1", "b2"]));

    n1.apply_link_up("N2", merged);
    assert_eq!(n1.node.ledger, set(&["b1", "b2"]));
    assert!(n1.is_linked("N2"));
}

#[test]
fn link_up_merge_excludes_bearers_either_side_already_spent() {
    let mut n1 = NodeShared::new("N1");
    n1.node.ledger.insert("b1".to_string());
    n1.node.spent.insert("b1".to_string());

    let peer_ledger = set(&["b1", "b2"]);
    let peer_spent = set(&[]);
    let merged = n1.compute_link_up_merge(&peer_ledger, &peer_spent);

    assert_eq!(merged, set(&["b2"]), "b1 must be burned, not merged back in");
}

#[test]
fn link_up_merge_never_writes_to_spent() {
    let mut n1 = NodeShared::new("N1");
    n1.node.ledger.insert("b1".to_string());
    let before_spent = n1.node.spent.clone();

    let merged = n1.compute_link_up_merge(&set(&["b2"]), &set(&["b2"]));
    n1.apply_link_up("N2", merged);

    assert_eq!(n1.node.spent, before_spent, "spent must only grow via local_spend");
}

#[test]
fn propagate_deliverable_excludes_own_spent_and_own_ledger() {
    let mut n1 = NodeShared::new("N1");
    n1.node.spent.insert("b1".to_string());
    n1.node.ledger.insert("b3".to_string());

    let peer_ledger = set(&["b1", "b2", "b3"]);
    let deliverable = n1.compute_propagate_deliverable(&peer_ledger);

    assert_eq!(deliverable, set(&["b2"]));
}

#[test]
fn apply_propagate_deliverable_extends_ledger() {
    let mut n1 = NodeShared::new("N1");
    n1.apply_propagate_deliverable(set(&["b1", "b2"]));
    assert_eq!(n1.node.ledger, set(&["b1", "b2"]));
}

#[test]
fn local_spend_rejects_bearer_not_held() {
    let mut n1 = NodeShared::new("N1");
    let result = n1.local_spend("b1");
    assert!(result.is_err());
}

#[test]
fn local_spend_marks_spent_and_removes_from_own_ledger() {
    let mut n1 = NodeShared::new("N1");
    n1.node.ledger.insert("b1".to_string());
    n1.local_spend("b1").unwrap();

    assert!(n1.node.spent.contains("b1"));
    assert!(!n1.node.ledger.contains("b1"));
}

#[test]
fn apply_spent_notify_removes_but_does_not_mark_spent() {
    let mut n1 = NodeShared::new("N1");
    n1.node.ledger.insert("b1".to_string());
    n1.apply_spent_notify("b1");

    assert!(!n1.node.ledger.contains("b1"));
    assert!(!n1.node.spent.contains("b1"));
}

#[test]
fn connected_peers_only_lists_links_currently_up() {
    let mut n1 = NodeShared::new("N1");
    n1.set_link("N2", true);
    n1.set_link("N3", false);
    assert_eq!(n1.connected_peers(), vec!["N2".to_string()]);
}

#[test]
fn unknown_peer_defaults_to_not_linked() {
    let n1 = NodeShared::new("N1");
    assert!(!n1.is_linked("N2"));
}
