//! The two network invariants against the reproduced traces, and the
//! Conversion Day barrier's safety guarantee.

use habi_core::conversion_day::{check_post_barrier_safety, run_conversion_day};
use habi_core::network::Network;

fn make_init_network() -> Network {
    let mut net = Network::new(&["N1", "N2", "N3"]);
    net.nodes.get_mut("N1").unwrap().ledger.insert("b1".into());
    net.nodes.get_mut("N2").unwrap().ledger.insert("b2".into());
    net
}

#[test]
fn fresh_network_satisfies_both_invariants() {
    let net = make_init_network();
    assert!(net.no_double_spend_across_nodes().is_empty());
    assert!(net.pairwise_synced_no_double_spend().is_empty());
}

#[test]
fn no_double_spend_violated_reproduces_result1() {
    let mut net = make_init_network();
    net.link_down("N1", "N2").unwrap();
    net.link_up("N1", "N2").unwrap();
    net.link_down("N1", "N2").unwrap();
    net.spend_at("N1", "b1").unwrap();
    net.spend_at("N2", "b1").unwrap();

    let violations = net.no_double_spend_across_nodes();
    assert_eq!(
        violations,
        vec![("b1".to_string(), vec!["N1".to_string(), "N2".to_string()])]
    );
}

#[test]
fn pairwise_synced_violated_reproduces_result2() {
    let mut net = make_init_network();
    net.link_down("N1", "N2").unwrap();
    net.link_down("N1", "N3").unwrap();
    net.link_up("N1", "N2").unwrap();
    net.link_down("N1", "N2").unwrap();
    net.spend_at("N2", "b1").unwrap();
    net.link_up("N1", "N3").unwrap();

    let violations = net.pairwise_synced_no_double_spend();
    assert!(
        !violations.is_empty(),
        "expected a pairwise-sync violation like Result 2"
    );
    assert!(violations.iter().any(|(n1, n2, b)| {
        b == "b1" && ((n1 == "N2" && n2 == "N3") || (n1 == "N3" && n2 == "N2"))
    }));
}

#[test]
fn conversion_day_prevents_future_double_spend() {
    let mut net = make_init_network();
    net.link_down("N1", "N2").unwrap();
    net.link_up("N1", "N2").unwrap();
    net.link_down("N1", "N2").unwrap();
    net.spend_at("N1", "b1").unwrap();

    run_conversion_day(&mut net, None).unwrap();
    assert!(check_post_barrier_safety(&net, None));

    assert!(
        net.spend_at("N2", "b1").is_err(),
        "N2 should not have been able to spend b1"
    );
}

#[test]
fn conversion_day_raises_on_preexisting_double_spend() {
    let mut net = make_init_network();
    net.link_down("N1", "N2").unwrap();
    net.link_up("N1", "N2").unwrap();
    net.link_down("N1", "N2").unwrap();
    net.spend_at("N1", "b1").unwrap();
    net.spend_at("N2", "b1").unwrap();

    let err = run_conversion_day(&mut net, None).unwrap_err();
    assert_eq!(
        err.violations[0],
        ("b1".to_string(), vec!["N1".to_string(), "N2".to_string()])
    );
}

#[test]
fn propagate_only_violates_pairwise_sync_result3() {
    let mut net = make_init_network();
    net.propagate("N2", "N1").unwrap();
    net.link_down("N1", "N2").unwrap();
    net.spend_at("N1", "b2").unwrap();
    net.propagate("N2", "N3").unwrap();

    let violations = net.pairwise_synced_no_double_spend();
    assert!(!violations.is_empty(), "expected a pairwise-sync violation via Propagate alone");
}

#[test]
fn conversion_day_closes_propagate_only_gap() {
    let mut net = make_init_network();
    net.propagate("N2", "N1").unwrap();
    net.link_down("N1", "N2").unwrap();
    net.spend_at("N1", "b2").unwrap();
    net.propagate("N2", "N3").unwrap();

    assert!(!net.pairwise_synced_no_double_spend().is_empty());

    run_conversion_day(&mut net, None).unwrap();
    assert!(check_post_barrier_safety(&net, None));
}
