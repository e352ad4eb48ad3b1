//! Concrete cases of the library's laws, its error texts and its audit
//! trail.

use habi_core::conversion_day::{check_post_barrier_safety, run_conversion_day, DoubleSpendDetected};
use habi_core::conversion_day_coordinator::{
    check_post_conversion_day_safety, compute_conversion_day, ConversionDayConflict, PeerSnapshot,
};
use habi_core::names::NameSet;
use habi_core::network::Network;
use habi_core::node::Node;
use habi_core::peer_protocol::{apply_link_up_reply, handle_incoming_peer_message};
use habi_core::persistence::{parse_node_state, render_node_state};
use habi_core::shared_state::NodeShared;
use habi_core::wire::PeerMessage;

fn names(items: &[&str]) -> NameSet {
    NameSet::from_strs(items)
}

fn seeded_network() -> Network {
    let mut net = Network::new(&["N1", "N2", "N3"]);
    net.nodes.get_mut("N1").unwrap().ledger.insert("b1".into());
    net.nodes.get_mut("N2").unwrap().ledger.insert("b2".into());
    net
}

fn triple(a: &str, b: &str, c: &str) -> (String, String, String) {
    (a.to_string(), b.to_string(), c.to_string())
}

#[test]
fn new_network_links_every_distinct_pair() {
    let net = Network::new(&["N2", "N1", "N2"]);
    assert_eq!(net.nodes.ids_sorted(), vec!["N1".to_string(), "N2".to_string()]);
    assert_eq!(net.connected_to("N1").to_vec(), vec!["N2".to_string()]);
    assert!(net.connected_to("N9").is_empty());
    assert!(net.log.is_empty());
}

#[test]
fn link_errors_name_the_problem() {
    let mut net = seeded_network();
    assert_eq!(net.link_down("N1", "N1").unwrap_err().0, "cannot link a node to itself");
    assert_eq!(net.link_up("N2", "N2").unwrap_err().0, "cannot link a node to itself");
    assert_eq!(net.link_down("N1", "N9").unwrap_err().0, "unknown node pair N1-N9");
    assert_eq!(net.link_up("N1", "N2").unwrap_err().0, "link N1-N2 already up");
    net.link_down("N1", "N2").unwrap();
    assert_eq!(net.link_down("N2", "N1").unwrap_err().0, "link N2-N1 already down");
    assert_eq!(net.log.len(), 1);
}

#[test]
fn propagate_and_spend_errors_name_the_problem() {
    let mut net = seeded_network();
    assert_eq!(net.propagate("N3", "N1").unwrap_err().0, "nothing deliverable from N3 to N1");
    net.link_down("N1", "N2").unwrap();
    assert_eq!(net.propagate("N2", "N1").unwrap_err().0, "no link N2-N1, cannot propagate");
    assert_eq!(net.spend_at("N3", "b1").unwrap_err().0, "N3 does not hold b1, cannot spend");
    assert_eq!(net.spend_at("N9", "b1").unwrap_err().0, "N9 does not hold b1, cannot spend");
}

#[test]
fn actions_are_logged_in_order() {
    let mut net = seeded_network();
    net.link_down("N1", "N2").unwrap();
    net.propagate("N2", "N3").unwrap();
    net.link_up("N1", "N2").unwrap();
    net.spend_at("N1", "b1").unwrap();
    let entries: Vec<(String, String)> =
        net.log.iter().map(|e| (e.action.clone(), e.detail.clone())).collect();
    assert_eq!(
        entries,
        vec![
            ("LinkDown".to_string(), "N1-N2".to_string()),
            ("Propagate".to_string(), "N2->N3: [\"b2\"]".to_string()),
            ("LinkUp".to_string(), "N1-N2".to_string()),
            ("SpendAt".to_string(), "N1: b1".to_string()),
        ]
    );
}

#[test]
fn link_up_gives_both_sides_the_merge_and_keeps_spent() {
    let mut net = seeded_network();
    net.link_down("N1", "N2").unwrap();
    net.spend_at("N1", "b1").unwrap();
    net.nodes.get_mut("N2").unwrap().ledger.insert("b1".into());
    net.link_up("N1", "N2").unwrap();
    assert_eq!(net.nodes.get("N1").unwrap().ledger, names(&["b2"]));
    assert_eq!(net.nodes.get("N2").unwrap().ledger, names(&["b2"]));
    assert_eq!(net.nodes.get("N1").unwrap().spent, names(&["b1"]));
    assert!(net.nodes.get("N2").unwrap().spent.is_empty());
}

#[test]
fn spend_reaches_only_direct_neighbours() {
    let mut net = seeded_network();
    net.propagate("N1", "N2").unwrap();
    net.propagate("N1", "N3").unwrap();
    net.link_down("N1", "N3").unwrap();
    net.spend_at("N1", "b1").unwrap();
    assert!(!net.nodes.get("N2").unwrap().ledger.contains("b1"));
    assert!(net.nodes.get("N3").unwrap().ledger.contains("b1"));
    assert_eq!(
        net.pairwise_synced_no_double_spend(),
        Vec::<(String, String, String)>::new()
    );
    net.link_up("N1", "N3").unwrap();
    assert!(!net.nodes.get("N3").unwrap().ledger.contains("b1"));
}

#[test]
fn pairwise_report_lists_every_unsynced_triple_in_order() {
    let mut net = seeded_network();
    net.link_down("N1", "N2").unwrap();
    net.link_down("N1", "N3").unwrap();
    net.link_up("N1", "N2").unwrap();
    net.link_down("N1", "N2").unwrap();
    net.spend_at("N2", "b1").unwrap();
    net.link_up("N1", "N3").unwrap();
    assert_eq!(
        net.pairwise_synced_no_double_spend(),
        vec![triple("N2", "N3", "b1"), triple("N3", "N2", "b1")]
    );
}

#[test]
fn conversion_day_logs_participants_and_cleared_bearers() {
    let mut net = seeded_network();
    net.link_down("N1", "N2").unwrap();
    net.link_up("N1", "N2").unwrap();
    net.link_down("N1", "N2").unwrap();
    net.spend_at("N1", "b1").unwrap();
    run_conversion_day(&mut net, None).unwrap();
    let last = net.log.last().unwrap();
    assert_eq!(last.action, "ConversionDay");
    assert_eq!(last.detail, "participants=[\"N1\", \"N2\", \"N3\"], cleared=[\"b1\"]");
    assert!(net.pairwise_synced_no_double_spend().is_empty());
    assert!(net.no_double_spend_across_nodes().is_empty());
}

#[test]
fn conversion_day_leaves_non_participants_untouched() {
    let mut net = seeded_network();
    net.propagate("N1", "N3").unwrap();
    net.link_down("N1", "N3").unwrap();
    net.link_down("N2", "N3").unwrap();
    net.spend_at("N1", "b1").unwrap();
    let participants = names(&["N1", "N2", "N7"]);
    run_conversion_day(&mut net, Some(&participants)).unwrap();
    assert!(net.nodes.get("N3").unwrap().ledger.contains("b1"));
    assert!(check_post_barrier_safety(&net, Some(&participants)));
    assert!(!check_post_barrier_safety(&net, None));
    assert_eq!(
        net.log.last().unwrap().detail,
        "participants=[\"N1\", \"N2\", \"N7\"], cleared=[\"b1\"]"
    );
}

#[test]
fn refused_conversion_day_changes_nothing() {
    let mut net = seeded_network();
    net.link_down("N1", "N2").unwrap();
    net.link_up("N1", "N2").unwrap();
    net.link_down("N1", "N2").unwrap();
    net.spend_at("N1", "b1").unwrap();
    net.spend_at("N2", "b1").unwrap();
    let log_len = net.log.len();
    let err = run_conversion_day(&mut net, None).unwrap_err();
    assert_eq!(
        err.message(),
        "double-spend detected during reconciliation: [(\"b1\", [\"N1\", \"N2\"])]"
    );
    assert_eq!(net.log.len(), log_len);
    assert_eq!(net.nodes.get("N1").unwrap().ledger, names(&["b2"]));
    assert_eq!(net.nodes.get("N3").unwrap().ledger, names(&[]));
}

#[test]
fn conflict_messages_render_every_conflict() {
    let e = DoubleSpendDetected {
        violations: vec![
            ("a\"b".to_string(), vec!["N1".to_string(), "N2".to_string()]),
            ("c".to_string(), vec!["N2".to_string(), "N3".to_string()]),
        ],
    };
    assert_eq!(
        e.message(),
        "double-spend detected during reconciliation: [(\"a\\\"b\", [\"N1\", \"N2\"]), (\"c\", [\"N2\", \"N3\"])]"
    );
    let c = ConversionDayConflict { violations: vec![] };
    assert_eq!(c.message(), "double-spend detected during distributed reconciliation: []");
}

#[test]
fn burning_the_coordinator_set_makes_snapshots_safe() {
    let mut snapshots = vec![
        PeerSnapshot { node_id: "N1".into(), ledger: names(&["b2"]), spent: names(&["b1"]) },
        PeerSnapshot { node_id: "N2".into(), ledger: names(&["b1", "b2"]), spent: names(&["b3"]) },
        PeerSnapshot { node_id: "N3".into(), ledger: names(&["b3"]), spent: names(&[]) },
    ];
    assert!(!check_post_conversion_day_safety(&snapshots));
    let burn = compute_conversion_day(&snapshots).unwrap();
    assert_eq!(burn, names(&["b1", "b3"]));
    for s in snapshots.iter_mut() {
        s.ledger.remove_all(&burn);
    }
    assert!(check_post_conversion_day_safety(&snapshots));
    assert_eq!(snapshots[1].ledger, names(&["b2"]));
}

#[test]
fn coordinator_reports_conflicts_in_bearer_order() {
    let snapshots = vec![
        PeerSnapshot { node_id: "N3".into(), ledger: names(&[]), spent: names(&["b2", "b1"]) },
        PeerSnapshot { node_id: "N1".into(), ledger: names(&[]), spent: names(&["b2"]) },
        PeerSnapshot { node_id: "N2".into(), ledger: names(&[]), spent: names(&["b1", "b2"]) },
    ];
    let err = compute_conversion_day(&snapshots).unwrap_err();
    assert_eq!(
        err.violations,
        vec![
            ("b1".to_string(), vec!["N2".to_string(), "N3".to_string()]),
            ("b2".to_string(), vec!["N1".to_string(), "N2".to_string(), "N3".to_string()]),
        ]
    );
}

#[test]
fn state_text_round_trips() {
    let mut node = Node::new("N1");
    node.ledger.insert("b2".into());
    node.ledger.insert("b1".into());
    node.spent.insert("b1".into());
    let text = render_node_state(&node);
    assert_eq!(text, "NODE_ID|N1\nLEDGER|b1\nLEDGER|b2\nSPENT|b1\n");
    let back = parse_node_state(&text, "\"N1.state\"").unwrap();
    assert_eq!(back.node_id, "N1");
    assert_eq!(back.ledger, names(&["b1", "b2"]));
    assert_eq!(back.spent, names(&["b1"]));
}

#[test]
fn state_text_reading_follows_line_rules() {
    let back = parse_node_state("NODE_ID|old\r\n\nLEDGER|a|b\r\nNODE_ID|N2\nSPENT|x", "\"p\"").unwrap();
    assert_eq!(back.node_id, "N2");
    assert_eq!(back.ledger, names(&["a|b"]));
    assert_eq!(back.spent, names(&["x"]));
}

#[test]
fn state_text_errors_name_the_file() {
    let err = parse_node_state("NODE_ID|N1\nBOGUS|x\nALSO_BAD\n", "\"/tmp/N1.state\"").unwrap_err();
    assert_eq!(err.message(), "unrecognized line tag \"BOGUS\" in \"/tmp/N1.state\"");
    let err = parse_node_state("LEDGER|b1\n", "\"/tmp/N1.state\"").unwrap_err();
    assert_eq!(err.0, "state file \"/tmp/N1.state\" missing NODE_ID line");
}

#[test]
fn wrong_reply_error_shows_the_message() {
    let mut n1 = NodeShared::new("N1");
    let err = apply_link_up_reply(&mut n1, PeerMessage::LinkDown { from: "N2".into() }).unwrap_err();
    assert_eq!(err.0, "expected LinkUpAck, got LinkDown { from: \"N2\" }");
}

#[test]
fn peer_protocol_error_texts() {
    let mut n1 = NodeShared::new("N1");
    let err = handle_incoming_peer_message(&mut n1, PeerMessage::PropagateRequest { from: "N2".into() })
        .unwrap_err();
    assert_eq!(err.0, "no link to N2, cannot propagate");
    let err = n1.local_spend("b9").unwrap_err();
    assert_eq!(err.0, "N1 does not hold b9, cannot spend");
}

#[test]
fn malformed_lines_are_quoted_in_errors() {
    let err = PeerMessage::decode("GARBAGE|x").unwrap_err();
    assert_eq!(err.0, "unrecognized or malformed message: \"GARBAGE|x\"");
}

#[test]
fn handshake_burns_what_either_side_spent() {
    let mut n1 = NodeShared::new("N1");
    n1.node.ledger.insert("b1".into());
    n1.node.ledger.insert("b3".into());
    n1.local_spend("b3").unwrap();
    let mut n2 = NodeShared::new("N2");
    n2.node.ledger.insert("b2".into());
    n2.node.ledger.insert("b3".into());
    n2.node.ledger.insert("b4".into());
    n2.local_spend("b4").unwrap();
    n1.node.ledger.insert("b4".into());
    let hello = PeerMessage::LinkUpHello {
        from: "N1".into(),
        ledger: n1.ledger_sorted(),
        spent: n1.spent_sorted(),
    };
    let ack = handle_incoming_peer_message(&mut n2, hello).unwrap().unwrap();
    apply_link_up_reply(&mut n1, ack).unwrap();
    assert_eq!(n1.ledger_sorted(), vec!["b1".to_string(), "b2".to_string()]);
    assert_eq!(n2.ledger_sorted(), n1.ledger_sorted());
    assert!(n1.is_linked("N2") && n2.is_linked("N1"));
}

#[test]
fn state_lines_show_each_node_in_order() {
    let mut net = seeded_network();
    net.link_down("N1", "N2").unwrap();
    net.spend_at("N1", "b1").unwrap();
    assert_eq!(
        net.state_lines(),
        vec![
            "  Node(N1, ledger=[], spent=[\"b1\"])".to_string(),
            "  Node(N2, ledger=[\"b2\"], spent=[])".to_string(),
            "  Node(N3, ledger=[], spent=[])".to_string(),
        ]
    );
}

#[test]
fn seeding_fills_one_ledger_and_logs_nothing() {
    let mut net = Network::new(&["N1", "N2"]);
    assert!(net.seed("N1", "b1"));
    assert!(!net.seed("N9", "b2"));
    assert_eq!(net.nodes.get("N1").unwrap().ledger, names(&["b1"]));
    assert!(net.nodes.get("N2").unwrap().ledger.is_empty());
    assert!(net.log.is_empty());
    net.spend_at("N1", "b1").unwrap();
    assert_eq!(net.nodes.get("N1").unwrap().spent, names(&["b1"]));
}
