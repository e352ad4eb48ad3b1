//! The admin-command state machine, driven in-process: peers are plain
//! `NodeShared` values and "sending" is calling their handler.

use habi_core::admin::{admin_start, admin_step, AdminAction, AdminEvent, AdminSession, Outgoing};
use habi_core::names::NameSet;
use habi_core::peer_protocol::handle_incoming_peer_message;
use habi_core::peers::{parse_peers_text, PeerBook};
use habi_core::shared_state::NodeShared;
use habi_core::wire::{AdminMessage, AdminReply, PeerMessage};

fn book(entries: &[(&str, &str)]) -> PeerBook {
    let mut b = PeerBook::new();
    for (id, addr) in entries {
        b.set(id.to_string(), addr.to_string());
    }
    b
}

fn names(items: &[&str]) -> NameSet {
    NameSet::from_strs(items)
}

/// Runs a command to the end. `peer_of` maps an address to the node
/// living there; every message is delivered to it at once.
fn run(
    me: &mut NodeShared,
    peers: &PeerBook,
    others: &mut Vec<(String, NodeShared)>,
    msg: AdminMessage,
) -> (AdminReply, Vec<String>) {
    let mut trace: Vec<String> = Vec::new();
    let (mut session, mut action) = admin_start(me, peers, msg);
    loop {
        let event = match action {
            AdminAction::Finish(reply) => return (reply, trace),
            AdminAction::Persist => {
                trace.push("persist".to_string());
                AdminEvent::Persisted
            }
            AdminAction::Exchange(Outgoing { peer, addr, message }) => {
                trace.push(format!("exchange {peer}@{addr}: {}", message.encode()));
                match others.iter_mut().find(|(a, _)| *a == addr) {
                    Some((_, node)) => match handle_incoming_peer_message(node, message) {
                        Ok(Some(reply)) => AdminEvent::Replied(Ok(reply)),
                        Ok(None) => AdminEvent::Replied(Err("no reply".to_string())),
                        Err(e) => AdminEvent::Replied(Err(e.0)),
                    },
                    None => AdminEvent::Replied(Err(format!("connect to {addr} failed"))),
                }
            }
            AdminAction::Send(Outgoing { peer, addr, message }) => {
                trace.push(format!("send {peer}@{addr}: {}", message.encode()));
                match others.iter_mut().find(|(a, _)| *a == addr) {
                    Some((_, node)) => {
                        let _ = handle_incoming_peer_message(node, message);
                        AdminEvent::Sent(Ok(()))
                    }
                    None => AdminEvent::Sent(Err(format!("connect to {addr} failed"))),
                }
            }
        };
        let next = admin_step(me, session, event);
        session = next.0;
        action = next.1;
    }
}

#[test]
fn admin_link_up_merges_both_sides() {
    let mut n1 = NodeShared::new("N1");
    n1.node.ledger.insert("b1".into());
    let mut n2 = NodeShared::new("N2");
    n2.node.ledger.insert("b2".into());
    let mut others = vec![("a2".to_string(), n2)];
    let peers = book(&[("N2", "a2")]);
    let (reply, trace) = run(&mut n1, &peers, &mut others, AdminMessage::LinkUp { peer: "N2".into() });
    assert_eq!(reply, AdminReply::Success);
    assert_eq!(trace, vec!["exchange N2@a2: LINK_UP_HELLO|N1|b1|".to_string(), "persist".to_string()]);
    assert_eq!(n1.node.ledger, names(&["b1", "b2"]));
    assert_eq!(others[0].1.node.ledger, names(&["b1", "b2"]));
    assert!(n1.is_linked("N2") && others[0].1.is_linked("N1"));
}

#[test]
fn admin_commands_for_unknown_or_unlinked_peers_fail() {
    let mut n1 = NodeShared::new("N1");
    let peers = book(&[("N2", "a2")]);
    let mut others = Vec::new();
    let (reply, trace) = run(&mut n1, &peers, &mut others, AdminMessage::LinkDown { peer: "N9".into() });
    assert_eq!(reply, AdminReply::Error { detail: "unknown peer N9".into() });
    assert!(trace.is_empty());
    let (reply, _) = run(&mut n1, &peers, &mut others, AdminMessage::Propagate { peer: "N2".into() });
    assert_eq!(reply, AdminReply::Error { detail: "no link to N2, cannot propagate".into() });
    let (reply, _) = run(&mut n1, &peers, &mut others, AdminMessage::LinkUp { peer: "N2".into() });
    assert_eq!(reply, AdminReply::Error { detail: "connect to a2 failed".into() });
    assert!(!n1.is_linked("N2"));
}

#[test]
fn admin_unexpected_reply_is_reported() {
    let mut n1 = NodeShared::new("N1");
    n1.set_link("N2", true);
    let peers = book(&[("N2", "a2")]);
    let (session, action) = admin_start(&mut n1, &peers, AdminMessage::Propagate { peer: "N2".into() });
    assert!(matches!(action, AdminAction::Exchange(_)));
    let (session, action) = admin_step(
        &mut n1,
        session,
        AdminEvent::Replied(Ok(PeerMessage::LinkDown { from: "N2".into() })),
    );
    assert!(matches!(session, AdminSession::Done));
    match action {
        AdminAction::Finish(reply) => assert_eq!(
            reply,
            AdminReply::Error { detail: "unexpected reply from N2: LinkDown { from: \"N2\" }".into() }
        ),
        _ => panic!("expected the command to finish"),
    }
}

#[test]
fn admin_spend_persists_then_notifies_linked_peers() {
    let mut n1 = NodeShared::new("N1");
    n1.node.ledger.insert("b1".into());
    n1.set_link("N2", true);
    n1.set_link("N3", false);
    n1.set_link("N4", true);
    let mut n2 = NodeShared::new("N2");
    n2.node.ledger.insert("b1".into());
    let mut others = vec![("a2".to_string(), n2)];
    let peers = book(&[("N2", "a2"), ("N3", "a3")]);
    let (reply, trace) = run(&mut n1, &peers, &mut others, AdminMessage::SpendAt { bearer: "b1".into() });
    assert_eq!(reply, AdminReply::Success);
    assert_eq!(trace, vec!["persist".to_string(), "send N2@a2: SPENT_NOTIFY|N1|b1".to_string()]);
    assert_eq!(n1.node.spent, names(&["b1"]));
    assert!(others[0].1.node.ledger.is_empty());
    assert!(others[0].1.node.spent.is_empty());
    let (reply, trace) = run(&mut n1, &peers, &mut others, AdminMessage::SpendAt { bearer: "b1".into() });
    assert_eq!(reply, AdminReply::Error { detail: "N1 does not hold b1, cannot spend".into() });
    assert!(trace.is_empty());
}

#[test]
fn admin_status_and_seed() {
    let mut n1 = NodeShared::new("N1");
    n1.set_link("N3", true);
    let peers = book(&[]);
    let mut others = Vec::new();
    let (reply, trace) = run(&mut n1, &peers, &mut others, AdminMessage::Seed { bearer: "b7".into() });
    assert_eq!(reply, AdminReply::Success);
    assert_eq!(trace, vec!["persist".to_string()]);
    let (reply, _) = run(&mut n1, &peers, &mut others, AdminMessage::Status);
    assert_eq!(
        reply,
        AdminReply::StatusReport {
            node_id: "N1".into(),
            ledger: vec!["b7".into()],
            spent: vec![],
            links: vec!["N3".into()],
        }
    );
}

#[test]
fn admin_conversion_day_refuses_a_genuine_conflict_and_changes_nothing() {
    let mut n1 = NodeShared::new("N1");
    n1.node.ledger.insert("b1".into());
    n1.local_spend("b1").unwrap();
    let mut n2 = NodeShared::new("N2");
    n2.node.ledger.insert("b1".into());
    n2.node.ledger.insert("b2".into());
    n2.local_spend("b1").unwrap();
    let mut others = vec![("a2".to_string(), n2)];
    let peers = book(&[("N2", "a2")]);
    let (reply, trace) = run(&mut n1, &peers, &mut others, AdminMessage::ConversionDay);
    assert_eq!(
        reply,
        AdminReply::Error {
            detail: "double-spend detected during distributed reconciliation: [(\"b1\", [\"N1\", \"N2\"])]".into()
        }
    );
    assert_eq!(trace, vec!["exchange N2@a2: STATUS_REQUEST|N1".to_string()]);
    assert_eq!(others[0].1.node.ledger, names(&["b2"]));
    assert!(n1.node.ledger.is_empty());
}

#[test]
fn admin_conversion_day_burns_everywhere_reachable() {
    let mut n1 = NodeShared::new("N1");
    n1.node.ledger.insert("b1".into());
    n1.node.ledger.insert("b3".into());
    n1.local_spend("b1").unwrap();
    let mut n2 = NodeShared::new("N2");
    n2.node.ledger.insert("b1".into());
    n2.node.ledger.insert("b2".into());
    let mut n3 = NodeShared::new("N3");
    n3.node.ledger.insert("b2".into());
    n3.node.ledger.insert("b3".into());
    n3.local_spend("b3").unwrap();
    let mut others = vec![("a2".to_string(), n2), ("a3".to_string(), n3)];
    let peers = book(&[("N2", "a2"), ("N3", "a3")]);
    let (reply, trace) = run(&mut n1, &peers, &mut others, AdminMessage::ConversionDay);
    assert_eq!(reply, AdminReply::Success);
    assert_eq!(
        trace,
        vec![
            "exchange N2@a2: STATUS_REQUEST|N1".to_string(),
            "exchange N3@a3: STATUS_REQUEST|N1".to_string(),
            "persist".to_string(),
            "send N2@a2: SPENT_NOTIFY|N1|b1".to_string(),
            "send N2@a2: SPENT_NOTIFY|N1|b3".to_string(),
            "send N3@a3: SPENT_NOTIFY|N1|b1".to_string(),
            "send N3@a3: SPENT_NOTIFY|N1|b3".to_string(),
        ]
    );
    assert!(n1.node.ledger.is_empty());
    assert_eq!(others[0].1.node.ledger, names(&["b2"]));
    assert_eq!(others[1].1.node.ledger, names(&["b2"]));
    assert_eq!(others[1].1.node.spent, names(&["b3"]));
    assert!(others[0].1.node.spent.is_empty());
}

#[test]
fn peers_file_lines_are_read_like_the_node_reads_them() {
    let text = "N1|127.0.0.1:9001\n  N2 | 127.0.0.1:9002 \r\nbad line\n|x\nN3|\n\nN2|10.0.0.2:1\nN4|a|b";
    let (book, warnings) = parse_peers_text(text, "N1");
    assert_eq!(
        book.entries(),
        vec![("N2".to_string(), "10.0.0.2:1".to_string()), ("N4".to_string(), "a|b".to_string())]
    );
    assert_eq!(book.address("N1"), None);
    assert_eq!(
        warnings,
        vec![
            "skipping malformed peers file line: \"bad line\"".to_string(),
            "skipping malformed peers file line: \"|x\"".to_string(),
            "skipping malformed peers file line: \"N3|\"".to_string(),
        ]
    );
}

#[test]
fn admin_conversion_day_needs_every_known_peer() {
    let mut n1 = NodeShared::new("N1");
    n1.node.ledger.insert("b1".into());
    n1.node.ledger.insert("b2".into());
    n1.local_spend("b1").unwrap();
    let mut n2 = NodeShared::new("N2");
    n2.node.ledger.insert("b1".into());
    let mut others = vec![("a2".to_string(), n2)];
    let peers = book(&[("N2", "a2"), ("N3", "a3")]);
    let (reply, trace) = run(&mut n1, &peers, &mut others, AdminMessage::ConversionDay);
    assert_eq!(
        reply,
        AdminReply::Error {
            detail: "Conversion Day needs every known peer, and N3 is unreachable: connect to a3 failed".into()
        }
    );
    assert_eq!(
        trace,
        vec!["exchange N2@a2: STATUS_REQUEST|N1".to_string(), "exchange N3@a3: STATUS_REQUEST|N1".to_string()]
    );
    assert_eq!(n1.node.ledger, names(&["b2"]));
    assert_eq!(others[0].1.node.ledger, names(&["b1"]));
}

#[test]
fn admin_conversion_day_refuses_a_peer_that_does_not_report() {
    let mut n1 = NodeShared::new("N1");
    n1.node.ledger.insert("b1".into());
    let peers = book(&[("N2", "a2")]);
    let (session, action) = admin_start(&mut n1, &peers, AdminMessage::ConversionDay);
    assert!(matches!(action, AdminAction::Exchange(_)));
    let wrong = PeerMessage::PropagateReply { from: "N2".into(), bearers: vec!["x\"y".into()] };
    let expected = format!(
        "Conversion Day needs every known peer, and N2 did not report its state: {:?}",
        wrong
    );
    let (session, action) = admin_step(&mut n1, session, AdminEvent::Replied(Ok(wrong)));
    assert!(matches!(session, AdminSession::Done));
    match action {
        AdminAction::Finish(reply) => assert_eq!(reply, AdminReply::Error { detail: expected }),
        _ => panic!("expected the command to finish"),
    }
    assert_eq!(n1.node.ledger, names(&["b1"]));
}

#[test]
fn unexpected_replies_show_the_message_as_debug_does() {
    let messages = vec![
        PeerMessage::LinkUpHello { from: "N\"1".into(), ledger: vec!["a".into(), "b".into()], spent: vec![] },
        PeerMessage::LinkUpAck { from: "N1".into(), ledger: vec![], spent: vec!["c".into()] },
        PeerMessage::LinkDown { from: "N1".into() },
        PeerMessage::PropagateRequest { from: "N1".into() },
        PeerMessage::PropagateReply { from: "N1".into(), bearers: vec!["d".into()] },
        PeerMessage::SpentNotify { from: "N1".into(), bearer: "e\n".into() },
        PeerMessage::StatusRequest { from: "N1".into() },
        PeerMessage::StatusReply { from: "N1".into(), ledger: vec!["f".into()], spent: vec!["g".into()] },
    ];
    for m in messages {
        let mut n1 = NodeShared::new("N1");
        let peers = book(&[("N2", "a2")]);
        let (session, _) = admin_start(&mut n1, &peers, AdminMessage::LinkUp { peer: "N2".into() });
        let expected = format!("unexpected reply from N2: {:?}", m);
        if matches!(m, PeerMessage::LinkUpAck { .. }) {
            continue;
        }
        let (_, action) = admin_step(&mut n1, session, AdminEvent::Replied(Ok(m)));
        match action {
            AdminAction::Finish(reply) => assert_eq!(reply, AdminReply::Error { detail: expected }),
            _ => panic!("expected the command to finish"),
        }
    }
}
