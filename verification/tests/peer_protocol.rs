//! Peer-message dispatch, without sockets: each node's state is a plain
//! `NodeShared` value.

use habi_core::names::NameSet;
use habi_core::peer_protocol::{apply_link_up_reply, apply_propagate_reply, handle_incoming_peer_message};
use habi_core::shared_state::NodeShared;
use habi_core::wire::PeerMessage;

fn set(items: &[&str]) -> Vec<String> {
    items.iter().map(|s| s.to_string()).collect()
}

fn names(items: &[&str]) -> NameSet {
    NameSet::from_strs(items)
}

#[test]
fn link_up_hello_computes_merge_and_replies_with_own_original_state() {
    let mut shared = NodeShared::new("N1");
    shared.node.ledger.insert("b1".to_string());

    let hello = PeerMessage::LinkUpHello {
        from: "N2".to_string(),
        ledger: set(&["b2"]),
        spent: set(&[]),
    };
    let reply = handle_incoming_peer_message(&mut shared, hello).unwrap().unwrap();

    match reply {
        PeerMessage::LinkUpAck { from, ledger, spent } => {
            assert_eq!(from, "N1");
            assert_eq!(ledger, set(&["b1"]), "must reply with ORIGINAL pre-merge ledger");
            assert_eq!(spent, Vec::<String>::new());
        }
        other => panic!("expected LinkUpAck, got {other:?}"),
    }

    assert_eq!(shared.node.ledger, names(&["b1", "b2"]));
    assert!(shared.is_linked("N2"));
}

#[test]
fn two_nodes_converge_on_identical_merge_via_hello_and_ack_roundtrip() {
    let mut n1 = NodeShared::new("N1");
    n1.node.ledger.insert("b1".to_string());
    let mut n2 = NodeShared::new("N2");
    n2.node.ledger.insert("b2".to_string());

    let n1_original_ledger = n1.ledger_sorted();
    let n1_original_spent = n1.spent_sorted();
    let hello = PeerMessage::LinkUpHello {
        from: "N1".to_string(),
        ledger: n1_original_ledger,
        spent: n1_original_spent,
    };

    let ack = handle_incoming_peer_message(&mut n2, hello).unwrap().unwrap();
    apply_link_up_reply(&mut n1, ack).unwrap();

    let n1_final = n1.ledger_sorted();
    let n2_final = n2.ledger_sorted();
    assert_eq!(n1_final, n2_final, "both sides must converge on the same merged ledger");
    assert_eq!(n1_final, vec!["b1".to_string(), "b2".to_string()]);
}

#[test]
fn link_up_excludes_already_spent_bearer_across_the_full_handshake() {
    let mut n1 = NodeShared::new("N1");
    n1.node.ledger.insert("b1".to_string());
    n1.local_spend("b1").unwrap();
    let mut n2 = NodeShared::new("N2");
    n2.node.ledger.insert("b1".to_string());
    n2.node.ledger.insert("b2".to_string());

    let n1_original_ledger = n1.ledger_sorted();
    let n1_original_spent = n1.spent_sorted();
    let hello = PeerMessage::LinkUpHello {
        from: "N1".to_string(),
        ledger: n1_original_ledger,
        spent: n1_original_spent,
    };

    let ack = handle_incoming_peer_message(&mut n2, hello).unwrap().unwrap();
    apply_link_up_reply(&mut n1, ack).unwrap();

    let n1_final = n1.ledger_sorted();
    let n2_final = n2.ledger_sorted();
    assert_eq!(n1_final, n2_final);
    assert_eq!(n1_final, vec!["b2".to_string()], "b1 must be burned on both sides, not merged back in");
}

#[test]
fn propagate_request_replies_with_full_raw_ledger_unfiltered() {
    let mut src = NodeShared::new("N2");
    src.node.ledger.insert("b1".to_string());
    src.node.ledger.insert("b2".to_string());
    src.set_link("N1", true);
    let req = PeerMessage::PropagateRequest { from: "N1".to_string() };
    let reply = handle_incoming_peer_message(&mut src, req).unwrap().unwrap();

    match reply {
        PeerMessage::PropagateReply { from, bearers } => {
            assert_eq!(from, "N2");
            let mut sorted = bearers;
            sorted.sort();
            assert_eq!(sorted, vec!["b1".to_string(), "b2".to_string()],
                "reply must carry the FULL raw ledger, unfiltered -- requester filters locally");
        }
        other => panic!("expected PropagateReply, got {other:?}"),
    }
}

#[test]
fn propagate_reply_is_filtered_locally_by_requester_not_by_source() {
    let mut dst = NodeShared::new("N1");
    dst.node.spent.insert("b1".to_string());
    dst.node.ledger.insert("b3".to_string());

    let reply = PeerMessage::PropagateReply {
        from: "N2".to_string(),
        bearers: set(&["b1", "b2", "b3"]),
    };
    apply_propagate_reply(&mut dst, reply).unwrap();

    assert_eq!(dst.node.ledger, names(&["b2", "b3"]));
}

#[test]
fn propagate_request_rejected_when_not_linked() {
    let mut src = NodeShared::new("N2");
    src.node.ledger.insert("b1".to_string());
    let req = PeerMessage::PropagateRequest { from: "N1".to_string() };
    let result = handle_incoming_peer_message(&mut src, req);
    assert!(result.is_err(), "propagate from an unlinked peer must be rejected");
}

#[test]
fn link_down_updates_local_link_state_no_reply() {
    let mut n1 = NodeShared::new("N1");
    n1.set_link("N2", true);
    let msg = PeerMessage::LinkDown { from: "N2".to_string() };
    let reply = handle_incoming_peer_message(&mut n1, msg).unwrap();
    assert!(reply.is_none());
    assert!(!n1.is_linked("N2"));
}

#[test]
fn spent_notify_removes_bearer_no_reply_and_does_not_mark_spent() {
    let mut n1 = NodeShared::new("N1");
    n1.node.ledger.insert("b1".to_string());
    let msg = PeerMessage::SpentNotify {
        from: "N2".to_string(),
        bearer: "b1".to_string(),
    };
    let reply = handle_incoming_peer_message(&mut n1, msg).unwrap();
    assert!(reply.is_none());

    assert!(!n1.node.ledger.contains("b1"));
    assert!(!n1.node.spent.contains("b1"), "receiving side did not spend it, only the sender did");
}

#[test]
fn unsolicited_ack_or_reply_is_rejected() {
    let mut n1 = NodeShared::new("N1");
    let bad_ack = PeerMessage::LinkUpAck {
        from: "N2".to_string(),
        ledger: vec![],
        spent: vec![],
    };
    assert!(handle_incoming_peer_message(&mut n1, bad_ack).is_err());

    let bad_reply = PeerMessage::PropagateReply {
        from: "N2".to_string(),
        bearers: vec![],
    };
    assert!(handle_incoming_peer_message(&mut n1, bad_reply).is_err());

    let bad_status_reply = PeerMessage::StatusReply {
        from: "N2".to_string(),
        ledger: vec![],
        spent: vec![],
    };
    assert!(handle_incoming_peer_message(&mut n1, bad_status_reply).is_err());
}

#[test]
fn status_request_replies_with_own_ledger_and_spent() {
    let mut n1 = NodeShared::new("N1");
    n1.node.ledger.insert("b1".to_string());
    n1.node.spent.insert("b2".to_string());
    let req = PeerMessage::StatusRequest { from: "coordinator".to_string() };
    let reply = handle_incoming_peer_message(&mut n1, req).unwrap().unwrap();
    match reply {
        PeerMessage::StatusReply { from, ledger, spent } => {
            assert_eq!(from, "N1");
            assert_eq!(ledger, vec!["b1".to_string()]);
            assert_eq!(spent, vec!["b2".to_string()]);
        }
        other => panic!("expected StatusReply, got {other:?}"),
    }
}

#[test]
fn apply_link_up_reply_rejects_wrong_message_type() {
    let mut n1 = NodeShared::new("N1");
    let wrong = PeerMessage::LinkDown { from: "N2".to_string() };
    assert!(apply_link_up_reply(&mut n1, wrong).is_err());
}

#[test]
fn apply_propagate_reply_rejects_wrong_message_type() {
    let mut n1 = NodeShared::new("N1");
    let wrong = PeerMessage::LinkDown { from: "N2".to_string() };
    assert!(apply_propagate_reply(&mut n1, wrong).is_err());
}
