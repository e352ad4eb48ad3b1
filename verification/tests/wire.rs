//! The line-oriented wire protocol: encoding, decoding and escaping.

use habi_core::wire::{AdminMessage, AdminReply, PeerMessage};

#[test]
fn peer_message_roundtrip() {
    let msgs = vec![
        PeerMessage::LinkUpHello {
            from: "N1".into(),
            ledger: vec!["b1".into(), "b2".into()],
            spent: vec![],
        },
        PeerMessage::LinkUpAck {
            from: "N2".into(),
            ledger: vec![],
            spent: vec!["b1".into()],
        },
        PeerMessage::LinkDown { from: "N3".into() },
        PeerMessage::PropagateRequest { from: "N1".into() },
        PeerMessage::PropagateReply {
            from: "N1".into(),
            bearers: vec!["b1".into(), "b2".into()],
        },
        PeerMessage::PropagateReply { from: "N1".into(), bearers: vec![] },
        PeerMessage::SpentNotify { from: "N1".into(), bearer: "b1".into() },
        PeerMessage::StatusRequest { from: "N1".into() },
        PeerMessage::StatusReply {
            from: "N1".into(),
            ledger: vec!["b1".into()],
            spent: vec![],
        },
    ];
    for m in msgs {
        let encoded = m.encode();
        let decoded = PeerMessage::decode(&encoded).unwrap();
        assert_eq!(m, decoded, "roundtrip failed for {encoded:?}");
    }
}

#[test]
fn admin_message_roundtrip() {
    let msgs = vec![
        AdminMessage::LinkUp { peer: "N2".into() },
        AdminMessage::LinkDown { peer: "N2".into() },
        AdminMessage::Propagate { peer: "N2".into() },
        AdminMessage::SpendAt { bearer: "b1".into() },
        AdminMessage::Status,
        AdminMessage::Seed { bearer: "b1".into() },
        AdminMessage::ConversionDay,
    ];
    for m in msgs {
        let encoded = m.encode();
        let decoded = AdminMessage::decode(&encoded).unwrap();
        assert_eq!(m, decoded, "roundtrip failed for {encoded:?}");
    }
}

#[test]
fn admin_reply_roundtrip() {
    let msgs = vec![
        AdminReply::Success,
        AdminReply::Error { detail: "no link N2-N3".into() },
        AdminReply::StatusReport {
            node_id: "N1".into(),
            ledger: vec!["b1".into()],
            spent: vec![],
            links: vec!["N2".into(), "N3".into()],
        },
    ];
    for m in msgs {
        let encoded = m.encode();
        let decoded = AdminReply::decode(&encoded).unwrap();
        assert_eq!(m, decoded, "roundtrip failed for {encoded:?}");
    }
}

#[test]
fn escaping_handles_pipe_backslash_and_comma_in_bearer_names() {
    let m = PeerMessage::LinkUpHello {
        from: "N1".into(),
        ledger: vec!["weird|bearer\\name,with,commas".into(), "b2".into()],
        spent: vec![],
    };
    let encoded = m.encode();
    let decoded = PeerMessage::decode(&encoded).unwrap();
    assert_eq!(m, decoded);
}

#[test]
fn decode_rejects_malformed_input() {
    assert!(PeerMessage::decode("NOT_A_REAL_MESSAGE").is_err());
    assert!(PeerMessage::decode("LINK_UP_HELLO").is_err());
    assert!(AdminMessage::decode("").is_err());
    assert!(AdminReply::decode("GARBAGE").is_err());
}

#[test]
fn empty_ledger_and_spent_roundtrip_as_empty_not_single_blank_item() {
    let m = PeerMessage::LinkUpHello {
        from: "N1".into(),
        ledger: vec![],
        spent: vec![],
    };
    let encoded = m.encode();
    let decoded = PeerMessage::decode(&encoded).unwrap();
    if let PeerMessage::LinkUpHello { ledger, spent, .. } = decoded {
        assert_eq!(ledger, Vec::<String>::new());
        assert_eq!(spent, Vec::<String>::new());
    } else {
        panic!("wrong variant decoded");
    }
}
