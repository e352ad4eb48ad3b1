//! The wire protocol for node-to-node and admin communication: one message
//! per line, `|`-separated fields, the first field naming the message.
//!
//! LinkUpHello/LinkUpAck carry the sender's whole ledger and spent sets, so
//! that each side can compute the same symmetric merge
//! `(ledger[n] ∪ ledger[m]) \ (spent[n] ∪ spent[m])` from the same two
//! inputs.
use vstd::prelude::*;

use crate::names::names_of;
use crate::render::{debug_str, debug_text};
use crate::text::{push_text, text_string};
use crate::wire_format::{
    clean_for, decode_list, decode_list_text, encode_list, encode_list_text, escape, escape_text,
    field_is, join_fields, join_text, lemma_encode_list_clean, lemma_escape_clean,
    lemma_fields_of_line, lemma_decode_encode_list, lemma_unescape_escape, split_fields,
    split_fields_text, trim_newlines, trim_trailing_newlines, unescape_chars, unescape_text,
};

verus! {

/// A message that cannot be read; the text says why.
#[derive(Debug)]
pub struct WireError(pub String);

#[derive(Debug, PartialEq, Eq)]
pub enum PeerMessage {
    LinkUpHello { from: String, ledger: Vec<String>, spent: Vec<String> },
    LinkUpAck { from: String, ledger: Vec<String>, spent: Vec<String> },
    LinkDown { from: String },
    PropagateRequest { from: String },
    PropagateReply { from: String, bearers: Vec<String> },
    SpentNotify { from: String, bearer: String },
    /// Used by a Conversion Day coordinator to gather a node's raw state
    /// directly, regardless of link topology.
    StatusRequest { from: String },
    StatusReply { from: String, ledger: Vec<String>, spent: Vec<String> },
}

#[derive(Debug, PartialEq, Eq)]
pub enum AdminMessage {
    LinkUp { peer: String },
    LinkDown { peer: String },
    Propagate { peer: String },
    SpendAt { bearer: String },
    Status,
    /// Test/bootstrap only: puts a bearer into this node's ledger with no
    /// provenance check. Not a real issuance operation.
    Seed { bearer: String },
    /// Makes this node act as Conversion Day coordinator.
    ConversionDay,
}

/// Reply sent back to an admin client after processing an `AdminMessage`.
#[derive(Debug, PartialEq, Eq)]
pub enum AdminReply {
    Success,
    Error { detail: String },
    StatusReport { node_id: String, ledger: Vec<String>, spent: Vec<String>, links: Vec<String> },
}

/// The content of a `PeerMessage`.
pub enum PeerMessageView {
    LinkUpHello { from: Seq<char>, ledger: Seq<Seq<char>>, spent: Seq<Seq<char>> },
    LinkUpAck { from: Seq<char>, ledger: Seq<Seq<char>>, spent: Seq<Seq<char>> },
    LinkDown { from: Seq<char> },
    PropagateRequest { from: Seq<char> },
    PropagateReply { from: Seq<char>, bearers: Seq<Seq<char>> },
    SpentNotify { from: Seq<char>, bearer: Seq<char> },
    StatusRequest { from: Seq<char> },
    StatusReply { from: Seq<char>, ledger: Seq<Seq<char>>, spent: Seq<Seq<char>> },
}

/// The content of an `AdminMessage`.
pub enum AdminMessageView {
    LinkUp { peer: Seq<char> },
    LinkDown { peer: Seq<char> },
    Propagate { peer: Seq<char> },
    SpendAt { bearer: Seq<char> },
    Status,
    Seed { bearer: Seq<char> },
    ConversionDay,
}

/// The content of an `AdminReply`.
pub enum AdminReplyView {
    Success,
    Error { detail: Seq<char> },
    StatusReport {
        node_id: Seq<char>,
        ledger: Seq<Seq<char>>,
        spent: Seq<Seq<char>>,
        links: Seq<Seq<char>>,
    },
}

impl View for PeerMessage {
    type V = PeerMessageView;

    open spec fn view(&self) -> PeerMessageView {
        match self {
            PeerMessage::LinkUpHello { from, ledger, spent } => PeerMessageView::LinkUpHello {
                from: from@,
                ledger: names_of(ledger@),
                spent: names_of(spent@),
            },
            PeerMessage::LinkUpAck { from, ledger, spent } => PeerMessageView::LinkUpAck {
                from: from@,
                ledger: names_of(ledger@),
                spent: names_of(spent@),
            },
            PeerMessage::LinkDown { from } => PeerMessageView::LinkDown { from: from@ },
            PeerMessage::PropagateRequest { from } => PeerMessageView::PropagateRequest {
                from: from@,
            },
            PeerMessage::PropagateReply { from, bearers } => PeerMessageView::PropagateReply {
                from: from@,
                bearers: names_of(bearers@),
            },
            PeerMessage::SpentNotify { from, bearer } => PeerMessageView::SpentNotify {
                from: from@,
                bearer: bearer@,
            },
            PeerMessage::StatusRequest { from } => PeerMessageView::StatusRequest { from: from@ },
            PeerMessage::StatusReply { from, ledger, spent } => PeerMessageView::StatusReply {
                from: from@,
                ledger: names_of(ledger@),
                spent: names_of(spent@),
            },
        }
    }
}

impl View for AdminMessage {
    type V = AdminMessageView;

    open spec fn view(&self) -> AdminMessageView {
        match self {
            AdminMessage::LinkUp { peer } => AdminMessageView::LinkUp { peer: peer@ },
            AdminMessage::LinkDown { peer } => AdminMessageView::LinkDown { peer: peer@ },
            AdminMessage::Propagate { peer } => AdminMessageView::Propagate { peer: peer@ },
            AdminMessage::SpendAt { bearer } => AdminMessageView::SpendAt { bearer: bearer@ },
            AdminMessage::Status => AdminMessageView::Status,
            AdminMessage::Seed { bearer } => AdminMessageView::Seed { bearer: bearer@ },
            AdminMessage::ConversionDay => AdminMessageView::ConversionDay,
        }
    }
}

impl View for AdminReply {
    type V = AdminReplyView;

    open spec fn view(&self) -> AdminReplyView {
        match self {
            AdminReply::Success => AdminReplyView::Success,
            AdminReply::Error { detail } => AdminReplyView::Error { detail: detail@ },
            AdminReply::StatusReport { node_id, ledger, spent, links } =>
                AdminReplyView::StatusReport {
                node_id: node_id@,
                ledger: names_of(ledger@),
                spent: names_of(spent@),
                links: names_of(links@),
            },
        }
    }
}

/// A copy of a list of names.
fn clone_names(v: &Vec<String>) -> (c: Vec<String>)
    ensures
        names_of(c@) == names_of(v@),
{
    let c = v.clone();
    assert(names_of(c@) =~= names_of(v@));
    c
}

impl Clone for PeerMessage {
    /// A separate message with the same content.
    fn clone(&self) -> (c: Self)
        ensures
            c@ == self@,
    {
        match self {
            PeerMessage::LinkUpHello { from, ledger, spent } => PeerMessage::LinkUpHello {
                from: from.clone(),
                ledger: clone_names(ledger),
                spent: clone_names(spent),
            },
            PeerMessage::LinkUpAck { from, ledger, spent } => PeerMessage::LinkUpAck {
                from: from.clone(),
                ledger: clone_names(ledger),
                spent: clone_names(spent),
            },
            PeerMessage::LinkDown { from } => PeerMessage::LinkDown { from: from.clone() },
            PeerMessage::PropagateRequest { from } => PeerMessage::PropagateRequest { from: from.clone() },
            PeerMessage::PropagateReply { from, bearers } => PeerMessage::PropagateReply {
                from: from.clone(),
                bearers: clone_names(bearers),
            },
            PeerMessage::SpentNotify { from, bearer } => PeerMessage::SpentNotify {
                from: from.clone(),
                bearer: bearer.clone(),
            },
            PeerMessage::StatusRequest { from } => PeerMessage::StatusRequest { from: from.clone() },
            PeerMessage::StatusReply { from, ledger, spent } => PeerMessage::StatusReply {
                from: from.clone(),
                ledger: clone_names(ledger),
                spent: clone_names(spent),
            },
        }
    }
}

impl Clone for AdminMessage {
    /// A separate message with the same content.
    fn clone(&self) -> (c: Self)
        ensures
            c@ == self@,
    {
        match self {
            AdminMessage::LinkUp { peer } => AdminMessage::LinkUp { peer: peer.clone() },
            AdminMessage::LinkDown { peer } => AdminMessage::LinkDown { peer: peer.clone() },
            AdminMessage::Propagate { peer } => AdminMessage::Propagate { peer: peer.clone() },
            AdminMessage::SpendAt { bearer } => AdminMessage::SpendAt { bearer: bearer.clone() },
            AdminMessage::Status => AdminMessage::Status,
            AdminMessage::Seed { bearer } => AdminMessage::Seed { bearer: bearer.clone() },
            AdminMessage::ConversionDay => AdminMessage::ConversionDay,
        }
    }
}

impl Clone for AdminReply {
    /// A separate reply with the same content.
    fn clone(&self) -> (c: Self)
        ensures
            c@ == self@,
    {
        match self {
            AdminReply::Success => AdminReply::Success,
            AdminReply::Error { detail } => AdminReply::Error { detail: detail.clone() },
            AdminReply::StatusReport { node_id, ledger, spent, links } => AdminReply::StatusReport {
                node_id: node_id.clone(),
                ledger: clone_names(ledger),
                spent: clone_names(spent),
                links: clone_names(links),
            },
        }
    }
}

// ---- the line for each message ------------------------------------------
/// The line (without newline) that encodes a peer message.
pub open spec fn peer_message_text(m: PeerMessageView) -> Seq<char> {
    match m {
        PeerMessageView::LinkUpHello { from, ledger, spent } => join_text(
            seq!["LINK_UP_HELLO"@, escape_text(from), encode_list_text(ledger), encode_list_text(spent)],
            '|',
        ),
        PeerMessageView::LinkUpAck { from, ledger, spent } => join_text(
            seq!["LINK_UP_ACK"@, escape_text(from), encode_list_text(ledger), encode_list_text(spent)],
            '|',
        ),
        PeerMessageView::LinkDown { from } => join_text(seq!["LINK_DOWN"@, escape_text(from)], '|'),
        PeerMessageView::PropagateRequest { from } => join_text(
            seq!["PROPAGATE_REQUEST"@, escape_text(from)],
            '|',
        ),
        PeerMessageView::PropagateReply { from, bearers } => join_text(
            seq!["PROPAGATE_REPLY"@, escape_text(from), encode_list_text(bearers)],
            '|',
        ),
        PeerMessageView::SpentNotify { from, bearer } => join_text(
            seq!["SPENT_NOTIFY"@, escape_text(from), escape_text(bearer)],
            '|',
        ),
        PeerMessageView::StatusRequest { from } => join_text(
            seq!["STATUS_REQUEST"@, escape_text(from)],
            '|',
        ),
        PeerMessageView::StatusReply { from, ledger, spent } => join_text(
            seq!["STATUS_REPLY"@, escape_text(from), encode_list_text(ledger), encode_list_text(spent)],
            '|',
        ),
    }
}

/// The peer message a line stands for, if any. Trailing newlines are
/// ignored; the first field must name the message and the field count
/// must match it.
pub open spec fn peer_message_of(line: Seq<char>) -> Option<PeerMessageView> {
    let f = split_fields_text(trim_newlines(line));
    if f[0] == "LINK_UP_HELLO"@ && f.len() == 4 {
        Some(
            PeerMessageView::LinkUpHello {
                from: unescape_text(f[1]),
                ledger: decode_list_text(f[2]),
                spent: decode_list_text(f[3]),
            },
        )
    } else if f[0] == "LINK_UP_ACK"@ && f.len() == 4 {
        Some(
            PeerMessageView::LinkUpAck {
                from: unescape_text(f[1]),
                ledger: decode_list_text(f[2]),
                spent: decode_list_text(f[3]),
            },
        )
    } else if f[0] == "LINK_DOWN"@ && f.len() == 2 {
        Some(PeerMessageView::LinkDown { from: unescape_text(f[1]) })
    } else if f[0] == "PROPAGATE_REQUEST"@ && f.len() == 2 {
        Some(PeerMessageView::PropagateRequest { from: unescape_text(f[1]) })
    } else if f[0] == "PROPAGATE_REPLY"@ && f.len() == 3 {
        Some(
            PeerMessageView::PropagateReply {
                from: unescape_text(f[1]),
                bearers: decode_list_text(f[2]),
            },
        )
    } else if f[0] == "SPENT_NOTIFY"@ && f.len() == 3 {
        Some(
            PeerMessageView::SpentNotify { from: unescape_text(f[1]), bearer: unescape_text(f[2]) },
        )
    } else if f[0] == "STATUS_REQUEST"@ && f.len() == 2 {
        Some(PeerMessageView::StatusRequest { from: unescape_text(f[1]) })
    } else if f[0] == "STATUS_REPLY"@ && f.len() == 4 {
        Some(
            PeerMessageView::StatusReply {
                from: unescape_text(f[1]),
                ledger: decode_list_text(f[2]),
                spent: decode_list_text(f[3]),
            },
        )
    } else {
        None
    }
}

/// The line that encodes an admin message.
pub open spec fn admin_message_text(m: AdminMessageView) -> Seq<char> {
    match m {
        AdminMessageView::LinkUp { peer } => join_text(
            seq!["ADMIN_LINK_UP"@, escape_text(peer)],
            '|',
        ),
        AdminMessageView::LinkDown { peer } => join_text(
            seq!["ADMIN_LINK_DOWN"@, escape_text(peer)],
            '|',
        ),
        AdminMessageView::Propagate { peer } => join_text(
            seq!["ADMIN_PROPAGATE"@, escape_text(peer)],
            '|',
        ),
        AdminMessageView::SpendAt { bearer } => join_text(
            seq!["ADMIN_SPEND_AT"@, escape_text(bearer)],
            '|',
        ),
        AdminMessageView::Status => "ADMIN_STATUS"@,
        AdminMessageView::Seed { bearer } => join_text(
            seq!["ADMIN_SEED"@, escape_text(bearer)],
            '|',
        ),
        AdminMessageView::ConversionDay => "ADMIN_CONVERSION_DAY"@,
    }
}

/// The admin message a line stands for, if any.
pub open spec fn admin_message_of(line: Seq<char>) -> Option<AdminMessageView> {
    let f = split_fields_text(trim_newlines(line));
    if f[0] == "ADMIN_LINK_UP"@ && f.len() == 2 {
        Some(AdminMessageView::LinkUp { peer: unescape_text(f[1]) })
    } else if f[0] == "ADMIN_LINK_DOWN"@ && f.len() == 2 {
        Some(AdminMessageView::LinkDown { peer: unescape_text(f[1]) })
    } else if f[0] == "ADMIN_PROPAGATE"@ && f.len() == 2 {
        Some(AdminMessageView::Propagate { peer: unescape_text(f[1]) })
    } else if f[0] == "ADMIN_SPEND_AT"@ && f.len() == 2 {
        Some(AdminMessageView::SpendAt { bearer: unescape_text(f[1]) })
    } else if f[0] == "ADMIN_STATUS"@ && f.len() == 1 {
        Some(AdminMessageView::Status)
    } else if f[0] == "ADMIN_SEED"@ && f.len() == 2 {
        Some(AdminMessageView::Seed { bearer: unescape_text(f[1]) })
    } else if f[0] == "ADMIN_CONVERSION_DAY"@ && f.len() == 1 {
        Some(AdminMessageView::ConversionDay)
    } else {
        None
    }
}

/// The line that encodes an admin reply.
pub open spec fn admin_reply_text(m: AdminReplyView) -> Seq<char> {
    match m {
        AdminReplyView::Success => "REPLY_OK"@,
        AdminReplyView::Error { detail } => join_text(
            seq!["REPLY_ERROR"@, escape_text(detail)],
            '|',
        ),
        AdminReplyView::StatusReport { node_id, ledger, spent, links } => join_text(
            seq![
                "REPLY_STATUS"@,
                escape_text(node_id),
                encode_list_text(ledger),
                encode_list_text(spent),
                encode_list_text(links),
            ],
            '|',
        ),
    }
}

/// The admin reply a line stands for, if any.
pub open spec fn admin_reply_of(line: Seq<char>) -> Option<AdminReplyView> {
    let f = split_fields_text(trim_newlines(line));
    if f[0] == "REPLY_OK"@ && f.len() == 1 {
        Some(AdminReplyView::Success)
    } else if f[0] == "REPLY_ERROR"@ && f.len() == 2 {
        Some(AdminReplyView::Error { detail: unescape_text(f[1]) })
    } else if f[0] == "REPLY_STATUS"@ && f.len() == 5 {
        Some(
            AdminReplyView::StatusReport {
                node_id: unescape_text(f[1]),
                ledger: decode_list_text(f[2]),
                spent: decode_list_text(f[3]),
                links: decode_list_text(f[4]),
            },
        )
    } else {
        None
    }
}

/// The text of the error for an unreadable peer message.
pub open spec fn malformed_peer_text(line: Seq<char>) -> Seq<char> {
    "unrecognized or malformed message: "@ + debug_text(line)
}

/// The text of the error for an unreadable admin message.
pub open spec fn malformed_admin_text(line: Seq<char>) -> Seq<char> {
    "unrecognized or malformed admin message: "@ + debug_text(line)
}

/// The text of the error for an unreadable admin reply.
pub open spec fn malformed_reply_text(line: Seq<char>) -> Seq<char> {
    "unrecognized or malformed reply: "@ + debug_text(line)
}

// ---- which messages survive a round trip --------------------------------
/// A list encodes differently from the empty list unless it is the single
/// empty text.
pub open spec fn list_encodable(items: Seq<Seq<char>>) -> bool {
    items != seq![Seq::<char>::empty()]
}

/// The line does not end with a newline (reading strips trailing newlines).
pub open spec fn line_keeps_end(text: Seq<char>) -> bool {
    !(text.len() > 0 && text.last() == '\n')
}

/// Peer messages that decode back to themselves: no list is the single
/// empty text, and the line does not end with a newline.
pub open spec fn peer_message_encodable(m: PeerMessageView) -> bool {
    &&& line_keeps_end(peer_message_text(m))
    &&& match m {
        PeerMessageView::LinkUpHello { ledger, spent, .. } => list_encodable(ledger)
            && list_encodable(spent),
        PeerMessageView::LinkUpAck { ledger, spent, .. } => list_encodable(ledger)
            && list_encodable(spent),
        PeerMessageView::PropagateReply { bearers, .. } => list_encodable(bearers),
        PeerMessageView::StatusReply { ledger, spent, .. } => list_encodable(ledger)
            && list_encodable(spent),
        _ => true,
    }
}

/// Admin messages that decode back to themselves.
pub open spec fn admin_message_encodable(m: AdminMessageView) -> bool {
    line_keeps_end(admin_message_text(m))
}

/// Admin replies that decode back to themselves.
pub open spec fn admin_reply_encodable(m: AdminReplyView) -> bool {
    &&& line_keeps_end(admin_reply_text(m))
    &&& match m {
        AdminReplyView::StatusReport { ledger, spent, links, .. } => list_encodable(ledger)
            && list_encodable(spent) && list_encodable(links),
        _ => true,
    }
}

// ---- round-trip laws ----------------------------------------------------
proof fn lemma_peer_tags()
    ensures
        clean_for("LINK_UP_HELLO"@, '|'),
        clean_for("LINK_UP_ACK"@, '|'),
        clean_for("LINK_DOWN"@, '|'),
        clean_for("PROPAGATE_REQUEST"@, '|'),
        clean_for("PROPAGATE_REPLY"@, '|'),
        clean_for("SPENT_NOTIFY"@, '|'),
        clean_for("STATUS_REQUEST"@, '|'),
        clean_for("STATUS_REPLY"@, '|'),
        "LINK_UP_HELLO"@ != "LINK_UP_ACK"@,
        "LINK_UP_HELLO"@ != "STATUS_REPLY"@,
        "LINK_UP_ACK"@ != "STATUS_REPLY"@,
        "LINK_DOWN"@ != "PROPAGATE_REQUEST"@,
        "LINK_DOWN"@ != "STATUS_REQUEST"@,
        "PROPAGATE_REQUEST"@ != "STATUS_REQUEST"@,
        "PROPAGATE_REPLY"@ != "SPENT_NOTIFY"@,
{
    reveal_strlit("LINK_UP_HELLO");
    reveal_strlit("LINK_UP_ACK");
    reveal_strlit("LINK_DOWN");
    reveal_strlit("PROPAGATE_REQUEST");
    reveal_strlit("PROPAGATE_REPLY");
    reveal_strlit("SPENT_NOTIFY");
    reveal_strlit("STATUS_REQUEST");
    reveal_strlit("STATUS_REPLY");
    reveal_with_fuel(clean_for, 20);
    assert("LINK_UP_HELLO"@[5] != "STATUS_REPLY"@[5]);
    assert("LINK_UP_ACK"@[5] != "STATUS_REPLY"@[5]);
}

proof fn lemma_admin_tags()
    ensures
        clean_for("ADMIN_LINK_UP"@, '|'),
        clean_for("ADMIN_LINK_DOWN"@, '|'),
        clean_for("ADMIN_PROPAGATE"@, '|'),
        clean_for("ADMIN_SPEND_AT"@, '|'),
        clean_for("ADMIN_STATUS"@, '|'),
        clean_for("ADMIN_SEED"@, '|'),
        clean_for("ADMIN_CONVERSION_DAY"@, '|'),
        "ADMIN_LINK_UP"@ != "ADMIN_LINK_DOWN"@,
        "ADMIN_LINK_UP"@ != "ADMIN_PROPAGATE"@,
        "ADMIN_LINK_UP"@ != "ADMIN_SPEND_AT"@,
        "ADMIN_LINK_UP"@ != "ADMIN_SEED"@,
        "ADMIN_LINK_DOWN"@ != "ADMIN_PROPAGATE"@,
        "ADMIN_LINK_DOWN"@ != "ADMIN_SPEND_AT"@,
        "ADMIN_LINK_DOWN"@ != "ADMIN_SEED"@,
        "ADMIN_PROPAGATE"@ != "ADMIN_SPEND_AT"@,
        "ADMIN_PROPAGATE"@ != "ADMIN_SEED"@,
        "ADMIN_SPEND_AT"@ != "ADMIN_SEED"@,
        "ADMIN_STATUS"@ != "ADMIN_CONVERSION_DAY"@,
{
    reveal_strlit("ADMIN_LINK_UP");
    reveal_strlit("ADMIN_LINK_DOWN");
    reveal_strlit("ADMIN_PROPAGATE");
    reveal_strlit("ADMIN_SPEND_AT");
    reveal_strlit("ADMIN_STATUS");
    reveal_strlit("ADMIN_SEED");
    reveal_strlit("ADMIN_CONVERSION_DAY");
    reveal_with_fuel(clean_for, 22);
    assert("ADMIN_LINK_DOWN"@[6] != "ADMIN_PROPAGATE"@[6]);
}

proof fn lemma_reply_tags()
    ensures
        clean_for("REPLY_OK"@, '|'),
        clean_for("REPLY_ERROR"@, '|'),
        clean_for("REPLY_STATUS"@, '|'),
        "REPLY_OK"@ != "REPLY_ERROR"@,
        "REPLY_OK"@ != "REPLY_STATUS"@,
        "REPLY_ERROR"@ != "REPLY_STATUS"@,
{
    reveal_strlit("REPLY_OK");
    reveal_strlit("REPLY_ERROR");
    reveal_strlit("REPLY_STATUS");
    reveal_with_fuel(clean_for, 14);
}

/// A line with a single clean field is its own only field.
proof fn lemma_single_field(tag: Seq<char>)
    requires
        clean_for(tag, '|'),
        line_keeps_end(tag),
    ensures
        split_fields_text(trim_newlines(tag)) == seq![tag],
{
    assert(join_text(seq![tag], '|') == tag);
    lemma_fields_of_line(seq![tag]);
}

/// Decoding the encoding of a peer message gives the message back, for
/// every message whose lists are not the single empty text and whose line
/// does not end with a newline.
pub proof fn lemma_peer_message_roundtrip(m: PeerMessageView)
    requires
        peer_message_encodable(m),
    ensures
        peer_message_of(peer_message_text(m)) == Some(m),
{
    lemma_peer_tags();
    match m {
        PeerMessageView::LinkUpHello { from, ledger, spent } => {
            let f = seq!["LINK_UP_HELLO"@, escape_text(from), encode_list_text(ledger), encode_list_text(spent)];
            lemma_escape_clean(from, '|');
            lemma_encode_list_clean(ledger);
            lemma_encode_list_clean(spent);
            lemma_fields_of_line(f);
            lemma_unescape_escape(from);
            lemma_decode_encode_list(ledger);
            lemma_decode_encode_list(spent);
        },
        PeerMessageView::LinkUpAck { from, ledger, spent } => {
            let f = seq!["LINK_UP_ACK"@, escape_text(from), encode_list_text(ledger), encode_list_text(spent)];
            lemma_escape_clean(from, '|');
            lemma_encode_list_clean(ledger);
            lemma_encode_list_clean(spent);
            lemma_fields_of_line(f);
            lemma_unescape_escape(from);
            lemma_decode_encode_list(ledger);
            lemma_decode_encode_list(spent);
        },
        PeerMessageView::LinkDown { from } => {
            let f = seq!["LINK_DOWN"@, escape_text(from)];
            lemma_escape_clean(from, '|');
            lemma_fields_of_line(f);
            lemma_unescape_escape(from);
        },
        PeerMessageView::PropagateRequest { from } => {
            let f = seq!["PROPAGATE_REQUEST"@, escape_text(from)];
            lemma_escape_clean(from, '|');
            lemma_fields_of_line(f);
            lemma_unescape_escape(from);
        },
        PeerMessageView::PropagateReply { from, bearers } => {
            let f = seq!["PROPAGATE_REPLY"@, escape_text(from), encode_list_text(bearers)];
            lemma_escape_clean(from, '|');
            lemma_encode_list_clean(bearers);
            lemma_fields_of_line(f);
            lemma_unescape_escape(from);
            lemma_decode_encode_list(bearers);
        },
        PeerMessageView::SpentNotify { from, bearer } => {
            let f = seq!["SPENT_NOTIFY"@, escape_text(from), escape_text(bearer)];
            lemma_escape_clean(from, '|');
            lemma_escape_clean(bearer, '|');
            lemma_fields_of_line(f);
            lemma_unescape_escape(from);
            lemma_unescape_escape(bearer);
        },
        PeerMessageView::StatusRequest { from } => {
            let f = seq!["STATUS_REQUEST"@, escape_text(from)];
            lemma_escape_clean(from, '|');
            lemma_fields_of_line(f);
            lemma_unescape_escape(from);
        },
        PeerMessageView::StatusReply { from, ledger, spent } => {
            let f = seq!["STATUS_REPLY"@, escape_text(from), encode_list_text(ledger), encode_list_text(spent)];
            lemma_escape_clean(from, '|');
            lemma_encode_list_clean(ledger);
            lemma_encode_list_clean(spent);
            lemma_fields_of_line(f);
            lemma_unescape_escape(from);
            lemma_decode_encode_list(ledger);
            lemma_decode_encode_list(spent);
        },
    }
}

/// Decoding the encoding of an admin message gives the message back when
/// its line does not end with a newline.
pub proof fn lemma_admin_message_roundtrip(m: AdminMessageView)
    requires
        admin_message_encodable(m),
    ensures
        admin_message_of(admin_message_text(m)) == Some(m),
{
    lemma_admin_tags();
    match m {
        AdminMessageView::LinkUp { peer } => {
            lemma_escape_clean(peer, '|');
            lemma_fields_of_line(seq!["ADMIN_LINK_UP"@, escape_text(peer)]);
            lemma_unescape_escape(peer);
        },
        AdminMessageView::LinkDown { peer } => {
            lemma_escape_clean(peer, '|');
            lemma_fields_of_line(seq!["ADMIN_LINK_DOWN"@, escape_text(peer)]);
            lemma_unescape_escape(peer);
        },
        AdminMessageView::Propagate { peer } => {
            lemma_escape_clean(peer, '|');
            lemma_fields_of_line(seq!["ADMIN_PROPAGATE"@, escape_text(peer)]);
            lemma_unescape_escape(peer);
        },
        AdminMessageView::SpendAt { bearer } => {
            lemma_escape_clean(bearer, '|');
            lemma_fields_of_line(seq!["ADMIN_SPEND_AT"@, escape_text(bearer)]);
            lemma_unescape_escape(bearer);
        },
        AdminMessageView::Status => {
            lemma_single_field("ADMIN_STATUS"@);
        },
        AdminMessageView::Seed { bearer } => {
            lemma_escape_clean(bearer, '|');
            lemma_fields_of_line(seq!["ADMIN_SEED"@, escape_text(bearer)]);
            lemma_unescape_escape(bearer);
        },
        AdminMessageView::ConversionDay => {
            lemma_single_field("ADMIN_CONVERSION_DAY"@);
        },
    }
}

/// Decoding the encoding of an admin reply gives the reply back when no
/// list is the single empty text and the line does not end with a newline.
pub proof fn lemma_admin_reply_roundtrip(m: AdminReplyView)
    requires
        admin_reply_encodable(m),
    ensures
        admin_reply_of(admin_reply_text(m)) == Some(m),
{
    lemma_reply_tags();
    match m {
        AdminReplyView::Success => {
            lemma_single_field("REPLY_OK"@);
        },
        AdminReplyView::Error { detail } => {
            lemma_escape_clean(detail, '|');
            lemma_fields_of_line(seq!["REPLY_ERROR"@, escape_text(detail)]);
            lemma_unescape_escape(detail);
        },
        AdminReplyView::StatusReport { node_id, ledger, spent, links } => {
            let f = seq![
                "REPLY_STATUS"@,
                escape_text(node_id),
                encode_list_text(ledger),
                encode_list_text(spent),
                encode_list_text(links),
            ];
            lemma_escape_clean(node_id, '|');
            lemma_encode_list_clean(ledger);
            lemma_encode_list_clean(spent);
            lemma_encode_list_clean(links);
            lemma_fields_of_line(f);
            lemma_unescape_escape(node_id);
            lemma_decode_encode_list(ledger);
            lemma_decode_encode_list(spent);
            lemma_decode_encode_list(links);
        },
    }
}

// ---- executable encoding and decoding -----------------------------------
fn line_of(fields: Vec<String>) -> (r: String)
    ensures
        r@ == join_text(names_of(fields@), '|'),
{
    join_fields(&fields)
}

fn malformed(prefix: &str, line: &str) -> (e: WireError)
    ensures
        e.0@ == prefix@ + debug_text(line@),
{
    let mut text = text_string(prefix);
    let d = debug_str(line);
    push_text(&mut text, d.as_str());
    WireError(text)
}

impl PeerMessage {
    /// The line (without newline) for this message.
    pub fn encode(&self) -> (r: String)
        ensures
            r@ == peer_message_text(self@),
    {
        match self {
            PeerMessage::LinkUpHello { from, ledger, spent } => {
                let f = vec![text_string("LINK_UP_HELLO"), escape(from.as_str()), encode_list(ledger), encode_list(spent)];
                assert(names_of(f@) =~= seq!["LINK_UP_HELLO"@, escape_text(from@), encode_list_text(names_of(ledger@)), encode_list_text(names_of(spent@))]);
                line_of(f)
            },
            PeerMessage::LinkUpAck { from, ledger, spent } => {
                let f = vec![text_string("LINK_UP_ACK"), escape(from.as_str()), encode_list(ledger), encode_list(spent)];
                assert(names_of(f@) =~= seq!["LINK_UP_ACK"@, escape_text(from@), encode_list_text(names_of(ledger@)), encode_list_text(names_of(spent@))]);
                line_of(f)
            },
            PeerMessage::LinkDown { from } => {
                let f = vec![text_string("LINK_DOWN"), escape(from.as_str())];
                assert(names_of(f@) =~= seq!["LINK_DOWN"@, escape_text(from@)]);
                line_of(f)
            },
            PeerMessage::PropagateRequest { from } => {
                let f = vec![text_string("PROPAGATE_REQUEST"), escape(from.as_str())];
                assert(names_of(f@) =~= seq!["PROPAGATE_REQUEST"@, escape_text(from@)]);
                line_of(f)
            },
            PeerMessage::PropagateReply { from, bearers } => {
                let f = vec![text_string("PROPAGATE_REPLY"), escape(from.as_str()), encode_list(bearers)];
                assert(names_of(f@) =~= seq!["PROPAGATE_REPLY"@, escape_text(from@), encode_list_text(names_of(bearers@))]);
                line_of(f)
            },
            PeerMessage::SpentNotify { from, bearer } => {
                let f = vec![text_string("SPENT_NOTIFY"), escape(from.as_str()), escape(bearer.as_str())];
                assert(names_of(f@) =~= seq!["SPENT_NOTIFY"@, escape_text(from@), escape_text(bearer@)]);
                line_of(f)
            },
            PeerMessage::StatusRequest { from } => {
                let f = vec![text_string("STATUS_REQUEST"), escape(from.as_str())];
                assert(names_of(f@) =~= seq!["STATUS_REQUEST"@, escape_text(from@)]);
                line_of(f)
            },
            PeerMessage::StatusReply { from, ledger, spent } => {
                let f = vec![text_string("STATUS_REPLY"), escape(from.as_str()), encode_list(ledger), encode_list(spent)];
                assert(names_of(f@) =~= seq!["STATUS_REPLY"@, escape_text(from@), encode_list_text(names_of(ledger@)), encode_list_text(names_of(spent@))]);
                line_of(f)
            },
        }
    }

    /// Reads one line; trailing newlines are ignored.
    pub fn decode(line: &str) -> (r: Result<PeerMessage, WireError>)
        ensures
            match peer_message_of(line@) {
                Some(m) => r is Ok && r->Ok_0@ == m,
                None => r is Err && r->Err_0.0@ == malformed_peer_text(line@),
            },
    {
        let trimmed = trim_trailing_newlines(line);
        let f = split_fields(trimmed.as_slice());
        let ghost t = f@.map_values(|p: Vec<char>| p@);
        assert(t[0] == f@[0]@);
        let n = f.len();
        if field_is(&f[0], "LINK_UP_HELLO") && n == 4 {
            assert(t[1] == f@[1]@ && t[2] == f@[2]@ && t[3] == f@[3]@);
            return Ok(PeerMessage::LinkUpHello {
                from: unescape_chars(f[1].as_slice()),
                ledger: decode_list(f[2].as_slice()),
                spent: decode_list(f[3].as_slice()),
            });
        }
        if field_is(&f[0], "LINK_UP_ACK") && n == 4 {
            assert(t[1] == f@[1]@ && t[2] == f@[2]@ && t[3] == f@[3]@);
            return Ok(PeerMessage::LinkUpAck {
                from: unescape_chars(f[1].as_slice()),
                ledger: decode_list(f[2].as_slice()),
                spent: decode_list(f[3].as_slice()),
            });
        }
        if field_is(&f[0], "LINK_DOWN") && n == 2 {
            assert(t[1] == f@[1]@);
            return Ok(PeerMessage::LinkDown { from: unescape_chars(f[1].as_slice()) });
        }
        if field_is(&f[0], "PROPAGATE_REQUEST") && n == 2 {
            assert(t[1] == f@[1]@);
            return Ok(PeerMessage::PropagateRequest { from: unescape_chars(f[1].as_slice()) });
        }
        if field_is(&f[0], "PROPAGATE_REPLY") && n == 3 {
            assert(t[1] == f@[1]@ && t[2] == f@[2]@);
            return Ok(PeerMessage::PropagateReply {
                from: unescape_chars(f[1].as_slice()),
                bearers: decode_list(f[2].as_slice()),
            });
        }
        if field_is(&f[0], "SPENT_NOTIFY") && n == 3 {
            assert(t[1] == f@[1]@ && t[2] == f@[2]@);
            return Ok(PeerMessage::SpentNotify {
                from: unescape_chars(f[1].as_slice()),
                bearer: unescape_chars(f[2].as_slice()),
            });
        }
        if field_is(&f[0], "STATUS_REQUEST") && n == 2 {
            assert(t[1] == f@[1]@);
            return Ok(PeerMessage::StatusRequest { from: unescape_chars(f[1].as_slice()) });
        }
        if field_is(&f[0], "STATUS_REPLY") && n == 4 {
            assert(t[1] == f@[1]@ && t[2] == f@[2]@ && t[3] == f@[3]@);
            return Ok(PeerMessage::StatusReply {
                from: unescape_chars(f[1].as_slice()),
                ledger: decode_list(f[2].as_slice()),
                spent: decode_list(f[3].as_slice()),
            });
        }
        Err(malformed("unrecognized or malformed message: ", line))
    }
}

impl AdminMessage {
    /// The line (without newline) for this message.
    pub fn encode(&self) -> (r: String)
        ensures
            r@ == admin_message_text(self@),
    {
        match self {
            AdminMessage::LinkUp { peer } => {
                let f = vec![text_string("ADMIN_LINK_UP"), escape(peer.as_str())];
                assert(names_of(f@) =~= seq!["ADMIN_LINK_UP"@, escape_text(peer@)]);
                line_of(f)
            },
            AdminMessage::LinkDown { peer } => {
                let f = vec![text_string("ADMIN_LINK_DOWN"), escape(peer.as_str())];
                assert(names_of(f@) =~= seq!["ADMIN_LINK_DOWN"@, escape_text(peer@)]);
                line_of(f)
            },
            AdminMessage::Propagate { peer } => {
                let f = vec![text_string("ADMIN_PROPAGATE"), escape(peer.as_str())];
                assert(names_of(f@) =~= seq!["ADMIN_PROPAGATE"@, escape_text(peer@)]);
                line_of(f)
            },
            AdminMessage::SpendAt { bearer } => {
                let f = vec![text_string("ADMIN_SPEND_AT"), escape(bearer.as_str())];
                assert(names_of(f@) =~= seq!["ADMIN_SPEND_AT"@, escape_text(bearer@)]);
                line_of(f)
            },
            AdminMessage::Status => text_string("ADMIN_STATUS"),
            AdminMessage::Seed { bearer } => {
                let f = vec![text_string("ADMIN_SEED"), escape(bearer.as_str())];
                assert(names_of(f@) =~= seq!["ADMIN_SEED"@, escape_text(bearer@)]);
                line_of(f)
            },
            AdminMessage::ConversionDay => text_string("ADMIN_CONVERSION_DAY"),
        }
    }

    /// Reads one line; trailing newlines are ignored.
    pub fn decode(line: &str) -> (r: Result<AdminMessage, WireError>)
        ensures
            match admin_message_of(line@) {
                Some(m) => r is Ok && r->Ok_0@ == m,
                None => r is Err && r->Err_0.0@ == malformed_admin_text(line@),
            },
    {
        let trimmed = trim_trailing_newlines(line);
        let f = split_fields(trimmed.as_slice());
        let ghost t = f@.map_values(|p: Vec<char>| p@);
        assert(t[0] == f@[0]@);
        let n = f.len();
        if field_is(&f[0], "ADMIN_LINK_UP") && n == 2 {
            assert(t[1] == f@[1]@);
            return Ok(AdminMessage::LinkUp { peer: unescape_chars(f[1].as_slice()) });
        }
        if field_is(&f[0], "ADMIN_LINK_DOWN") && n == 2 {
            assert(t[1] == f@[1]@);
            return Ok(AdminMessage::LinkDown { peer: unescape_chars(f[1].as_slice()) });
        }
        if field_is(&f[0], "ADMIN_PROPAGATE") && n == 2 {
            assert(t[1] == f@[1]@);
            return Ok(AdminMessage::Propagate { peer: unescape_chars(f[1].as_slice()) });
        }
        if field_is(&f[0], "ADMIN_SPEND_AT") && n == 2 {
            assert(t[1] == f@[1]@);
            return Ok(AdminMessage::SpendAt { bearer: unescape_chars(f[1].as_slice()) });
        }
        if field_is(&f[0], "ADMIN_STATUS") && n == 1 {
            return Ok(AdminMessage::Status);
        }
        if field_is(&f[0], "ADMIN_SEED") && n == 2 {
            assert(t[1] == f@[1]@);
            return Ok(AdminMessage::Seed { bearer: unescape_chars(f[1].as_slice()) });
        }
        if field_is(&f[0], "ADMIN_CONVERSION_DAY") && n == 1 {
            return Ok(AdminMessage::ConversionDay);
        }
        Err(malformed("unrecognized or malformed admin message: ", line))
    }
}

impl AdminReply {
    /// The line (without newline) for this reply.
    pub fn encode(&self) -> (r: String)
        ensures
            r@ == admin_reply_text(self@),
    {
        match self {
            AdminReply::Success => text_string("REPLY_OK"),
            AdminReply::Error { detail } => {
                let f = vec![text_string("REPLY_ERROR"), escape(detail.as_str())];
                assert(names_of(f@) =~= seq!["REPLY_ERROR"@, escape_text(detail@)]);
                line_of(f)
            },
            AdminReply::StatusReport { node_id, ledger, spent, links } => {
                let f = vec![
                    text_string("REPLY_STATUS"),
                    escape(node_id.as_str()),
                    encode_list(ledger),
                    encode_list(spent),
                    encode_list(links),
                ];
                assert(names_of(f@) =~= seq![
                    "REPLY_STATUS"@,
                    escape_text(node_id@),
                    encode_list_text(names_of(ledger@)),
                    encode_list_text(names_of(spent@)),
                    encode_list_text(names_of(links@)),
                ]);
                line_of(f)
            },
        }
    }

    /// Reads one line; trailing newlines are ignored.
    pub fn decode(line: &str) -> (r: Result<AdminReply, WireError>)
        ensures
            match admin_reply_of(line@) {
                Some(m) => r is Ok && r->Ok_0@ == m,
                None => r is Err && r->Err_0.0@ == malformed_reply_text(line@),
            },
    {
        let trimmed = trim_trailing_newlines(line);
        let f = split_fields(trimmed.as_slice());
        let ghost t = f@.map_values(|p: Vec<char>| p@);
        assert(t[0] == f@[0]@);
        let n = f.len();
        if field_is(&f[0], "REPLY_OK") && n == 1 {
            return Ok(AdminReply::Success);
        }
        if field_is(&f[0], "REPLY_ERROR") && n == 2 {
            assert(t[1] == f@[1]@);
            return Ok(AdminReply::Error { detail: unescape_chars(f[1].as_slice()) });
        }
        if field_is(&f[0], "REPLY_STATUS") && n == 5 {
            assert(t[1] == f@[1]@ && t[2] == f@[2]@ && t[3] == f@[3]@ && t[4] == f@[4]@);
            return Ok(AdminReply::StatusReport {
                node_id: unescape_chars(f[1].as_slice()),
                ledger: decode_list(f[2].as_slice()),
                spent: decode_list(f[3].as_slice()),
                links: decode_list(f[4].as_slice()),
            });
        }
        Err(malformed("unrecognized or malformed reply: ", line))
    }
}

/// Reading a line ignores newlines at its end: a line as `read_line` hands
/// it over, newline included, decodes to the same message (or is refused
/// alike) as the line without it, for peer messages, admin messages and
/// admin replies.
pub proof fn lemma_decode_ignores_trailing_newline(line: Seq<char>)
    ensures
        peer_message_of(line.push('\n')) == peer_message_of(line),
        admin_message_of(line.push('\n')) == admin_message_of(line),
        admin_reply_of(line.push('\n')) == admin_reply_of(line),
{
    let l2 = line.push('\n');
    assert(l2.last() == '\n');
    assert(l2.drop_last() =~= line);
    assert(trim_newlines(l2) == trim_newlines(line));
}

} // verus!
