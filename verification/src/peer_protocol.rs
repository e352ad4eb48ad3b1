//! Peer-message dispatch for the distributed node: every function takes an
//! already-parsed `PeerMessage` and the node's local state and returns the
//! reply to send (if any). Sockets and locking stay with the caller.
use vstd::prelude::*;

use crate::names::{lists_sorted, names_of, NameSet};
use crate::node::NodeView;
use crate::render::{debug_list, debug_list_text, debug_str, debug_text};
use crate::shared_state::{
    deliverable_from, link_is_up, merged_ledger, NodeShared, StateError,
};
use crate::text::{push_text, text_string};
use crate::wire::{PeerMessage, PeerMessageView};

verus! {

/// One field of a `Debug` rendering: `name: value`.
pub open spec fn debug_field_text(name: Seq<char>, value: Seq<char>) -> Seq<char> {
    name + ": "@ + value
}

/// What `format!("{:?}", m)` produces for a peer message, as its derived
/// `Debug` renders it: the variant's name, then `{ `, its fields as
/// `name: value` separated by `, `, and ` }`; a text field shows as
/// `debug_text` and a list as `debug_list_text`.
pub open spec fn peer_message_debug_text(m: PeerMessageView) -> Seq<char> {
    match m {
        PeerMessageView::LinkUpHello { from, ledger, spent } => "LinkUpHello { "@ + debug_field_text(
            "from"@,
            debug_text(from),
        ) + ", "@ + debug_field_text("ledger"@, debug_list_text(ledger)) + ", "@ + debug_field_text(
            "spent"@,
            debug_list_text(spent),
        ) + " }"@,
        PeerMessageView::LinkUpAck { from, ledger, spent } => "LinkUpAck { "@ + debug_field_text(
            "from"@,
            debug_text(from),
        ) + ", "@ + debug_field_text("ledger"@, debug_list_text(ledger)) + ", "@ + debug_field_text(
            "spent"@,
            debug_list_text(spent),
        ) + " }"@,
        PeerMessageView::LinkDown { from } => "LinkDown { "@ + debug_field_text("from"@, debug_text(from))
            + " }"@,
        PeerMessageView::PropagateRequest { from } => "PropagateRequest { "@ + debug_field_text(
            "from"@,
            debug_text(from),
        ) + " }"@,
        PeerMessageView::PropagateReply { from, bearers } => "PropagateReply { "@ + debug_field_text(
            "from"@,
            debug_text(from),
        ) + ", "@ + debug_field_text("bearers"@, debug_list_text(bearers)) + " }"@,
        PeerMessageView::SpentNotify { from, bearer } => "SpentNotify { "@ + debug_field_text(
            "from"@,
            debug_text(from),
        ) + ", "@ + debug_field_text("bearer"@, debug_text(bearer)) + " }"@,
        PeerMessageView::StatusRequest { from } => "StatusRequest { "@ + debug_field_text(
            "from"@,
            debug_text(from),
        ) + " }"@,
        PeerMessageView::StatusReply { from, ledger, spent } => "StatusReply { "@ + debug_field_text(
            "from"@,
            debug_text(from),
        ) + ", "@ + debug_field_text("ledger"@, debug_list_text(ledger)) + ", "@ + debug_field_text(
            "spent"@,
            debug_list_text(spent),
        ) + " }"@,
    }
}

/// Appends `name: "value"` with the value in its `Debug` rendering.
fn push_text_field(out: &mut String, name: &str, value: &str)
    ensures
        final(out)@ == old(out)@ + debug_field_text(name@, debug_text(value@)),
{
    push_text(out, name);
    push_text(out, ": ");
    let shown = debug_str(value);
    push_text(out, shown.as_str());
    assert(final(out)@ =~= old(out)@ + debug_field_text(name@, debug_text(value@)));
}

/// Appends `name: [..]` with the list in its `Debug` rendering.
fn push_list_field(out: &mut String, name: &str, items: &Vec<String>)
    ensures
        final(out)@ == old(out)@ + debug_field_text(name@, debug_list_text(names_of(items@))),
{
    push_text(out, name);
    push_text(out, ": ");
    let shown = debug_list(items);
    assert(items@.map_values(|t: String| t@) =~= names_of(items@));
    push_text(out, shown.as_str());
    assert(final(out)@ =~= old(out)@ + debug_field_text(name@, debug_list_text(names_of(items@))));
}

/// The derived `Debug` rendering of a peer message.
pub(crate) fn debug_peer_message(m: &PeerMessage) -> (r: String)
    ensures
        r@ == peer_message_debug_text(m@),
{
    let mut out = String::new();
    match m {
        PeerMessage::LinkUpHello { from, ledger, spent } => {
            push_text(&mut out, "LinkUpHello { ");
            push_text_field(&mut out, "from", from.as_str());
            push_text(&mut out, ", ");
            push_list_field(&mut out, "ledger", ledger);
            push_text(&mut out, ", ");
            push_list_field(&mut out, "spent", spent);
        },
        PeerMessage::LinkUpAck { from, ledger, spent } => {
            push_text(&mut out, "LinkUpAck { ");
            push_text_field(&mut out, "from", from.as_str());
            push_text(&mut out, ", ");
            push_list_field(&mut out, "ledger", ledger);
            push_text(&mut out, ", ");
            push_list_field(&mut out, "spent", spent);
        },
        PeerMessage::LinkDown { from } => {
            push_text(&mut out, "LinkDown { ");
            push_text_field(&mut out, "from", from.as_str());
        },
        PeerMessage::PropagateRequest { from } => {
            push_text(&mut out, "PropagateRequest { ");
            push_text_field(&mut out, "from", from.as_str());
        },
        PeerMessage::PropagateReply { from, bearers } => {
            push_text(&mut out, "PropagateReply { ");
            push_text_field(&mut out, "from", from.as_str());
            push_text(&mut out, ", ");
            push_list_field(&mut out, "bearers", bearers);
        },
        PeerMessage::SpentNotify { from, bearer } => {
            push_text(&mut out, "SpentNotify { ");
            push_text_field(&mut out, "from", from.as_str());
            push_text(&mut out, ", ");
            push_text_field(&mut out, "bearer", bearer.as_str());
        },
        PeerMessage::StatusRequest { from } => {
            push_text(&mut out, "StatusRequest { ");
            push_text_field(&mut out, "from", from.as_str());
        },
        PeerMessage::StatusReply { from, ledger, spent } => {
            push_text(&mut out, "StatusReply { ");
            push_text_field(&mut out, "from", from.as_str());
            push_text(&mut out, ", ");
            push_list_field(&mut out, "ledger", ledger);
            push_text(&mut out, ", ");
            push_list_field(&mut out, "spent", spent);
        },
    }
    push_text(&mut out, " }");
    assert(out@ =~= peer_message_debug_text(m@));
    out
}

/// The set of the names in `items`.
fn to_set(items: Vec<String>) -> (s: NameSet)
    ensures
        s@ == names_of(items@).to_set(),
{
    NameSet::from_strings(&items)
}

/// `m` is this node's LinkUpAck: its id, ledger and spent set (sorted).
pub open spec fn is_link_up_ack_of(m: PeerMessageView, node: NodeView) -> bool {
    match m {
        PeerMessageView::LinkUpAck { from, ledger, spent } => {
            &&& from == node.id
            &&& lists_sorted(ledger, node.ledger)
            &&& lists_sorted(spent, node.spent)
        },
        _ => false,
    }
}

/// `m` is this node's PropagateReply: its id and its whole ledger (sorted).
pub open spec fn is_propagate_reply_of(m: PeerMessageView, node: NodeView) -> bool {
    match m {
        PeerMessageView::PropagateReply { from, bearers } => {
            &&& from == node.id
            &&& lists_sorted(bearers, node.ledger)
        },
        _ => false,
    }
}

/// `m` is this node's StatusReply: its id, ledger and spent set (sorted).
pub open spec fn is_status_reply_of(m: PeerMessageView, node: NodeView) -> bool {
    match m {
        PeerMessageView::StatusReply { from, ledger, spent } => {
            &&& from == node.id
            &&& lists_sorted(ledger, node.ledger)
            &&& lists_sorted(spent, node.spent)
        },
        _ => false,
    }
}

/// The messages that only ever arrive as the answer to a request we sent.
pub open spec fn is_reply_message(m: PeerMessageView) -> bool {
    ||| m is LinkUpAck
    ||| m is PropagateReply
    ||| m is StatusReply
}

/// The text of the error for a propagate request over a link that is down.
pub open spec fn no_link_text(peer: Seq<char>) -> Seq<char> {
    "no link to "@ + peer + ", cannot propagate"@
}

/// The text of the error for a reply message that arrives unasked.
pub open spec fn unsolicited_text() -> Seq<char> {
    "LinkUpAck/PropagateReply/StatusReply must only arrive as a direct reply on a connection we initiated, not as an unsolicited incoming message"@
}

/// The text of the error for a reply that is not the expected LinkUpAck.
pub open spec fn not_link_up_ack_text(got: PeerMessageView) -> Seq<char> {
    "expected LinkUpAck, got "@ + peer_message_debug_text(got)
}

/// The text of the error for a reply that is not the expected PropagateReply.
pub open spec fn not_propagate_reply_text(got: PeerMessageView) -> Seq<char> {
    "expected PropagateReply, got "@ + peer_message_debug_text(got)
}

/// Handles a message that arrived unsolicited on the peer listener, and
/// returns the reply to write back, if the protocol has one.
///
/// - LinkUpHello: merge with the sender's raw state, mark the link up, and
///   answer with this node's state from before the merge.
/// - LinkDown: mark the link down. No reply.
/// - PropagateRequest: answered with this node's whole ledger, only over a
///   link that is up; otherwise an error.
/// - SpentNotify: stop holding the bearer (without marking it spent here).
/// - StatusRequest: answered with this node's ledger and spent set.
/// - LinkUpAck, PropagateReply, StatusReply: refused as unsolicited.
pub fn handle_incoming_peer_message(state: &mut NodeShared, msg: PeerMessage) -> (r: Result<
    Option<PeerMessage>,
    StateError,
>)
    ensures
        final(state)@.node.id == old(state)@.node.id,
        final(state)@.node.spent == old(state)@.node.spent,
        msg@ is LinkUpHello ==> {
            &&& r is Ok && r->Ok_0 is Some
            &&& is_link_up_ack_of(r->Ok_0->Some_0@, old(state)@.node)
            &&& final(state)@.node.ledger == merged_ledger(
                old(state)@.node.ledger,
                old(state)@.node.spent,
                msg@->LinkUpHello_ledger.to_set(),
                msg@->LinkUpHello_spent.to_set(),
            )
            &&& final(state)@.links == old(state)@.links.insert(msg@->LinkUpHello_from, true)
        },
        msg@ is LinkDown ==> {
            &&& r is Ok && r->Ok_0 is None
            &&& final(state)@.node == old(state)@.node
            &&& final(state)@.links == old(state)@.links.insert(msg@->LinkDown_from, false)
        },
        msg@ is PropagateRequest ==> {
            &&& final(state)@ == old(state)@
            &&& link_is_up(old(state)@.links, msg@->PropagateRequest_from) ==> {
                &&& r is Ok && r->Ok_0 is Some
                &&& is_propagate_reply_of(r->Ok_0->Some_0@, old(state)@.node)
            }
            &&& !link_is_up(old(state)@.links, msg@->PropagateRequest_from) ==> {
                &&& r is Err
                &&& r->Err_0.0@ == no_link_text(msg@->PropagateRequest_from)
            }
        },
        msg@ is SpentNotify ==> {
            &&& r is Ok && r->Ok_0 is None
            &&& final(state)@.node.ledger == old(state)@.node.ledger.remove(
                msg@->SpentNotify_bearer,
            )
            &&& final(state)@.links == old(state)@.links
        },
        msg@ is StatusRequest ==> {
            &&& r is Ok && r->Ok_0 is Some
            &&& is_status_reply_of(r->Ok_0->Some_0@, old(state)@.node)
            &&& final(state)@ == old(state)@
        },
        is_reply_message(msg@) ==> {
            &&& r is Err
            &&& r->Err_0.0@ == unsolicited_text()
            &&& final(state)@ == old(state)@
        },
{
    match msg {
        PeerMessage::LinkUpHello { from, ledger, spent } => {
            let peer_ledger = to_set(ledger);
            let peer_spent = to_set(spent);
            // This node's state from before the merge: the peer needs these
            // exact inputs to compute the same merge on its side.
            let own_ledger = state.ledger_sorted();
            let own_spent = state.spent_sorted();
            let merged = state.compute_link_up_merge(&peer_ledger, &peer_spent);
            state.apply_link_up(from.as_str(), merged);
            let self_id = state.node.node_id.clone();
            Ok(Some(PeerMessage::LinkUpAck { from: self_id, ledger: own_ledger, spent: own_spent }))
        },
        PeerMessage::LinkDown { from } => {
            state.apply_link_down(from.as_str());
            Ok(None)
        },
        PeerMessage::PropagateRequest { from } => {
            if !state.is_linked(from.as_str()) {
                let mut text = text_string("no link to ");
                push_text(&mut text, from.as_str());
                push_text(&mut text, ", cannot propagate");
                return Err(StateError(text));
            }
            let self_id = state.node.node_id.clone();
            let bearers = state.ledger_sorted();
            Ok(Some(PeerMessage::PropagateReply { from: self_id, bearers }))
        },
        PeerMessage::SpentNotify { from: _, bearer } => {
            state.apply_spent_notify(bearer.as_str());
            Ok(None)
        },
        PeerMessage::StatusRequest { from: _ } => {
            let self_id = state.node.node_id.clone();
            let ledger = state.ledger_sorted();
            let spent = state.spent_sorted();
            Ok(Some(PeerMessage::StatusReply { from: self_id, ledger, spent }))
        },
        PeerMessage::LinkUpAck { .. } | PeerMessage::PropagateReply { .. }
        | PeerMessage::StatusReply { .. } => {
            Err(
                StateError(
                    text_string(
                        "LinkUpAck/PropagateReply/StatusReply must only arrive as a direct reply on a connection we initiated, not as an unsolicited incoming message",
                    ),
                ),
            )
        },
    }
}

/// Applies the LinkUpAck answering a LinkUpHello we sent: the same merge the
/// peer applied, from the same two inputs, and the link marked up.
pub fn apply_link_up_reply(state: &mut NodeShared, reply: PeerMessage) -> (r: Result<(), StateError>)
    ensures
        reply@ is LinkUpAck ==> {
            &&& r is Ok
            &&& final(state)@.node.ledger == merged_ledger(
                old(state)@.node.ledger,
                old(state)@.node.spent,
                reply@->LinkUpAck_ledger.to_set(),
                reply@->LinkUpAck_spent.to_set(),
            )
            &&& final(state)@.node.spent == old(state)@.node.spent
            &&& final(state)@.node.id == old(state)@.node.id
            &&& final(state)@.links == old(state)@.links.insert(reply@->LinkUpAck_from, true)
        },
        !(reply@ is LinkUpAck) ==> {
            &&& r is Err
            &&& r->Err_0.0@ == not_link_up_ack_text(reply@)
            &&& final(state)@ == old(state)@
        },
{
    match reply {
        PeerMessage::LinkUpAck { from, ledger, spent } => {
            let peer_ledger = to_set(ledger);
            let peer_spent = to_set(spent);
            let merged = state.compute_link_up_merge(&peer_ledger, &peer_spent);
            state.apply_link_up(from.as_str(), merged);
            Ok(())
        },
        other => {
            let mut text = text_string("expected LinkUpAck, got ");
            let d = debug_peer_message(&other);
            push_text(&mut text, d.as_str());
            Err(StateError(text))
        },
    }
}

/// Applies the PropagateReply answering a PropagateRequest we sent: the
/// peer's raw ledger is filtered here against this node's own spent set
/// and ledger, and what is left is added to the ledger.
pub fn apply_propagate_reply(state: &mut NodeShared, reply: PeerMessage) -> (r: Result<
    (),
    StateError,
>)
    ensures
        reply@ is PropagateReply ==> {
            &&& r is Ok
            &&& final(state)@.node.ledger == old(state)@.node.ledger.union(
                deliverable_from(
                    old(state)@.node.ledger,
                    old(state)@.node.spent,
                    reply@->PropagateReply_bearers.to_set(),
                ),
            )
            &&& final(state)@.node.spent == old(state)@.node.spent
            &&& final(state)@.node.id == old(state)@.node.id
            &&& final(state)@.links == old(state)@.links
        },
        !(reply@ is PropagateReply) ==> {
            &&& r is Err
            &&& r->Err_0.0@ == not_propagate_reply_text(reply@)
            &&& final(state)@ == old(state)@
        },
{
    match reply {
        PeerMessage::PropagateReply { bearers, .. } => {
            let peer_ledger = to_set(bearers);
            let deliverable = state.compute_propagate_deliverable(&peer_ledger);
            state.apply_propagate_deliverable(deliverable);
            Ok(())
        },
        other => {
            let mut text = text_string("expected PropagateReply, got ");
            let d = debug_peer_message(&other);
            push_text(&mut text, d.as_str());
            Err(StateError(text))
        },
    }
}

/// The LinkUp handshake converges. Node `a` sends a LinkUpHello carrying
/// its ledger and spent set; node `b` merges it and answers with its own
/// state from before the merge; `a` merges that answer. Afterwards both
/// ledgers are the same set, and it holds nothing either side had spent.
pub proof fn lemma_link_up_handshake_converges(
    a_pre: NodeView,
    b_pre: NodeView,
    hello: PeerMessageView,
    ack: PeerMessageView,
    a_ledger: Set<Seq<char>>,
    b_ledger: Set<Seq<char>>,
)
    requires
        hello is LinkUpHello,
        hello->LinkUpHello_ledger.to_set() == a_pre.ledger,
        hello->LinkUpHello_spent.to_set() == a_pre.spent,
        b_ledger == merged_ledger(
            b_pre.ledger,
            b_pre.spent,
            hello->LinkUpHello_ledger.to_set(),
            hello->LinkUpHello_spent.to_set(),
        ),
        is_link_up_ack_of(ack, b_pre),
        a_ledger == merged_ledger(
            a_pre.ledger,
            a_pre.spent,
            ack->LinkUpAck_ledger.to_set(),
            ack->LinkUpAck_spent.to_set(),
        ),
    ensures
        a_ledger == b_ledger,
        a_ledger == a_pre.ledger.union(b_pre.ledger).difference(a_pre.spent.union(b_pre.spent)),
        forall|x: Seq<char>| #[trigger] a_ledger.contains(x) ==> !a_pre.spent.contains(x) && !b_pre.spent.contains(x),
{
    assert(a_ledger =~= b_ledger);
}

} // verus!
