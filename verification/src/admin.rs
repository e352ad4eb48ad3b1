//! Serving one admin command on a networked node, as a state machine.
//!
//! The node's decisions live here; the talking does not. `admin_start`
//! takes the command and returns the first thing to do; after doing it,
//! the caller hands what happened to `admin_step`, which returns the next
//! thing to do, until it says `Finish` with the reply for the admin. The
//! caller sends messages to peers, waits for their replies, saves the
//! node's state when asked, and holds the node's lock around each call.
use vstd::prelude::*;

use crate::audit::{report_view, reports_conflicts, several, spenders_among, spent_among};
use crate::conversion_day_coordinator::{
    compute_conversion_day, snapshot_holders, snapshots_view, PeerSnapshot, SnapshotView,
};
use crate::names::{
    lemma_is_sorted_listing, lemma_prefix_set_step, lists_sorted, names_of, sorted_listing, NameSet,
};
use crate::node::NodeView;
use crate::peer_protocol::{
    apply_link_up_reply, apply_propagate_reply, debug_peer_message, no_link_text,
    peer_message_debug_text,
};
use crate::peers::PeerBook;
use crate::render::debug_report_text;
use crate::shared_state::{
    deliverable_from, link_is_up, merged_ledger, not_held_text, NodeShared, NodeSharedView,
};
use crate::text::{push_text, text_string};
use crate::wire::{
    AdminMessage, AdminMessageView, AdminReply, AdminReplyView, PeerMessage, PeerMessageView,
};

verus! {

/// One message for one peer, at its address.
pub struct Outgoing {
    pub peer: String,
    pub addr: String,
    pub message: PeerMessage,
}

/// What the node does next for the command it is serving.
pub enum AdminAction {
    /// Send the message and hand its one reply back as `Replied`.
    Exchange(Outgoing),
    /// Send the message, expecting no reply, and hand back `Sent`.
    Send(Outgoing),
    /// Save the node's state, then hand back `Persisted`.
    Persist,
    /// The command is over: answer the admin with this reply.
    Finish(AdminReply),
}

/// What happened when the node did what it was asked.
pub enum AdminEvent {
    /// The peer's reply, or why there was none.
    Replied(Result<PeerMessage, String>),
    /// Whether sending worked, and if not why.
    Sent(Result<(), String>),
    /// The state was saved.
    Persisted,
}

/// Where a command stands between two steps.
pub enum AdminSession {
    /// LinkUp: the hello went to `peer`; its acknowledgement is awaited.
    AwaitAck { peer: String },
    /// LinkDown: the notice to `peer` is being sent.
    AwaitLinkDownSent { peer: String },
    /// Propagate: the request went to `peer`; its reply is awaited.
    AwaitPropagateReply { peer: String },
    /// Conversion Day: the snapshots gathered so far, and the peers, of
    /// which the `next`-th is being asked for its state.
    Gathering { self_id: String, snapshots: Vec<PeerSnapshot>, peers: Vec<(String, String)>, next: usize },
    /// The state changed and is being saved; then the notices go out.
    Saving { notices: Vec<Outgoing> },
    /// The notices are going out; the `next`-th is being sent.
    Notifying { notices: Vec<Outgoing>, next: usize },
    /// Nothing more to do.
    Done,
}

/// An outgoing message as plain values: peer, address, message.
pub open spec fn outgoing_view(o: Outgoing) -> (Seq<char>, Seq<char>, PeerMessageView) {
    (o.peer@, o.addr@, o.message@)
}

/// Outgoing messages as plain values.
pub open spec fn outgoings_view(v: Seq<Outgoing>) -> Seq<(Seq<char>, Seq<char>, PeerMessageView)> {
    v.map_values(|o: Outgoing| outgoing_view(o))
}

/// (id, address) pairs as plain values.
pub open spec fn pairs_view(v: Seq<(String, String)>) -> Seq<(Seq<char>, Seq<char>)> {
    v.map_values(|e: (String, String)| (e.0@, e.1@))
}

/// `v` lists the peer book: every id once, each with its address.
pub open spec fn lists_book(v: Seq<(Seq<char>, Seq<char>)>, book: Map<Seq<char>, Seq<char>>) -> bool {
    &&& v.map_values(|e: (Seq<char>, Seq<char>)| e.0).no_duplicates()
    &&& v.map_values(|e: (Seq<char>, Seq<char>)| e.0).to_set() == book.dom()
    &&& forall|k: int| 0 <= k < v.len() ==> book[(#[trigger] v[k]).0] == v[k].1
}

/// The event answers the action.
pub open spec fn answers(a: AdminAction, e: AdminEvent) -> bool {
    match a {
        AdminAction::Exchange(_) => e is Replied,
        AdminAction::Send(_) => e is Sent,
        AdminAction::Persist => e is Persisted,
        AdminAction::Finish(_) => false,
    }
}

/// The session is waiting for an event of this kind.
pub open spec fn awaits(s: AdminSession, e: AdminEvent) -> bool {
    match s {
        AdminSession::AwaitAck { .. } => e is Replied,
        AdminSession::AwaitLinkDownSent { .. } => e is Sent,
        AdminSession::AwaitPropagateReply { .. } => e is Replied,
        AdminSession::Gathering { peers, next, .. } => e is Replied && next < peers@.len(),
        AdminSession::Saving { .. } => e is Persisted,
        AdminSession::Notifying { notices, next } => e is Sent && next < notices@.len(),
        AdminSession::Done => false,
    }
}

/// The session and the action fit together: the command is over exactly
/// when the action is `Finish`, and otherwise whatever answers the action
/// is what the session waits for.
pub open spec fn coherent(r: (AdminSession, AdminAction)) -> bool {
    &&& (r.1 is Finish <==> r.0 is Done)
    &&& forall|e: AdminEvent| #[trigger] answers(r.1, e) ==> awaits(r.0, e)
}

/// The command ends with `reply`, the state as it was.
pub open spec fn ends_with(pre: NodeSharedView, post: NodeSharedView, r: (AdminSession, AdminAction), reply: AdminReplyView) -> bool {
    &&& post == pre
    &&& r.0 is Done
    &&& r.1 matches AdminAction::Finish(rep) && rep@ == reply
}

/// The state changed; it is saved next, and then `notices` go out.
pub open spec fn saves_then_sends(r: (AdminSession, AdminAction), notices: Seq<(Seq<char>, Seq<char>, PeerMessageView)>) -> bool {
    &&& r.1 is Persist
    &&& r.0 matches AdminSession::Saving { notices: ns } && outgoings_view(ns@) == notices
}

/// The error text for a peer that is not in the book.
pub open spec fn unknown_peer_text(peer: Seq<char>) -> Seq<char> {
    "unknown peer "@ + peer
}

/// The error text for a reply of the wrong kind.
pub open spec fn unexpected_reply_text(peer: Seq<char>, got: PeerMessageView) -> Seq<char> {
    "unexpected reply from "@ + peer + ": "@ + peer_message_debug_text(got)
}

/// The notices of a spend by `from` of `bearer`: one to each of the
/// peers `ps` (in order) that the book has an address for.
pub open spec fn spend_notices(
    ps: Seq<Seq<char>>,
    book: Map<Seq<char>, Seq<char>>,
    from: Seq<char>,
    bearer: Seq<char>,
) -> Seq<(Seq<char>, Seq<char>, PeerMessageView)>
    decreases ps.len(),
{
    if ps.len() == 0 {
        Seq::empty()
    } else {
        let before = spend_notices(ps.drop_last(), book, from, bearer);
        let p = ps.last();
        if book.contains_key(p) {
            before.push((p, book[p], PeerMessageView::SpentNotify { from, bearer }))
        } else {
            before
        }
    }
}

/// The notices of a Conversion Day burn: to each peer in order, one for
/// each burned bearer in order.
pub open spec fn burn_notices(
    peers: Seq<(Seq<char>, Seq<char>)>,
    burned: Seq<Seq<char>>,
    from: Seq<char>,
) -> Seq<(Seq<char>, Seq<char>, PeerMessageView)>
    decreases peers.len(),
{
    if peers.len() == 0 {
        Seq::empty()
    } else {
        burn_notices(peers.drop_last(), burned, from) + burned.map_values(
            |b: Seq<char>| (peers.last().0, peers.last().1, PeerMessageView::SpentNotify { from, bearer: b }),
        )
    }
}

/// The state's own snapshot.
pub open spec fn own_snapshot_view(n: NodeView) -> SnapshotView {
    SnapshotView { id: n.id, ledger: n.ledger, spent: n.spent }
}

/// The error for a peer that is not in the book.
fn unknown_peer(peer: &str) -> (r: (AdminSession, AdminAction))
    ensures
        r.0 is Done,
        r.1 matches AdminAction::Finish(rep) && rep@ == (AdminReplyView::Error { detail: unknown_peer_text(peer@) }),
{
    let mut text = text_string("unknown peer ");
    push_text(&mut text, peer);
    (AdminSession::Done, AdminAction::Finish(AdminReply::Error { detail: text }))
}

/// Saving is next, then the given notices.
fn save_then(notices: Vec<Outgoing>) -> (r: (AdminSession, AdminAction))
    ensures
        saves_then_sends(r, outgoings_view(notices@)),
        coherent(r),
{
    (AdminSession::Saving { notices }, AdminAction::Persist)
}

/// The error for a reply of the wrong kind.
fn unexpected(peer: &str, got: &PeerMessage) -> (r: (AdminSession, AdminAction))
    ensures
        r.0 is Done,
        r.1 matches AdminAction::Finish(rep) && rep@ == (AdminReplyView::Error { detail: unexpected_reply_text(peer@, got@) }),
{
    let mut text = text_string("unexpected reply from ");
    push_text(&mut text, peer);
    push_text(&mut text, ": ");
    let shown = debug_peer_message(got);
    push_text(&mut text, shown.as_str());
    (AdminSession::Done, AdminAction::Finish(AdminReply::Error { detail: text }))
}

/// The command ends with the error `detail`.
fn fail(detail: String) -> (r: (AdminSession, AdminAction))
    ensures
        r.0 is Done,
        r.1 matches AdminAction::Finish(rep) && rep@ == (AdminReplyView::Error { detail: detail@ }),
{
    (AdminSession::Done, AdminAction::Finish(AdminReply::Error { detail }))
}

/// The notices of a spend of `bearer` by `from`, to each of `connected`
/// the book has an address for.
fn spend_notices_for(connected: &Vec<String>, peers: &PeerBook, from: &String, bearer: &String) -> (v: Vec<Outgoing>)
    ensures
        outgoings_view(v@) == spend_notices(names_of(connected@), peers@, from@, bearer@),
{
    let ghost ps = names_of(connected@);
    let mut v: Vec<Outgoing> = Vec::new();
    let mut k: usize = 0;
    assert(ps.take(0) =~= Seq::<Seq<char>>::empty());
    while k < connected.len()
        invariant
            ps == names_of(connected@),
            k <= connected@.len(),
            outgoings_view(v@) == spend_notices(ps.take(k as int), peers@, from@, bearer@),
        decreases connected.len() - k,
    {
        let ghost prev = v@;
        let ghost upto = ps.take(k + 1);
        proof {
            assert(upto.drop_last() =~= ps.take(k as int));
            assert(upto.last() == connected@[k as int]@);
        }
        match peers.address(connected[k].as_str()) {
            Some(addr) => {
                let message = PeerMessage::SpentNotify { from: from.clone(), bearer: bearer.clone() };
                v.push(Outgoing { peer: connected[k].clone(), addr, message });
                assert(outgoings_view(v@) =~= outgoings_view(prev).push(outgoing_view(v@[prev.len() as int])));
            },
            None => {},
        }
        assert(outgoings_view(v@) =~= spend_notices(upto, peers@, from@, bearer@));
        k = k + 1;
    }
    assert(ps.take(connected@.len() as int) =~= ps);
    v
}

/// The notices of a Conversion Day burn of `burned` by `from`: to each of
/// `peers` in order, one for each burned bearer in order.
fn burn_notices_for(peers: &Vec<(String, String)>, burned: &Vec<String>, from: &String) -> (v: Vec<Outgoing>)
    ensures
        outgoings_view(v@) == burn_notices(pairs_view(peers@), names_of(burned@), from@),
{
    let ghost ps = pairs_view(peers@);
    let ghost bs = names_of(burned@);
    let mut v: Vec<Outgoing> = Vec::new();
    let mut k: usize = 0;
    assert(ps.take(0) =~= Seq::<(Seq<char>, Seq<char>)>::empty());
    while k < peers.len()
        invariant
            ps == pairs_view(peers@),
            bs == names_of(burned@),
            k <= peers@.len(),
            outgoings_view(v@) == burn_notices(ps.take(k as int), bs, from@),
        decreases peers.len() - k,
    {
        let ghost start = outgoings_view(v@);
        let ghost target = ps[k as int];
        let mut m: usize = 0;
        while m < burned.len()
            invariant
                ps == pairs_view(peers@),
                bs == names_of(burned@),
                k < peers@.len(),
                target == ps[k as int],
                m <= burned@.len(),
                outgoings_view(v@) == start + bs.take(m as int).map_values(
                    |b: Seq<char>| (target.0, target.1, PeerMessageView::SpentNotify { from: from@, bearer: b }),
                ),
            decreases burned.len() - m,
        {
            let ghost prev = outgoings_view(v@);
            let message = PeerMessage::SpentNotify { from: from.clone(), bearer: burned[m].clone() };
            v.push(Outgoing { peer: peers[k].0.clone(), addr: peers[k].1.clone(), message });
            proof {
                assert(outgoings_view(v@) =~= prev.push(
                    (target.0, target.1, PeerMessageView::SpentNotify { from: from@, bearer: bs[m as int] }),
                ));
                assert(bs.take(m + 1).map_values(
                    |b: Seq<char>| (target.0, target.1, PeerMessageView::SpentNotify { from: from@, bearer: b }),
                ) =~= bs.take(m as int).map_values(
                    |b: Seq<char>| (target.0, target.1, PeerMessageView::SpentNotify { from: from@, bearer: b }),
                ).push((target.0, target.1, PeerMessageView::SpentNotify { from: from@, bearer: bs[m as int] })));
            }
            m = m + 1;
        }
        proof {
            let upto = ps.take(k + 1);
            assert(upto.drop_last() =~= ps.take(k as int));
            assert(upto.last() == target);
            assert(bs.take(burned@.len() as int) =~= bs);
        }
        k = k + 1;
    }
    assert(ps.take(peers@.len() as int) =~= ps);
    v
}

/// How a Conversion Day ends once the snapshots `snaps` of this node and
/// of every peer are in: refused,
/// with the state as it was, when some bearer was spent by more than one
/// node; otherwise every bearer any node spent leaves this node's ledger,
/// the state is saved, and each peer is told of each burned bearer.
pub open spec fn concluded(
    pre: NodeSharedView,
    post: NodeSharedView,
    snaps: Seq<SnapshotView>,
    peers: Seq<(Seq<char>, Seq<char>)>,
    from: Seq<char>,
    r: (AdminSession, AdminAction),
) -> bool {
    let hv = snapshot_holders(snaps);
    if exists|b: Seq<char>| several(#[trigger] spenders_among(hv, b)) {
        &&& post == pre
        &&& r.0 is Done
        &&& r.1 matches AdminAction::Finish(rep) && rep@ is Error
        &&& exists|report: Seq<(Seq<char>, Seq<Seq<char>>)>| reports_conflicts(report, |b: Seq<char>| spenders_among(hv, b))
            && r.1->Finish_0@->Error_detail == "double-spend detected during distributed reconciliation: "@
            + debug_report_text(report)
    } else {
        &&& post.node == (NodeView { ledger: pre.node.ledger.difference(spent_among(hv)), ..pre.node })
        &&& post.links == pre.links
        &&& saves_then_sends(r, burn_notices(peers, sorted_listing(spent_among(hv)), from))
    }
}

/// Ends a Conversion Day over the gathered snapshots.
fn conclude(state: &mut NodeShared, self_id: String, snapshots: Vec<PeerSnapshot>, peers: Vec<(String, String)>) -> (r: (
    AdminSession,
    AdminAction,
))
    ensures
        concluded(old(state)@, final(state)@, snapshots_view(snapshots@), pairs_view(peers@), self_id@, r),
        coherent(r),
{
    let ghost hv = snapshot_holders(snapshots_view(snapshots@));
    match compute_conversion_day(snapshots.as_slice()) {
        Err(conflict) => {
            let detail = conflict.message();
            proof {
                assert(reports_conflicts(report_view(conflict.violations@), |b: Seq<char>| spenders_among(hv, b)));
            }
            fail(detail)
        },
        Ok(burn) => {
            let burned = burn.to_vec();
            proof {
                lemma_is_sorted_listing(names_of(burned@), spent_among(hv));
            }
            let ghost pre = state@;
            let mut k: usize = 0;
            assert(names_of(burned@).take(0).to_set() =~= Set::<Seq<char>>::empty());
            assert(pre.node.ledger.difference(Set::<Seq<char>>::empty()) =~= pre.node.ledger);
            while k < burned.len()
                invariant
                    k <= burned@.len(),
                    state@.node == (NodeView {
                        ledger: pre.node.ledger.difference(names_of(burned@).take(k as int).to_set()),
                        ..pre.node
                    }),
                    state@.links == pre.links,
                decreases burned.len() - k,
            {
                state.apply_spent_notify(burned[k].as_str());
                proof {
                    lemma_prefix_set_step(names_of(burned@), k as int);
                    assert(pre.node.ledger.difference(names_of(burned@).take(k as int).to_set()).remove(burned@[k as int]@)
                        =~= pre.node.ledger.difference(names_of(burned@).take(k + 1).to_set()));
                }
                k = k + 1;
            }
            assert(names_of(burned@).take(burned@.len() as int) =~= names_of(burned@));
            let notices = burn_notices_for(&peers, &burned, &self_id);
            save_then(notices)
        },
    }
}

/// The peers whose link is up.
pub open spec fn up_peers(links: Map<Seq<char>, bool>) -> Set<Seq<char>> {
    Set::new(|p: Seq<char>| link_is_up(links, p))
}

/// What starting the command `msg` does, from state `pre` (to `post`)
/// with the peer book `book`, returning `r`.
pub open spec fn start_done(
    pre: NodeSharedView,
    post: NodeSharedView,
    book: Map<Seq<char>, Seq<char>>,
    msg: AdminMessageView,
    r: (AdminSession, AdminAction),
) -> bool {
    let id = pre.node.id;
    match msg {
        AdminMessageView::LinkUp { peer } => if !book.contains_key(peer) {
            ends_with(pre, post, r, AdminReplyView::Error { detail: unknown_peer_text(peer) })
        } else {
            &&& post == pre
            &&& r.0 matches AdminSession::AwaitAck { peer: p } && p@ == peer
            &&& r.1 matches AdminAction::Exchange(o) && o.peer@ == peer && o.addr@ == book[peer] && (
            o.message@ matches PeerMessageView::LinkUpHello { from, ledger, spent } && from == id
                && lists_sorted(ledger, pre.node.ledger) && lists_sorted(spent, pre.node.spent))
        },
        AdminMessageView::LinkDown { peer } => if !book.contains_key(peer) {
            ends_with(pre, post, r, AdminReplyView::Error { detail: unknown_peer_text(peer) })
        } else {
            &&& post == pre
            &&& r.0 matches AdminSession::AwaitLinkDownSent { peer: p } && p@ == peer
            &&& r.1 matches AdminAction::Send(o) && outgoing_view(o) == (peer, book[peer], PeerMessageView::LinkDown { from: id })
        },
        AdminMessageView::Propagate { peer } => if !book.contains_key(peer) {
            ends_with(pre, post, r, AdminReplyView::Error { detail: unknown_peer_text(peer) })
        } else if !link_is_up(pre.links, peer) {
            ends_with(pre, post, r, AdminReplyView::Error { detail: no_link_text(peer) })
        } else {
            &&& post == pre
            &&& r.0 matches AdminSession::AwaitPropagateReply { peer: p } && p@ == peer
            &&& r.1 matches AdminAction::Exchange(o) && outgoing_view(o) == (
                peer,
                book[peer],
                PeerMessageView::PropagateRequest { from: id },
            )
        },
        AdminMessageView::SpendAt { bearer } => if !pre.node.ledger.contains(bearer) {
            ends_with(pre, post, r, AdminReplyView::Error { detail: not_held_text(id, bearer) })
        } else {
            &&& post.node == (NodeView {
                ledger: pre.node.ledger.remove(bearer),
                spent: pre.node.spent.insert(bearer),
                ..pre.node
            })
            &&& post.links == pre.links
            &&& saves_then_sends(r, spend_notices(sorted_listing(up_peers(pre.links)), book, id, bearer))
        },
        AdminMessageView::Status => {
            &&& post == pre
            &&& r.0 is Done
            &&& r.1 matches AdminAction::Finish(rep) && rep@ matches AdminReplyView::StatusReport {
                node_id,
                ledger,
                spent,
                links,
            } && node_id == id && lists_sorted(ledger, pre.node.ledger) && lists_sorted(spent, pre.node.spent)
                && lists_sorted(links, up_peers(pre.links))
        },
        AdminMessageView::Seed { bearer } => {
            &&& post.node == (NodeView { ledger: pre.node.ledger.insert(bearer), ..pre.node })
            &&& post.links == pre.links
            &&& saves_then_sends(r, Seq::empty())
        },
        AdminMessageView::ConversionDay => if book.dom().len() == 0 {
            concluded(pre, post, seq![own_snapshot_view(pre.node)], Seq::empty(), id, r)
        } else {
            &&& post == pre
            &&& r.0 matches AdminSession::Gathering { self_id, snapshots, peers, next } && self_id@ == id
                && snapshots_view(snapshots@) == seq![own_snapshot_view(pre.node)] && lists_book(pairs_view(peers@), book)
                && next == 0 && peers@.len() > 0 && (r.1 matches AdminAction::Exchange(o) && outgoing_view(o) == (
                peers@[0].0@,
                peers@[0].1@,
                PeerMessageView::StatusRequest { from: id },
            ))
        },
    }
}

/// Starts a Conversion Day: this node's own snapshot first, then each
/// peer of the book is asked for its state in turn. Settling needs every
/// known peer: one that cannot be reached, or answers with anything but
/// its state, ends the day with an error, nothing burned and nothing saved.
fn start_conversion_day(state: &mut NodeShared, peers: &PeerBook) -> (r: (AdminSession, AdminAction))
    ensures
        start_done(old(state)@, final(state)@, peers@, AdminMessageView::ConversionDay, r),
        coherent(r),
{
    let self_id = state.node.node_id.clone();
    let own = PeerSnapshot { node_id: self_id.clone(), ledger: state.node.ledger.clone(), spent: state.node.spent.clone() };
    let mut snapshots: Vec<PeerSnapshot> = Vec::new();
    snapshots.push(own);
    assert(snapshots_view(snapshots@) =~= seq![own_snapshot_view(state@.node)]);
    let list = peers.entries();
    proof {
        let ids = list@.map_values(|e: (String, String)| e.0@);
        let pv = pairs_view(list@);
        assert(pv.map_values(|e: (Seq<char>, Seq<char>)| e.0) =~= ids);
        assert forall|k: int| 0 <= k < pv.len() implies peers@[(#[trigger] pv[k]).0] == pv[k].1 by {
            assert(pv[k] == (list@[k].0@, list@[k].1@));
        }
        ids.unique_seq_to_set();
    }
    if list.len() > 0 {
        let out = Outgoing {
            peer: list[0].0.clone(),
            addr: list[0].1.clone(),
            message: PeerMessage::StatusRequest { from: self_id.clone() },
        };
        (AdminSession::Gathering { self_id, snapshots, peers: list, next: 0 }, AdminAction::Exchange(out))
    } else {
        assert(pairs_view(list@) =~= Seq::<(Seq<char>, Seq<char>)>::empty());
        conclude(state, self_id, snapshots, list)
    }
}

/// Starts serving the admin command `msg` with the peer book `peers`.
pub fn admin_start(state: &mut NodeShared, peers: &PeerBook, msg: AdminMessage) -> (r: (AdminSession, AdminAction))
    ensures
        start_done(old(state)@, final(state)@, peers@, msg@, r),
        coherent(r),
{
    match msg {
        AdminMessage::LinkUp { peer } => match peers.address(peer.as_str()) {
            None => unknown_peer(peer.as_str()),
            Some(addr) => {
                let hello = PeerMessage::LinkUpHello {
                    from: state.node.node_id.clone(),
                    ledger: state.ledger_sorted(),
                    spent: state.spent_sorted(),
                };
                let out = Outgoing { peer: peer.clone(), addr, message: hello };
                (AdminSession::AwaitAck { peer }, AdminAction::Exchange(out))
            },
        },
        AdminMessage::LinkDown { peer } => match peers.address(peer.as_str()) {
            None => unknown_peer(peer.as_str()),
            Some(addr) => {
                let notice = PeerMessage::LinkDown { from: state.node.node_id.clone() };
                let out = Outgoing { peer: peer.clone(), addr, message: notice };
                (AdminSession::AwaitLinkDownSent { peer }, AdminAction::Send(out))
            },
        },
        AdminMessage::Propagate { peer } => match peers.address(peer.as_str()) {
            None => unknown_peer(peer.as_str()),
            Some(addr) => {
                if !state.is_linked(peer.as_str()) {
                    let mut text = text_string("no link to ");
                    push_text(&mut text, peer.as_str());
                    push_text(&mut text, ", cannot propagate");
                    return fail(text);
                }
                let request = PeerMessage::PropagateRequest { from: state.node.node_id.clone() };
                let out = Outgoing { peer: peer.clone(), addr, message: request };
                (AdminSession::AwaitPropagateReply { peer }, AdminAction::Exchange(out))
            },
        },
        AdminMessage::SpendAt { bearer } => match state.local_spend(bearer.as_str()) {
            Err(e) => fail(e.0),
            Ok(()) => {
                let from = state.node.node_id.clone();
                let connected = state.connected_peers();
                proof {
                    lemma_is_sorted_listing(names_of(connected@), up_peers(state@.links));
                }
                let notices = spend_notices_for(&connected, peers, &from, &bearer);
                save_then(notices)
            },
        },
        AdminMessage::Status => {
            let node_id = state.node.node_id.clone();
            let ledger = state.ledger_sorted();
            let spent = state.spent_sorted();
            let links = state.connected_peers();
            (AdminSession::Done, AdminAction::Finish(AdminReply::StatusReport { node_id, ledger, spent, links }))
        },
        AdminMessage::Seed { bearer } => {
            state.node.ledger.insert(bearer);
            let notices: Vec<Outgoing> = Vec::new();
            assert(outgoings_view(notices@) =~= Seq::<(Seq<char>, Seq<char>, PeerMessageView)>::empty());
            save_then(notices)
        },
        AdminMessage::ConversionDay => start_conversion_day(state, peers),
    }
}

/// The error text for a Conversion Day peer that could not be reached:
/// settling needs every known peer.
pub open spec fn quorum_unreachable_text(peer: Seq<char>, why: Seq<char>) -> Seq<char> {
    "Conversion Day needs every known peer, and "@ + peer + " is unreachable: "@ + why
}

/// The error text for a Conversion Day peer that answered with something
/// other than its state: settling needs every known peer.
pub open spec fn quorum_bad_reply_text(peer: Seq<char>, got: PeerMessageView) -> Seq<char> {
    "Conversion Day needs every known peer, and "@ + peer + " did not report its state: "@
        + peer_message_debug_text(got)
}

/// The state is as it was, and the command ends with success.
pub open spec fn ends_well(pre: NodeSharedView, post: NodeSharedView, r: (AdminSession, AdminAction)) -> bool {
    ends_with(pre, post, r, AdminReplyView::Success)
}

/// What handing `event` to `session` does, from state `pre` (to `post`),
/// returning `r`.
pub open spec fn step_done(
    pre: NodeSharedView,
    post: NodeSharedView,
    session: AdminSession,
    event: AdminEvent,
    r: (AdminSession, AdminAction),
) -> bool {
    match session {
        AdminSession::AwaitAck { peer } => match event {
            AdminEvent::Replied(Ok(m)) => match m@ {
                PeerMessageView::LinkUpAck { from, ledger, spent } => {
                    &&& post.node == (NodeView {
                        ledger: merged_ledger(pre.node.ledger, pre.node.spent, ledger.to_set(), spent.to_set()),
                        ..pre.node
                    })
                    &&& post.links == pre.links.insert(from, true)
                    &&& saves_then_sends(r, Seq::empty())
                },
                _ => ends_with(pre, post, r, AdminReplyView::Error { detail: unexpected_reply_text(peer@, m@) }),
            },
            AdminEvent::Replied(Err(e)) => ends_with(pre, post, r, AdminReplyView::Error { detail: e@ }),
            _ => true,
        },
        AdminSession::AwaitLinkDownSent { peer } => match event {
            AdminEvent::Sent(Ok(())) => {
                &&& post.node == pre.node
                &&& post.links == pre.links.insert(peer@, false)
                &&& saves_then_sends(r, Seq::empty())
            },
            AdminEvent::Sent(Err(e)) => ends_with(pre, post, r, AdminReplyView::Error { detail: e@ }),
            _ => true,
        },
        AdminSession::AwaitPropagateReply { peer } => match event {
            AdminEvent::Replied(Ok(m)) => match m@ {
                PeerMessageView::PropagateReply { bearers, .. } => {
                    &&& post.node == (NodeView {
                        ledger: pre.node.ledger.union(
                            deliverable_from(pre.node.ledger, pre.node.spent, bearers.to_set()),
                        ),
                        ..pre.node
                    })
                    &&& post.links == pre.links
                    &&& saves_then_sends(r, Seq::empty())
                },
                _ => ends_with(pre, post, r, AdminReplyView::Error { detail: unexpected_reply_text(peer@, m@) }),
            },
            AdminEvent::Replied(Err(e)) => ends_with(pre, post, r, AdminReplyView::Error { detail: e@ }),
            _ => true,
        },
        AdminSession::Gathering { self_id, snapshots, peers, next } => match event {
            AdminEvent::Replied(Ok(m)) => match m@ {
                PeerMessageView::StatusReply { ledger, spent, .. } => {
                    let snaps = snapshots_view(snapshots@).push(
                        SnapshotView { id: peers@[next as int].0@, ledger: ledger.to_set(), spent: spent.to_set() },
                    );
                    if next + 1 < peers@.len() {
                        &&& post == pre
                        &&& r.0 matches AdminSession::Gathering { self_id: s2, snapshots: sn2, peers: p2, next: n2 }
                            && s2@ == self_id@ && snapshots_view(sn2@) == snaps && pairs_view(p2@) == pairs_view(
                            peers@,
                        ) && n2 == next + 1
                        &&& r.1 matches AdminAction::Exchange(o) && outgoing_view(o) == (
                            peers@[next + 1].0@,
                            peers@[next + 1].1@,
                            PeerMessageView::StatusRequest { from: self_id@ },
                        )
                    } else {
                        concluded(pre, post, snaps, pairs_view(peers@), self_id@, r)
                    }
                },
                _ => ends_with(
                    pre,
                    post,
                    r,
                    AdminReplyView::Error { detail: quorum_bad_reply_text(peers@[next as int].0@, m@) },
                ),
            },
            AdminEvent::Replied(Err(e)) => ends_with(
                pre,
                post,
                r,
                AdminReplyView::Error { detail: quorum_unreachable_text(peers@[next as int].0@, e@) },
            ),
            _ => true,
        },
        AdminSession::Saving { notices } => {
            &&& post == pre
            &&& if notices@.len() == 0 {
                ends_well(pre, post, r)
            } else {
                &&& r.0 matches AdminSession::Notifying { notices: n2, next: k } && outgoings_view(n2@)
                    == outgoings_view(notices@) && k == 0
                &&& r.1 matches AdminAction::Send(o) && outgoing_view(o) == outgoing_view(notices@[0])
            }
        },
        AdminSession::Notifying { notices, next } => {
            &&& post == pre
            &&& if next + 1 < notices@.len() {
                &&& r.0 matches AdminSession::Notifying { notices: n2, next: k } && outgoings_view(n2@)
                    == outgoings_view(notices@) && k == next + 1
                &&& r.1 matches AdminAction::Send(o) && outgoing_view(o) == outgoing_view(notices@[next + 1])
            } else {
                ends_well(pre, post, r)
            }
        },
        AdminSession::Done => true,
    }
}

/// A copy of an outgoing message.
fn copy_outgoing(o: &Outgoing) -> (c: Outgoing)
    ensures
        outgoing_view(c) == outgoing_view(*o),
{
    Outgoing { peer: o.peer.clone(), addr: o.addr.clone(), message: o.message.clone() }
}

/// Hands what happened to the command in progress; returns where it now
/// stands and what to do next.
pub fn admin_step(state: &mut NodeShared, session: AdminSession, event: AdminEvent) -> (r: (AdminSession, AdminAction))
    requires
        awaits(session, event),
    ensures
        step_done(old(state)@, final(state)@, session, event, r),
        coherent(r),
{
    match session {
        AdminSession::AwaitAck { peer } => match event {
            AdminEvent::Replied(Ok(m)) => match m {
                PeerMessage::LinkUpAck { from, ledger, spent } => {
                    let ack = PeerMessage::LinkUpAck { from, ledger, spent };
                    match apply_link_up_reply(state, ack) {
                        Ok(()) => {
                            let notices: Vec<Outgoing> = Vec::new();
                            assert(outgoings_view(notices@) =~= Seq::<(Seq<char>, Seq<char>, PeerMessageView)>::empty());
                            save_then(notices)
                        },
                        Err(e) => fail(e.0),
                    }
                },
                other => unexpected(peer.as_str(), &other),
            },
            AdminEvent::Replied(Err(e)) => fail(e),
            _ => {
                proof {
                    assert(false);
                }
                (AdminSession::Done, AdminAction::Persist)
            },
        },
        AdminSession::AwaitLinkDownSent { peer } => match event {
            AdminEvent::Sent(Ok(())) => {
                state.apply_link_down(peer.as_str());
                let notices: Vec<Outgoing> = Vec::new();
                assert(outgoings_view(notices@) =~= Seq::<(Seq<char>, Seq<char>, PeerMessageView)>::empty());
                save_then(notices)
            },
            AdminEvent::Sent(Err(e)) => fail(e),
            _ => {
                proof {
                    assert(false);
                }
                (AdminSession::Done, AdminAction::Persist)
            },
        },
        AdminSession::AwaitPropagateReply { peer } => match event {
            AdminEvent::Replied(Ok(m)) => match m {
                PeerMessage::PropagateReply { from, bearers } => {
                    let reply = PeerMessage::PropagateReply { from, bearers };
                    match apply_propagate_reply(state, reply) {
                        Ok(()) => {
                            let notices: Vec<Outgoing> = Vec::new();
                            assert(outgoings_view(notices@) =~= Seq::<(Seq<char>, Seq<char>, PeerMessageView)>::empty());
                            save_then(notices)
                        },
                        Err(e) => fail(e.0),
                    }
                },
                other => unexpected(peer.as_str(), &other),
            },
            AdminEvent::Replied(Err(e)) => fail(e),
            _ => {
                proof {
                    assert(false);
                }
                (AdminSession::Done, AdminAction::Persist)
            },
        },
        AdminSession::Gathering { self_id, snapshots, peers, next } => match event {
            AdminEvent::Replied(Ok(PeerMessage::StatusReply { from: _, ledger, spent })) => {
                let ghost snaps = snapshots_view(snapshots@).push(
                    SnapshotView { id: peers@[next as int].0@, ledger: names_of(ledger@).to_set(), spent: names_of(spent@).to_set() },
                );
                let mut snapshots = snapshots;
                let snap = PeerSnapshot {
                    node_id: peers[next].0.clone(),
                    ledger: NameSet::from_strings(&ledger),
                    spent: NameSet::from_strings(&spent),
                };
                snapshots.push(snap);
                assert(snapshots_view(snapshots@) =~= snaps);
                let count = peers.len();
                if next + 1 < count {
                    let out = Outgoing {
                        peer: peers[next + 1].0.clone(),
                        addr: peers[next + 1].1.clone(),
                        message: PeerMessage::StatusRequest { from: self_id.clone() },
                    };
                    (AdminSession::Gathering { self_id, snapshots, peers, next: next + 1 }, AdminAction::Exchange(out))
                } else {
                    conclude(state, self_id, snapshots, peers)
                }
            },
            AdminEvent::Replied(Ok(other)) => {
                let mut text = text_string("Conversion Day needs every known peer, and ");
                push_text(&mut text, peers[next].0.as_str());
                push_text(&mut text, " did not report its state: ");
                let shown = debug_peer_message(&other);
                push_text(&mut text, shown.as_str());
                fail(text)
            },
            AdminEvent::Replied(Err(why)) => {
                let mut text = text_string("Conversion Day needs every known peer, and ");
                push_text(&mut text, peers[next].0.as_str());
                push_text(&mut text, " is unreachable: ");
                push_text(&mut text, why.as_str());
                fail(text)
            },
            _ => {
                proof {
                    assert(false);
                }
                (AdminSession::Done, AdminAction::Persist)
            },
        },
        AdminSession::Saving { notices } => {
            if notices.len() == 0 {
                (AdminSession::Done, AdminAction::Finish(AdminReply::Success))
            } else {
                let out = copy_outgoing(&notices[0]);
                proof {
                    assert(outgoings_view(notices@)[0] == outgoing_view(notices@[0]));
                }
                (AdminSession::Notifying { notices, next: 0 }, AdminAction::Send(out))
            }
        },
        AdminSession::Notifying { notices, next } => {
            let count = notices.len();
            if next + 1 < count {
                let out = copy_outgoing(&notices[next + 1]);
                (AdminSession::Notifying { notices, next: next + 1 }, AdminAction::Send(out))
            } else {
                (AdminSession::Done, AdminAction::Finish(AdminReply::Success))
            }
        },
        AdminSession::Done => {
            proof {
                assert(false);
            }
            (AdminSession::Done, AdminAction::Persist)
        },
    }
}

/// An admin command that ends in an error leaves the node's state as it
/// was, whether it ends at the start or at a later step.
pub proof fn lemma_admin_errors_change_nothing(
    pre: NodeSharedView,
    post: NodeSharedView,
    book: Map<Seq<char>, Seq<char>>,
    msg: AdminMessageView,
    session: AdminSession,
    event: AdminEvent,
    r: (AdminSession, AdminAction),
)
    requires
        start_done(pre, post, book, msg, r) || (awaits(session, event) && step_done(pre, post, session, event, r)),
        r.1 matches AdminAction::Finish(rep) && rep@ is Error,
    ensures
        post == pre,
{
}

/// A link-down command for a known peer whose notice went out leaves the
/// node no longer linked to that peer; its holdings stay as they were and
/// the state is saved next.
pub proof fn lemma_link_down_unlinks(pre: NodeSharedView, post: NodeSharedView, peer: String, r: (AdminSession, AdminAction))
    requires
        step_done(pre, post, AdminSession::AwaitLinkDownSent { peer }, AdminEvent::Sent(Ok(())), r),
    ensures
        !link_is_up(post.links, peer@),
        forall|p: Seq<char>| p != peer@ ==> link_is_up(post.links, p) == link_is_up(pre.links, p),
        post.node == pre.node,
        r.1 is Persist,
{
}

} // verus!
