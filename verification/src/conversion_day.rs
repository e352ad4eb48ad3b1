//! Conversion Day: a coordinated settlement barrier over the centralized
//! network model.
//!
//! The coordinator gathers the spent set of every participating node at
//! once. A bearer spent by more than one of them is a double spend that
//! already happened: the barrier refuses, changes nothing, and reports it.
//! Otherwise every bearer any participant has spent is burned from every
//! participant's ledger, so the participants end the call mutually
//! consistent. Nodes that do not take part are left untouched; nothing is
//! claimed about when they will catch up.
use vstd::prelude::*;

use crate::audit::{
    all_spent, find_conflicts, holders_view, lemma_report_unique, report_view, reports_conflicts, several,
    spenders_among,
    spent_among,
};
use crate::conversion_day_coordinator::{snapshot_holders, SnapshotView};
use crate::names::{lemma_is_sorted_listing, lists_sorted, names_of, sorted_listing, NameSet};
use crate::network::{
    burned_nodes, participants_of, spenders_in, spent_in, unsynced, Network, NetworkView,
};
use crate::render::{debug_list, debug_list_text, debug_report, debug_report_text};
use crate::text::{push_text, text_string};

verus! {

/// Conversion Day found bearers spent by more than one participating node:
/// each such bearer with the ids of its spenders, in increasing order.
#[derive(Debug)]
pub struct DoubleSpendDetected {
    pub violations: Vec<(String, Vec<String>)>,
}

impl DoubleSpendDetected {
    /// The human-readable description of the conflict.
    pub fn message(&self) -> (s: String)
        ensures
            s@ == "double-spend detected during reconciliation: "@ + debug_report_text(
                report_view(self.violations@),
            ),
    {
        let mut s = text_string("double-spend detected during reconciliation: ");
        let report = debug_report(&self.violations);
        push_text(&mut s, report.as_str());
        s
    }
}

/// Some bearer was spent by several of the nodes of `p`.
pub open spec fn has_conflict(v: NetworkView, p: Set<Seq<char>>) -> bool {
    exists|b: Seq<char>| several(#[trigger] spenders_in(v, p, b))
}

/// The audit-trail detail of a Conversion Day: the participants and the
/// cleared bearers, each listed in increasing order.
pub open spec fn conversion_day_detail(participants: Seq<Seq<char>>, cleared: Seq<Seq<char>>) -> Seq<char> {
    "participants="@ + debug_list_text(participants) + ", cleared="@ + debug_list_text(cleared)
}

/// `post` is `pre` after a successful Conversion Day over the nodes `p`:
/// every node of `p` has dropped from its ledger everything the nodes of
/// `p` have spent, nothing else changed, and the event is logged.
pub open spec fn conversion_day_done(pre: NetworkView, post: NetworkView, p: Set<Seq<char>>) -> bool {
    &&& post.nodes == burned_nodes(pre, p, spent_in(pre, p))
    &&& post.up == pre.up
    &&& post.log == pre.log.push(
        ("ConversionDay"@, conversion_day_detail(sorted_listing(p), sorted_listing(spent_in(pre, p)))),
    )
}

/// No node of `p` holds a bearer that some node of `p` has spent.
pub open spec fn barrier_safe(v: NetworkView, p: Set<Seq<char>>) -> bool {
    forall|id: Seq<char>, b: Seq<char>| p.contains(id) && v.nodes.contains_key(id) && #[trigger] v.nodes[id].ledger.contains(b)
        ==> !spent_in(v, p).contains(b)
}

/// Performs one global reconciliation over `participants` (every node
/// when `None`; ids that name no node are ignored but listed in the log).
///
/// Refuses with the conflicting bearers, changing nothing, when some
/// bearer was spent by more than one participating node. Otherwise burns
/// every bearer a participant has spent from every participant's ledger
/// and logs the event.
pub fn run_conversion_day(net: &mut Network, participants: Option<&NameSet>) -> (r: Result<
    (),
    DoubleSpendDetected,
>)
    requires
        old(net).wf(),
    ensures
        final(net).wf(),
        r is Err <==> has_conflict(old(net)@, participants_of(old(net)@, participants)),
        r is Err ==> final(net)@ == old(net)@ && reports_conflicts(
            report_view(r->Err_0.violations@),
            |b: Seq<char>| spenders_in(old(net)@, participants_of(old(net)@, participants), b),
        ),
        r is Ok ==> conversion_day_done(old(net)@, final(net)@, participants_of(old(net)@, participants)),
{
    let ghost pre = net@;
    let ghost pset = participants_of(pre, participants);
    let holders = net.spent_holders(participants);
    let (violations, cleared) = find_conflicts(&holders);
    let ghost found = |b: Seq<char>| spenders_among(holders_view(holders@), b);
    let ghost wanted = |b: Seq<char>| spenders_in(pre, pset, b);
    proof {
        assert(found =~= wanted);
        assert(reports_conflicts(report_view(violations@), wanted));
    }
    if violations.len() > 0 {
        proof {
            let e = report_view(violations@)[0];
            assert(report_view(violations@).len() > 0);
            assert(lists_sorted(e.1, wanted(e.0)) && several(wanted(e.0)));
            assert(several(spenders_in(pre, pset, e.0)));
        }
        return Err(DoubleSpendDetected { violations });
    }
    proof {
        if has_conflict(pre, pset) {
            let b = choose|b: Seq<char>| several(#[trigger] spenders_in(pre, pset, b));
            assert(several(wanted(b)));
        }
    }
    let listed = match participants {
        Some(p) => p.to_vec(),
        None => net.sorted_ids(),
    };
    proof {
        lemma_is_sorted_listing(names_of(listed@), pset);
    }
    let cleared_list = cleared.to_vec();
    proof {
        lemma_is_sorted_listing(names_of(cleared_list@), spent_in(pre, pset));
    }
    net.burn_participants(participants, &cleared);
    let mut detail = text_string("participants=");
    let shown = debug_list(&listed);
    push_text(&mut detail, shown.as_str());
    push_text(&mut detail, ", cleared=");
    let shown_cleared = debug_list(&cleared_list);
    push_text(&mut detail, shown_cleared.as_str());
    proof {
        assert(listed@.map_values(|t: String| t@) =~= names_of(listed@));
        assert(cleared_list@.map_values(|t: String| t@) =~= names_of(cleared_list@));
        assert(detail@ =~= conversion_day_detail(sorted_listing(pset), sorted_listing(spent_in(pre, pset))));
    }
    net.append_log("ConversionDay", detail);
    Ok(())
}

/// The safety check to run right after a Conversion Day: true exactly when
/// no node in `participants` (every node when `None`) holds a bearer that
/// some node in `participants` has spent.
pub fn check_post_barrier_safety(net: &Network, participants: Option<&NameSet>) -> (r: bool)
    requires
        net.wf(),
    ensures
        r == barrier_safe(net@, participants_of(net@, participants)),
{
    let holders = net.spent_holders(participants);
    let spent = all_spent(&holders);
    let held = net.participants_hold_any(participants, &spent);
    !held
}

/// A successful Conversion Day leaves its participants safe: afterwards
/// no participant holds a bearer any participant has spent, so
/// `check_post_barrier_safety` with the same participants returns true.
pub proof fn lemma_conversion_day_leaves_participants_safe(
    pre: &Network,
    post: &Network,
    participants: Option<&NameSet>,
)
    requires
        pre.wf(),
        post.wf(),
        conversion_day_done(pre@, post@, participants_of(pre@, participants)),
    ensures
        barrier_safe(post@, participants_of(post@, participants)),
{
    let p = participants_of(pre@, participants);
    assert(post@.nodes.dom() =~= pre@.nodes.dom());
    assert(participants_of(post@, participants) == p);
    assert(spent_in(post@, p) =~= spent_in(pre@, p)) by {
        assert forall|b: Seq<char>| spent_in(post@, p).contains(b) implies spent_in(pre@, p).contains(b) by {
            let id = choose|id: Seq<char>| p.contains(id) && post@.nodes.contains_key(id) && #[trigger] post@.nodes[id].spent.contains(b);
            assert(pre@.nodes[id].spent.contains(b));
        }
        assert forall|b: Seq<char>| spent_in(pre@, p).contains(b) implies spent_in(post@, p).contains(b) by {
            let id = choose|id: Seq<char>| p.contains(id) && pre@.nodes.contains_key(id) && #[trigger] pre@.nodes[id].spent.contains(b);
            assert(post@.nodes[id].spent.contains(b));
        }
    }
}

/// A successful Conversion Day over every node closes every pairwise gap:
/// afterwards no linked pair has one side holding a bearer either side has
/// spent, and no bearer is spent by two nodes.
pub proof fn lemma_full_conversion_day_syncs_every_link(pre: &Network, post: &Network)
    requires
        pre.wf(),
        post.wf(),
        !has_conflict(pre@, pre@.nodes.dom()),
        conversion_day_done(pre@, post@, pre@.nodes.dom()),
    ensures
        forall|n1: Seq<char>, n2: Seq<char>, b: Seq<char>| !#[trigger] unsynced(post@, n1, n2, b),
        !has_conflict(post@, post@.nodes.dom()),
{
    pre.lemma_wf();
    let d = pre@.nodes.dom();
    assert(post@.nodes.dom() =~= d);
    assert forall|n1: Seq<char>, n2: Seq<char>, b: Seq<char>| !#[trigger] unsynced(post@, n1, n2, b) by {
        if unsynced(post@, n1, n2, b) {
            assert(pre@.up.contains((n1, n2)));
            assert(d.contains(n1) && d.contains(n2));
            if pre@.nodes[n1].spent.contains(b) {
                assert(spent_in(pre@, d).contains(b));
            } else {
                assert(pre@.nodes[n2].spent.contains(b));
                assert(spent_in(pre@, d).contains(b));
            }
        }
    }
    assert forall|b: Seq<char>| !several(#[trigger] spenders_in(post@, post@.nodes.dom(), b)) by {
        assert(spenders_in(post@, post@.nodes.dom(), b) =~= spenders_in(pre@, d, b));
    }
}

/// The distributed Conversion Day decides as the centralized one does:
/// given one snapshot of every node of a network (its id and spent set),
/// the coordinator finds a conflict exactly when the barrier over every
/// node does, with the same spenders for each bearer and the same conflict
/// report, and otherwise burns the same bearers.
pub proof fn lemma_coordinator_agrees_with_barrier(net: &Network, snaps: Seq<SnapshotView>)
    requires
        net.wf(),
        forall|k: int| 0 <= k < snaps.len() ==> net@.nodes.contains_key(#[trigger] snaps[k].id)
            && net@.nodes[snaps[k].id].spent == snaps[k].spent,
        forall|id: Seq<char>| #[trigger] net@.nodes.contains_key(id) ==> exists|k: int| 0 <= k < snaps.len() && snaps[k].id == id,
    ensures
        forall|b: Seq<char>| #[trigger] spenders_among(snapshot_holders(snaps), b) == spenders_in(
            net@,
            net@.nodes.dom(),
            b,
        ),
        spent_among(snapshot_holders(snaps)) == spent_in(net@, net@.nodes.dom()),
        (exists|b: Seq<char>| several(#[trigger] spenders_among(snapshot_holders(snaps), b))) <==> has_conflict(
            net@,
            net@.nodes.dom(),
        ),
{
    let v = net@;
    let d = v.nodes.dom();
    let h = snapshot_holders(snaps);
    assert forall|b: Seq<char>| #[trigger] spenders_among(h, b) == spenders_in(v, d, b) by {
        assert forall|id: Seq<char>| spenders_among(h, b).contains(id) <==> spenders_in(v, d, b).contains(id) by {
            if spenders_among(h, b).contains(id) {
                let k = choose|k: int| 0 <= k < h.len() && h[k].0 == id && #[trigger] h[k].1.contains(b);
                assert(h[k] == (snaps[k].id, snaps[k].spent));
            }
            if spenders_in(v, d, b).contains(id) {
                let k = choose|k: int| 0 <= k < snaps.len() && snaps[k].id == id;
                assert(h[k] == (snaps[k].id, snaps[k].spent));
                assert(h[k].1.contains(b));
            }
        }
        assert(spenders_among(h, b) =~= spenders_in(v, d, b));
    }
    assert forall|b: Seq<char>| spent_among(h).contains(b) <==> spent_in(v, d).contains(b) by {
        if spent_among(h).contains(b) {
            let k = choose|k: int| 0 <= k < h.len() && #[trigger] h[k].1.contains(b);
            assert(h[k] == (snaps[k].id, snaps[k].spent));
            assert(v.nodes[snaps[k].id].spent.contains(b));
        }
        if spent_in(v, d).contains(b) {
            let id = choose|id: Seq<char>| d.contains(id) && v.nodes.contains_key(id) && #[trigger] v.nodes[id].spent.contains(b);
            let k = choose|k: int| 0 <= k < snaps.len() && snaps[k].id == id;
            assert(h[k] == (snaps[k].id, snaps[k].spent));
            assert(h[k].1.contains(b));
        }
    }
    assert(spent_among(h) =~= spent_in(v, d));
    if exists|b: Seq<char>| several(#[trigger] spenders_among(h, b)) {
        let b = choose|b: Seq<char>| several(#[trigger] spenders_among(h, b));
        assert(several(spenders_in(v, d, b)));
    }
    if has_conflict(v, d) {
        let b = choose|b: Seq<char>| several(#[trigger] spenders_in(v, d, b));
        assert(several(spenders_among(h, b)));
    }
}

/// The distributed and the centralized Conversion Day report the same
/// conflicts: given one snapshot of every node of a network, the
/// coordinator's conflict report over the snapshots and the barrier's
/// report over every node are the same report.
pub proof fn lemma_coordinator_report_matches_barrier(
    net: &Network,
    snaps: Seq<SnapshotView>,
    coordinator_report: Seq<(Seq<char>, Seq<Seq<char>>)>,
    barrier_report: Seq<(Seq<char>, Seq<Seq<char>>)>,
)
    requires
        net.wf(),
        forall|k: int| 0 <= k < snaps.len() ==> net@.nodes.contains_key(#[trigger] snaps[k].id)
            && net@.nodes[snaps[k].id].spent == snaps[k].spent,
        forall|id: Seq<char>| #[trigger] net@.nodes.contains_key(id) ==> exists|k: int| 0 <= k < snaps.len() && snaps[k].id == id,
        reports_conflicts(coordinator_report, |b: Seq<char>| spenders_among(snapshot_holders(snaps), b)),
        reports_conflicts(barrier_report, |b: Seq<char>| spenders_in(net@, net@.nodes.dom(), b)),
    ensures
        coordinator_report == barrier_report,
{
    lemma_coordinator_agrees_with_barrier(net, snaps);
    let f1 = |b: Seq<char>| spenders_among(snapshot_holders(snaps), b);
    let f2 = |b: Seq<char>| spenders_in(net@, net@.nodes.dom(), b);
    assert(f1 =~= f2);
    lemma_report_unique(coordinator_report, barrier_report, f1);
}

} // verus!
