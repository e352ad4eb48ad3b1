//! Conversion Day for the distributed deployment: the same decision as the
//! centralized barrier, taken over snapshots gathered from the peers
//! instead of over a shared network value. Gathering the snapshots and
//! sending the burn set back out is the node's business; what is decided
//! from them is here.
use vstd::prelude::*;

use crate::audit::{
    all_spent, find_conflicts, holders_view, report_view, reports_conflicts, several, spenders_among,
    spent_among,
};
use crate::names::{lists_sorted, NameSet};
use crate::render::{debug_report, debug_report_text};
use crate::text::{push_text, text_string};

verus! {

/// What one peer reported of itself: its id, what it holds and what it
/// has spent.
#[derive(Debug)]
pub struct PeerSnapshot {
    pub node_id: String,
    pub ledger: NameSet,
    pub spent: NameSet,
}

/// The content of a `PeerSnapshot`.
pub struct SnapshotView {
    pub id: Seq<char>,
    pub ledger: Set<Seq<char>>,
    pub spent: Set<Seq<char>>,
}

impl View for PeerSnapshot {
    type V = SnapshotView;

    open spec fn view(&self) -> SnapshotView {
        SnapshotView { id: self.node_id@, ledger: self.ledger@, spent: self.spent@ }
    }
}

impl Clone for PeerSnapshot {
    /// A separate snapshot with the same content.
    fn clone(&self) -> (s: Self)
        ensures
            s@ == self@,
    {
        PeerSnapshot { node_id: self.node_id.clone(), ledger: self.ledger.clone(), spent: self.spent.clone() }
    }
}

/// More than one peer spent the same bearer: each such bearer with the
/// ids of its spenders, in increasing order.
#[derive(Debug)]
pub struct ConversionDayConflict {
    pub violations: Vec<(String, Vec<String>)>,
}

impl ConversionDayConflict {
    /// The human-readable description of the conflict.
    pub fn message(&self) -> (s: String)
        ensures
            s@ == "double-spend detected during distributed reconciliation: "@ + debug_report_text(
                report_view(self.violations@),
            ),
    {
        let mut s = text_string("double-spend detected during distributed reconciliation: ");
        let report = debug_report(&self.violations);
        push_text(&mut s, report.as_str());
        s
    }
}

/// The snapshots as plain values.
pub open spec fn snapshots_view(s: Seq<PeerSnapshot>) -> Seq<SnapshotView> {
    s.map_values(|p: PeerSnapshot| p@)
}

/// Each snapshot's id with its spent set.
pub open spec fn snapshot_holders(s: Seq<SnapshotView>) -> Seq<(Seq<char>, Set<Seq<char>>)> {
    s.map_values(|p: SnapshotView| (p.id, p.spent))
}

/// No snapshot holds a bearer that some snapshot has spent.
pub open spec fn snapshots_safe(s: Seq<SnapshotView>) -> bool {
    forall|k: int, b: Seq<char>| 0 <= k < s.len() && #[trigger] s[k].ledger.contains(b)
        ==> !spent_among(snapshot_holders(s)).contains(b)
}

/// The ids and spent sets of the snapshots, in order.
fn holders_of(snapshots: &[PeerSnapshot]) -> (h: Vec<(String, NameSet)>)
    ensures
        holders_view(h@) == snapshot_holders(snapshots_view(snapshots@)),
{
    let mut h: Vec<(String, NameSet)> = Vec::new();
    let mut k: usize = 0;
    while k < snapshots.len()
        invariant
            k <= snapshots@.len(),
            holders_view(h@) == snapshot_holders(snapshots_view(snapshots@)).take(k as int),
        decreases snapshots.len() - k,
    {
        let ghost prev = h@;
        h.push((snapshots[k].node_id.clone(), snapshots[k].spent.clone()));
        assert(holders_view(h@) =~= holders_view(prev).push((snapshots@[k as int].node_id@, snapshots@[k as int].spent@)));
        assert(snapshot_holders(snapshots_view(snapshots@))[k as int] == (snapshots@[k as int].node_id@, snapshots@[k as int].spent@));
        assert(holders_view(h@) =~= snapshot_holders(snapshots_view(snapshots@)).take(k + 1));
        k = k + 1;
    }
    assert(snapshot_holders(snapshots_view(snapshots@)).take(snapshots@.len() as int) =~= snapshot_holders(
        snapshots_view(snapshots@),
    ));
    h
}

/// Decides a distributed Conversion Day from the peers' snapshots.
///
/// Refuses with the conflicting bearers when some bearer was spent by more
/// than one peer; otherwise returns every bearer any peer has spent, which
/// the caller then burns from every peer's ledger.
pub fn compute_conversion_day(snapshots: &[PeerSnapshot]) -> (r: Result<NameSet, ConversionDayConflict>)
    ensures
        r is Err <==> exists|b: Seq<char>| several(
            #[trigger] spenders_among(snapshot_holders(snapshots_view(snapshots@)), b),
        ),
        r is Err ==> reports_conflicts(
            report_view(r->Err_0.violations@),
            |b: Seq<char>| spenders_among(snapshot_holders(snapshots_view(snapshots@)), b),
        ),
        r is Ok ==> r->Ok_0@ == spent_among(snapshot_holders(snapshots_view(snapshots@))),
{
    let ghost hv = snapshot_holders(snapshots_view(snapshots@));
    let holders = holders_of(snapshots);
    let (violations, spent) = find_conflicts(&holders);
    let ghost wanted = |b: Seq<char>| spenders_among(hv, b);
    proof {
        assert((|b: Seq<char>| spenders_among(holders_view(holders@), b)) =~= wanted);
        assert(reports_conflicts(report_view(violations@), wanted));
    }
    if violations.len() > 0 {
        proof {
            let e = report_view(violations@)[0];
            assert(report_view(violations@).len() > 0);
            assert(lists_sorted(e.1, wanted(e.0)) && several(wanted(e.0)));
            assert(several(spenders_among(hv, e.0)));
        }
        return Err(ConversionDayConflict { violations });
    }
    proof {
        if exists|b: Seq<char>| several(#[trigger] spenders_among(hv, b)) {
            let b = choose|b: Seq<char>| several(#[trigger] spenders_among(hv, b));
            assert(several(wanted(b)));
        }
    }
    Ok(spent)
}

/// The safety check after a distributed Conversion Day: true exactly when
/// no snapshot holds a bearer that some snapshot has spent.
pub fn check_post_conversion_day_safety(snapshots: &[PeerSnapshot]) -> (r: bool)
    ensures
        r == snapshots_safe(snapshots_view(snapshots@)),
{
    let ghost sv = snapshots_view(snapshots@);
    let holders = holders_of(snapshots);
    let spent = all_spent(&holders);
    let mut k: usize = 0;
    while k < snapshots.len()
        invariant
            sv == snapshots_view(snapshots@),
            spent@ == spent_among(snapshot_holders(sv)),
            k <= snapshots@.len(),
            forall|m: int, b: Seq<char>| 0 <= m < k && #[trigger] sv[m].ledger.contains(b) ==> !spent@.contains(b),
        decreases snapshots.len() - k,
    {
        assert(sv[k as int] == snapshots@[k as int]@);
        if !snapshots[k].ledger.is_disjoint(&spent) {
            proof {
                let b = choose|b: Seq<char>| !!(snapshots@[k as int].ledger@.contains(b) && spent@.contains(b));
                assert(sv[k as int].ledger.contains(b));
            }
            return false;
        }
        k = k + 1;
    }
    true
}

/// Burning the set a successful `compute_conversion_day` returned from
/// every snapshot's ledger (spent sets untouched) makes
/// `check_post_conversion_day_safety` hold.
pub proof fn lemma_burn_makes_snapshots_safe(before: Seq<SnapshotView>, after: Seq<SnapshotView>, burned: Set<Seq<char>>)
    requires
        burned == spent_among(snapshot_holders(before)),
        after.len() == before.len(),
        forall|k: int| 0 <= k < before.len() ==> #[trigger] after[k] == (SnapshotView {
            ledger: before[k].ledger.difference(burned),
            ..before[k]
        }),
    ensures
        snapshots_safe(after),
{
    assert(snapshot_holders(after) =~= snapshot_holders(before)) by {
        assert forall|k: int| 0 <= k < after.len() implies #[trigger] snapshot_holders(after)[k] == snapshot_holders(before)[k] by {
            assert(after[k] == (SnapshotView { ledger: before[k].ledger.difference(burned), ..before[k] }));
        }
    }
    assert forall|k: int, b: Seq<char>| 0 <= k < after.len() && #[trigger] after[k].ledger.contains(b)
        implies !spent_among(snapshot_holders(after)).contains(b) by {
        assert(after[k] == (SnapshotView { ledger: before[k].ledger.difference(burned), ..before[k] }));
    }
}

/// The snapshots are safe exactly when no snapshot, whichever its place,
/// holds a bearer that any snapshot has spent; so the verdict does not
/// depend on the order of the snapshots.
pub proof fn lemma_snapshots_safe_means(s: Seq<SnapshotView>)
    ensures
        snapshots_safe(s) <==> forall|k: int, j: int, b: Seq<char>| 0 <= k < s.len() && 0 <= j < s.len()
            && #[trigger] s[k].ledger.contains(b) ==> !#[trigger] s[j].spent.contains(b),
{
    let h = snapshot_holders(s);
    if snapshots_safe(s) {
        assert forall|k: int, j: int, b: Seq<char>| 0 <= k < s.len() && 0 <= j < s.len()
            && #[trigger] s[k].ledger.contains(b) implies !#[trigger] s[j].spent.contains(b) by {
            if s[j].spent.contains(b) {
                assert(h[j] == (s[j].id, s[j].spent));
                assert(h[j].1.contains(b));
                assert(spent_among(h).contains(b));
            }
        }
    }
    if forall|k: int, j: int, b: Seq<char>| 0 <= k < s.len() && 0 <= j < s.len()
        && #[trigger] s[k].ledger.contains(b) ==> !#[trigger] s[j].spent.contains(b) {
        assert forall|k: int, b: Seq<char>| 0 <= k < s.len() && #[trigger] s[k].ledger.contains(b)
            implies !spent_among(h).contains(b) by {
            if spent_among(h).contains(b) {
                let j = choose|j: int| 0 <= j < h.len() && #[trigger] h[j].1.contains(b);
                assert(h[j] == (s[j].id, s[j].spent));
                assert(s[j].spent.contains(b));
            }
        }
    }
}

/// Two lists of the same snapshots, in any order, get the same verdict.
pub proof fn lemma_snapshots_safe_any_order(s: Seq<SnapshotView>, t: Seq<SnapshotView>)
    requires
        s.to_set() == t.to_set(),
    ensures
        snapshots_safe(s) == snapshots_safe(t),
{
    lemma_snapshots_safe_means(s);
    lemma_snapshots_safe_means(t);
    assert forall|x: SnapshotView| s.contains(x) <==> t.contains(x) by {
        assert(s.to_set().contains(x) <==> s.contains(x));
        assert(t.to_set().contains(x) <==> t.contains(x));
    }
    if snapshots_safe(s) && !snapshots_safe(t) {
        let (k, j, b) = choose|k: int, j: int, b: Seq<char>| 0 <= k < t.len() && 0 <= j < t.len()
            && t[k].ledger.contains(b) && t[j].spent.contains(b);
        assert(t.contains(t[k]) && t.contains(t[j]));
        let k2 = choose|k2: int| 0 <= k2 < s.len() && s[k2] == t[k];
        let j2 = choose|j2: int| 0 <= j2 < s.len() && s[j2] == t[j];
        assert(s[k2].ledger.contains(b) && s[j2].spent.contains(b));
    }
    if snapshots_safe(t) && !snapshots_safe(s) {
        let (k, j, b) = choose|k: int, j: int, b: Seq<char>| 0 <= k < s.len() && 0 <= j < s.len()
            && s[k].ledger.contains(b) && s[j].spent.contains(b);
        assert(s.contains(s[k]) && s.contains(s[j]));
        let k2 = choose|k2: int| 0 <= k2 < t.len() && t[k2] == s[k];
        let j2 = choose|j2: int| 0 <= j2 < t.len() && t[j2] == s[j];
        assert(t[k2].ledger.contains(b) && t[j2].spent.contains(b));
    }
}

} // verus!
