//! Finding bearers spent by more than one node, given each node's id and
//! spent set. Used by the network's invariant check, by the Conversion Day
//! barrier and by the distributed coordinator.
use vstd::prelude::*;

use crate::names::{lemma_sorted_listing_unique, lists_sorted, names_of, NameSet};
use crate::text::{strictly_sorted, text_lt};

verus! {

/// The ids and spent sets of some nodes.
pub open spec fn holders_view(h: Seq<(String, NameSet)>) -> Seq<(Seq<char>, Set<Seq<char>>)> {
    h.map_values(|e: (String, NameSet)| (e.0@, e.1@))
}

/// The ids of the holders whose spent set contains `b`.
pub open spec fn spenders_among(h: Seq<(Seq<char>, Set<Seq<char>>)>, b: Seq<char>) -> Set<Seq<char>> {
    Set::new(|id: Seq<char>| exists|k: int| 0 <= k < h.len() && h[k].0 == id && #[trigger] h[k].1.contains(b))
}

/// Every bearer some holder has spent.
pub open spec fn spent_among(h: Seq<(Seq<char>, Set<Seq<char>>)>) -> Set<Seq<char>> {
    Set::new(|b: Seq<char>| exists|k: int| 0 <= k < h.len() && #[trigger] h[k].1.contains(b))
}

/// Adding a holder adds its id to the spenders of each bearer it spent.
pub proof fn lemma_spenders_push(
    h: Seq<(Seq<char>, Set<Seq<char>>)>,
    x: (Seq<char>, Set<Seq<char>>),
    b: Seq<char>,
)
    ensures
        spenders_among(h.push(x), b) == (if x.1.contains(b) {
            spenders_among(h, b).insert(x.0)
        } else {
            spenders_among(h, b)
        }),
{
    let h2 = h.push(x);
    let rhs = if x.1.contains(b) {
        spenders_among(h, b).insert(x.0)
    } else {
        spenders_among(h, b)
    };
    assert forall|id: Seq<char>| spenders_among(h2, b).contains(id) <==> rhs.contains(id) by {
        if spenders_among(h2, b).contains(id) {
            let k = choose|k: int| 0 <= k < h2.len() && h2[k].0 == id && #[trigger] h2[k].1.contains(b);
            if k < h.len() {
                assert(h[k] == h2[k]);
            }
        }
        if spenders_among(h, b).contains(id) {
            let k = choose|k: int| 0 <= k < h.len() && h[k].0 == id && #[trigger] h[k].1.contains(b);
            assert(h2[k] == h[k]);
        }
        if x.1.contains(b) && id == x.0 {
            assert(h2[h.len() as int] == x);
        }
    }
    assert(spenders_among(h2, b) =~= rhs);
}

/// Adding a holder adds what it spent to what was spent.
pub proof fn lemma_spent_push(h: Seq<(Seq<char>, Set<Seq<char>>)>, x: (Seq<char>, Set<Seq<char>>))
    ensures
        spent_among(h.push(x)) == spent_among(h).union(x.1),
{
    let h2 = h.push(x);
    assert forall|b: Seq<char>| spent_among(h2).contains(b) <==> spent_among(h).union(x.1).contains(b) by {
        if spent_among(h2).contains(b) {
            let k = choose|k: int| 0 <= k < h2.len() && #[trigger] h2[k].1.contains(b);
            if k < h.len() {
                assert(h[k] == h2[k]);
            }
        }
        if spent_among(h).contains(b) {
            let k = choose|k: int| 0 <= k < h.len() && #[trigger] h[k].1.contains(b);
            assert(h2[k] == h[k]);
        }
        if x.1.contains(b) {
            assert(h2[h.len() as int] == x);
        }
    }
    assert(spent_among(h2) =~= spent_among(h).union(x.1));
}

/// The set has at least two distinct members.
pub open spec fn several(s: Set<Seq<char>>) -> bool {
    exists|a: Seq<char>, c: Seq<char>| a != c && s.contains(a) && s.contains(c)
}

/// A conflict report as plain text values.
pub open spec fn report_view(r: Seq<(String, Vec<String>)>) -> Seq<(Seq<char>, Seq<Seq<char>>)> {
    r.map_values(|e: (String, Vec<String>)| (e.0@, names_of(e.1@)))
}

/// `r` lists, in increasing order of bearer, exactly the bearers that
/// several nodes spent, each with the sorted ids of its spenders.
pub open spec fn reports_conflicts(
    r: Seq<(Seq<char>, Seq<Seq<char>>)>,
    spenders: spec_fn(Seq<char>) -> Set<Seq<char>>,
) -> bool {
    &&& forall|i: int, j: int| 0 <= i < j < r.len() ==> text_lt(#[trigger] r[i].0, #[trigger] r[j].0)
    &&& forall|i: int| 0 <= i < r.len() ==> lists_sorted(#[trigger] r[i].1, spenders(r[i].0)) && several(
        spenders(r[i].0),
    )
    &&& forall|b: Seq<char>| several(#[trigger] spenders(b)) ==> exists|i: int| 0 <= i < r.len() && r[i].0 == b
}

/// There is only one conflict report for a given spenders function: two
/// reports that both list exactly the bearers several nodes spent, in
/// increasing order, each with its sorted spenders, are the same.
pub proof fn lemma_report_unique(
    r1: Seq<(Seq<char>, Seq<Seq<char>>)>,
    r2: Seq<(Seq<char>, Seq<Seq<char>>)>,
    spenders: spec_fn(Seq<char>) -> Set<Seq<char>>,
)
    requires
        reports_conflicts(r1, spenders),
        reports_conflicts(r2, spenders),
    ensures
        r1 == r2,
{
    let k1 = r1.map_values(|e: (Seq<char>, Seq<Seq<char>>)| e.0);
    let k2 = r2.map_values(|e: (Seq<char>, Seq<Seq<char>>)| e.0);
    assert forall|i: int, j: int| 0 <= i < j < k1.len() implies text_lt(#[trigger] k1[i], #[trigger] k1[j]) by {
        assert(text_lt(r1[i].0, r1[j].0));
    }
    assert forall|i: int, j: int| 0 <= i < j < k2.len() implies text_lt(#[trigger] k2[i], #[trigger] k2[j]) by {
        assert(text_lt(r2[i].0, r2[j].0));
    }
    assert(k1.len() == r1.len() && k2.len() == r2.len());
    assert forall|b: Seq<char>| k1.to_set().contains(b) <==> k2.to_set().contains(b) by {
        if k1.to_set().contains(b) {
            assert(k1.contains(b));
            let i = choose|i: int| 0 <= i < k1.len() && k1[i] == b;
            assert(0 <= i < r1.len());
            assert(r1[i].0 == b);
            assert(lists_sorted(r1[i].1, spenders(r1[i].0)));
            assert(several(spenders(r1[i].0)));
            assert(several(spenders(b)));
            let j = choose|j: int| 0 <= j < r2.len() && r2[j].0 == b;
            assert(k2[j] == b);
        }
        if k2.to_set().contains(b) {
            assert(k2.contains(b));
            let i = choose|i: int| 0 <= i < k2.len() && k2[i] == b;
            assert(0 <= i < r2.len());
            assert(r2[i].0 == b);
            assert(lists_sorted(r2[i].1, spenders(r2[i].0)));
            assert(several(spenders(r2[i].0)));
            assert(several(spenders(b)));
            let j = choose|j: int| 0 <= j < r1.len() && r1[j].0 == b;
            assert(k1[j] == b);
        }
    }
    assert(k1.to_set() =~= k2.to_set());
    lemma_sorted_listing_unique(k1, k2);
    assert forall|i: int| 0 <= i < r1.len() implies r1[i] == r2[i] by {
        assert(k1[i] == k2[i]);
        assert(lists_sorted(r1[i].1, spenders(r1[i].0)));
        assert(lists_sorted(r2[i].1, spenders(r2[i].0)));
        lemma_sorted_listing_unique(r1[i].1, r2[i].1);
    }
    assert(r1 =~= r2);
}

/// A finite set has more than one member exactly when it has two distinct
/// members.
pub proof fn lemma_several(s: Set<Seq<char>>)
    requires
        s.finite(),
    ensures
        several(s) <==> s.len() > 1,
{
    if s.len() > 1 {
        let a = s.choose();
        assert(s.contains(a));
        let t = s.remove(a);
        assert(t.len() > 0);
        let c = t.choose();
        assert(t.contains(c));
        assert(a != c && s.contains(a) && s.contains(c));
    }
    if several(s) {
        let (a, c) = choose|a: Seq<char>, c: Seq<char>| a != c && s.contains(a) && s.contains(c);
        let pair = set![a, c];
        assert(pair.subset_of(s));
        vstd::set_lib::lemma_len_subset(pair, s);
        assert(pair.len() == 2) by {
            assert(set![a].insert(c).len() == set![a].len() + 1);
        }
    }
}

/// The ids of the holders that spent `b`.
fn spenders_of(holders: &Vec<(String, NameSet)>, b: &str) -> (who: NameSet)
    ensures
        who@ == spenders_among(holders_view(holders@), b@),
{
    let ghost hv = holders_view(holders@);
    let mut who = NameSet::new();
    let mut m: usize = 0;
    while m < holders.len()
        invariant
            hv == holders_view(holders@),
            m <= holders@.len(),
            who@ == Set::new(|id: Seq<char>| exists|l: int| 0 <= l < m && hv[l].0 == id && #[trigger] hv[l].1.contains(b@)),
        decreases holders.len() - m,
    {
        let ghost before = who@;
        assert(hv[m as int] == (holders@[m as int].0@, holders@[m as int].1@));
        if holders[m].1.contains(b) {
            who.insert(holders[m].0.clone());
        }
        assert(who@ =~= Set::new(|id: Seq<char>| exists|l: int| 0 <= l < m + 1 && hv[l].0 == id && #[trigger] hv[l].1.contains(b@))) by {
            assert forall|id: Seq<char>| who@.contains(id) implies exists|l: int| 0 <= l < m + 1 && hv[l].0 == id
                && #[trigger] hv[l].1.contains(b@) by {
                if !before.contains(id) {
                    assert(hv[m as int].0 == id && hv[m as int].1.contains(b@));
                }
            }
        }
        m = m + 1;
    }
    assert(who@ =~= spenders_among(hv, b@));
    who
}

/// Gathers who spent each bearer. Returns the conflict report and the set of
/// every bearer any holder spent.
pub fn find_conflicts(holders: &Vec<(String, NameSet)>) -> (r: (Vec<(String, Vec<String>)>, NameSet))
    ensures
        reports_conflicts(report_view(r.0@), |b: Seq<char>| spenders_among(holders_view(holders@), b)),
        r.1@ == spent_among(holders_view(holders@)),
{
    let ghost hv = holders_view(holders@);
    let all = all_spent(holders);
    proof {
        use_type_invariant(&all);
        all.lemma_well_formed();
    }
    let mut report: Vec<(String, Vec<String>)> = Vec::new();
    let ghost mut pos: Seq<int> = Seq::empty();
    let n = all.len();
    let mut i: usize = 0;
    while i < n
        invariant
            hv == holders_view(holders@),
            n == all.names().len(),
            all@ == spent_among(hv),
            i <= n,
            pos.len() == report@.len(),
            forall|p: int| 0 <= p < pos.len() ==> 0 <= #[trigger] pos[p] < i,
            forall|p: int, p2: int| 0 <= p < p2 < pos.len() ==> #[trigger] pos[p] < #[trigger] pos[p2],
            forall|p: int| 0 <= p < pos.len() ==> conflict_entry(
                #[trigger] report_view(report@)[p],
                all.names()[pos[p]],
                hv,
            ),
            forall|q: int| 0 <= q < i && several(spenders_among(hv, #[trigger] all.names()[q])) ==> exists|p: int|
                0 <= p < pos.len() && pos[p] == q,
        decreases n - i,
    {
        let b = all.get(i);
        let who = spenders_of(holders, b.as_str());
        proof {
            use_type_invariant(&who);
            who.lemma_well_formed();
            lemma_several(who@);
        }
        let count = who.len();
        if count > 1 {
            let ids = who.to_vec();
            let ghost prev = report@;
            report.push((b.clone(), ids));
            proof {
                assert(report_view(report@) =~= report_view(prev).push((b@, names_of(ids@))));
                let old_pos = pos;
                pos = pos.push(i as int);
                assert forall|p: int| 0 <= p < pos.len() implies conflict_entry(
                    #[trigger] report_view(report@)[p],
                    all.names()[pos[p]],
                    hv,
                ) by {
                    if p < prev.len() {
                        assert(report_view(report@)[p] == report_view(prev)[p]);
                    }
                }
                assert forall|q: int| 0 <= q < i + 1 && several(spenders_among(hv, #[trigger] all.names()[q])) implies exists|p: int|
                    0 <= p < pos.len() && pos[p] == q by {
                    if q == i {
                        assert(pos[pos.len() - 1] == q);
                    } else {
                        let p = choose|p: int| 0 <= p < old_pos.len() && old_pos[p] == q;
                        assert(pos[p] == q);
                    }
                }
            }
        }
        i = i + 1;
    }
    proof {
        lemma_report_complete(report_view(report@), pos, all, hv);
    }
    (report, all)
}

/// One line of a conflict report: bearer `b` with its spenders, sorted, of
/// which there are several.
pub open spec fn conflict_entry(
    e: (Seq<char>, Seq<Seq<char>>),
    b: Seq<char>,
    hv: Seq<(Seq<char>, Set<Seq<char>>)>,
) -> bool {
    &&& e.0 == b
    &&& lists_sorted(e.1, spenders_among(hv, b))
    &&& several(spenders_among(hv, b))
}

proof fn lemma_report_complete(
    rv: Seq<(Seq<char>, Seq<Seq<char>>)>,
    pos: Seq<int>,
    all: NameSet,
    hv: Seq<(Seq<char>, Set<Seq<char>>)>,
)
    requires
        strictly_sorted(all.names()),
        all@ == spent_among(hv),
        pos.len() == rv.len(),
        forall|p: int| 0 <= p < pos.len() ==> 0 <= #[trigger] pos[p] < all.names().len(),
        forall|p: int, p2: int| 0 <= p < p2 < pos.len() ==> #[trigger] pos[p] < #[trigger] pos[p2],
        forall|p: int| 0 <= p < pos.len() ==> conflict_entry(#[trigger] rv[p], all.names()[pos[p]], hv),
        forall|q: int| 0 <= q < all.names().len() && several(spenders_among(hv, #[trigger] all.names()[q])) ==> exists|p: int|
            0 <= p < pos.len() && pos[p] == q,
    ensures
        reports_conflicts(rv, |b: Seq<char>| spenders_among(hv, b)),
{
    assert forall|p: int, p2: int| 0 <= p < p2 < rv.len() implies text_lt(#[trigger] rv[p].0, #[trigger] rv[p2].0) by {
        assert(conflict_entry(rv[p], all.names()[pos[p]], hv));
        assert(conflict_entry(rv[p2], all.names()[pos[p2]], hv));
        assert(pos[p] < pos[p2]);
    }
    assert forall|p: int| 0 <= p < rv.len() implies lists_sorted(#[trigger] rv[p].1, spenders_among(hv, rv[p].0))
        && several(spenders_among(hv, rv[p].0)) by {
        assert(conflict_entry(rv[p], all.names()[pos[p]], hv));
    }
    assert forall|b: Seq<char>| several(#[trigger] spenders_among(hv, b)) implies exists|p: int| 0 <= p < rv.len()
        && rv[p].0 == b by {
        let (a, c) = choose|a: Seq<char>, c: Seq<char>| a != c && spenders_among(hv, b).contains(a)
            && spenders_among(hv, b).contains(c);
        let l = choose|l: int| 0 <= l < hv.len() && hv[l].0 == a && #[trigger] hv[l].1.contains(b);
        assert(spent_among(hv).contains(b));
        assert(all.names().contains(b));
        let q = choose|q: int| 0 <= q < all.names().len() && all.names()[q] == b;
        assert(several(spenders_among(hv, all.names()[q])));
        let p = choose|p: int| 0 <= p < pos.len() && pos[p] == q;
        assert(conflict_entry(rv[p], all.names()[pos[p]], hv));
    }
}

/// Every bearer any holder spent.
pub fn all_spent(holders: &Vec<(String, NameSet)>) -> (all: NameSet)
    ensures
        all@ == spent_among(holders_view(holders@)),
{
    let ghost hv = holders_view(holders@);
    let mut all = NameSet::new();
    let mut k: usize = 0;
    while k < holders.len()
        invariant
            hv == holders_view(holders@),
            k <= holders@.len(),
            all@ == Set::new(|b: Seq<char>| exists|m: int| 0 <= m < k && #[trigger] hv[m].1.contains(b)),
        decreases holders.len() - k,
    {
        let ghost before = all@;
        all.extend(&holders[k].1);
        assert(hv[k as int] == (holders@[k as int].0@, holders@[k as int].1@));
        assert(all@ =~= Set::new(|b: Seq<char>| exists|m: int| 0 <= m < k + 1 && #[trigger] hv[m].1.contains(b)))
            by {
            assert forall|b: Seq<char>| all@.contains(b) implies exists|m: int| 0 <= m < k + 1
                && #[trigger] hv[m].1.contains(b) by {
                if !before.contains(b) {
                    assert(hv[k as int].1.contains(b));
                }
            }
        }
        k = k + 1;
    }
    assert(all@ =~= spent_among(hv));
    all
}

} // verus!
