//! The centralized model of the ledger network: every node's ledger and
//! spent set, the symmetric direct links between nodes, and the four
//! actions LinkDown, LinkUp, Propagate and SpendAt, with the two safety
//! invariants (no bearer spent by two nodes; no linked pair where either
//! side still holds something either side has spent).
//!
//! Connectivity is symmetric and direct-link-only: a node only learns of,
//! and broadcasts to, the nodes it is directly linked to.
use vstd::prelude::*;

use crate::audit::{
    find_conflicts, holders_view, lemma_spenders_push, lemma_spent_push, report_view,
    reports_conflicts, spenders_among, spent_among,
};
use crate::names::{
    lemma_is_sorted_listing, lemma_prefix_set_step, lists_sorted, names_of, names_of_strs,
    sorted_listing, NameSet,
};
use crate::node::{Node, NodeView};
use crate::render::{debug_list, debug_list_text};
use crate::shared_state::{deliverable_from, merged_ledger, not_held_text};
use crate::text::{
    chars_equal, chars_of, lemma_strictly_sorted_no_duplicates, push_text, strictly_sorted,
    text_lt, text_string,
};

verus! {

/// An action that cannot be taken; the text says why.
#[derive(Debug)]
pub struct NetworkError(pub String);

/// One line of the audit trail.
#[derive(Debug)]
pub struct LogEntry {
    pub action: String,
    pub detail: String,
}

impl Clone for LogEntry {
    /// A separate entry with the same text.
    fn clone(&self) -> (c: Self)
        ensures
            c.action@ == self.action@,
            c.detail@ == self.detail@,
    {
        LogEntry { action: self.action.clone(), detail: self.detail.clone() }
    }
}

/// The network's nodes, kept in increasing order of id.
#[derive(Debug)]
pub struct NodeTable {
    items: Vec<Node>,
}

impl NodeTable {
    /// The node ids in table order.
    pub closed spec fn ids(&self) -> Seq<Seq<char>> {
        self.items@.map_values(|n: Node| n@.id)
    }

    /// The ids are strictly increasing (so no id occurs twice).
    pub closed spec fn wf(&self) -> bool {
        strictly_sorted(self.ids())
    }

    /// The position of the node with id `id`.
    pub closed spec fn index_of(&self, id: Seq<char>) -> int {
        choose|i: int| 0 <= i < self.items@.len() && self.items@[i]@.id == id
    }
}

impl View for NodeTable {
    type V = Map<Seq<char>, NodeView>;

    closed spec fn view(&self) -> Map<Seq<char>, NodeView> {
        Map::new(|id: Seq<char>| self.ids().contains(id), |id: Seq<char>| self.items@[self.index_of(id)]@)
    }
}

impl NodeTable {
    proof fn lemma_index_of(&self, i: int)
        requires
            self.wf(),
            0 <= i < self.items@.len(),
        ensures
            self.index_of(self.ids()[i]) == i,
            self@.contains_key(self.ids()[i]),
            self@[self.ids()[i]] == self.items@[i]@,
    {
        lemma_strictly_sorted_no_duplicates(self.ids());
        assert(self.ids()[i] == self.items@[i]@.id);
        let k = self.index_of(self.ids()[i]);
        assert(0 <= k < self.items@.len() && self.items@[k]@.id == self.ids()[i]);
        assert(self.ids()[k] == self.items@[k]@.id);
        assert(self.ids().contains(self.ids()[i]));
    }

    proof fn lemma_dom(&self)
        requires
            self.wf(),
        ensures
            self@.dom() == self.ids().to_set(),
            self@.dom().finite(),
            self@.dom().len() == self.items@.len(),
    {
        lemma_strictly_sorted_no_duplicates(self.ids());
        self.ids().unique_seq_to_set();
        assert(self@.dom() =~= self.ids().to_set());
    }

    /// The position of the node with id `id`, if there is one.
    fn position(&self, id: &str) -> (r: Option<usize>)
        requires
            self.wf(),
        ensures
            r is Some <==> self@.contains_key(id@),
            r matches Some(i) ==> i < self.items@.len() && self.ids()[i as int] == id@
                && self.index_of(id@) == i,
    {
        let target = chars_of(id);
        let mut i: usize = 0;
        while i < self.items.len()
            invariant
                self.wf(),
                target@ == id@,
                i <= self.items@.len(),
                forall|j: int| 0 <= j < i ==> self.ids()[j] != id@,
            decreases self.items.len() - i,
        {
            let c = chars_of(self.items[i].node_id.as_str());
            assert(self.ids()[i as int] == self.items@[i as int]@.id);
            if chars_equal(c.as_slice(), target.as_slice()) {
                proof {
                    self.lemma_index_of(i as int);
                    assert(self.ids()[i as int] == id@);
                }
                return Some(i);
            }
            i = i + 1;
        }
        assert(!self.ids().contains(id@)) by {
            if self.ids().contains(id@) {
                let k = choose|k: int| 0 <= k < self.ids().len() && self.ids()[k] == id@;
                assert(self.ids()[k] != id@);
            }
        }
        None
    }

    /// The node with id `id`, if any.
    pub fn get(&self, id: &str) -> (r: Option<&Node>)
        requires
            self.wf(),
        ensures
            r is Some <==> self@.contains_key(id@),
            r matches Some(n) ==> n@ == self@[id@],
    {
        match self.position(id) {
            Some(i) => {
                proof {
                    self.lemma_index_of(i as int);
                }
                Some(&self.items[i])
            },
            None => None,
        }
    }

    /// The node with id `id`, to change in place, if any. The table stays
    /// well formed as long as the node keeps its id.
    pub fn get_mut(&mut self, id: &str) -> (r: Option<&mut Node>)
        requires
            old(self).wf(),
        ensures
            r is Some <==> old(self)@.contains_key(id@),
            r is None ==> *final(self) == *old(self),
            r is Some ==> (*r.unwrap())@ == old(self)@[id@],
            r is Some && (*final(r.unwrap()))@.id == id@ ==> final(self).wf() && final(self)@ == old(self)@.insert(
                id@,
                (*final(r.unwrap()))@,
            ),
    {
        match self.position(id) {
            Some(i) => {
                proof {
                    self.lemma_index_of(i as int);
                }
                proof {
                    self.lemma_update_any(i as int);
                }
                Some(&mut self.items[i])
            },
            None => None,
        }
    }

    /// The node ids in increasing order.
    pub fn ids_sorted(&self) -> (v: Vec<String>)
        requires
            self.wf(),
        ensures
            names_of(v@) == self.ids(),
            lists_sorted(names_of(v@), self@.dom()),
    {
        proof {
            self.lemma_dom();
        }
        let mut v: Vec<String> = Vec::new();
        let mut i: usize = 0;
        while i < self.items.len()
            invariant
                i <= self.items@.len(),
                names_of(v@) == self.ids().subrange(0, i as int),
            decreases self.items.len() - i,
        {
            let ghost prev = v@;
            v.push(self.items[i].node_id.clone());
            assert(names_of(v@) =~= names_of(prev).push(self.items@[i as int]@.id));
            assert(names_of(v@) =~= self.ids().subrange(0, i + 1));
            i = i + 1;
        }
        assert(names_of(v@) =~= self.ids());
        v
    }
}

/// The content of a `Network`: each node by id, the links that are up (as
/// ordered pairs; the relation is symmetric), and the audit trail as
/// (action, detail) pairs.
pub struct NetworkView {
    pub nodes: Map<Seq<char>, NodeView>,
    pub up: Set<(Seq<char>, Seq<char>)>,
    pub log: Seq<(Seq<char>, Seq<char>)>,
}

pub struct Network {
    pub nodes: NodeTable,
    /// `links[i][j]`: whether the link between the `i`-th and `j`-th node
    /// (in table order) is up.
    links: Vec<Vec<bool>>,
    /// Audit trail, in the shape of a model-checker trace.
    pub log: Vec<LogEntry>,
}

/// The (action, detail) text of a log entry.
pub open spec fn entry_view(e: LogEntry) -> (Seq<char>, Seq<char>) {
    (e.action@, e.detail@)
}

impl View for Network {
    type V = NetworkView;

    closed spec fn view(&self) -> NetworkView {
        NetworkView {
            nodes: self.nodes@,
            up: Set::new(
                |p: (Seq<char>, Seq<char>)|
                    self.nodes@.contains_key(p.0) && self.nodes@.contains_key(p.1)
                        && self.links@[self.nodes.index_of(p.0)]@[self.nodes.index_of(p.1)],
            ),
            log: self.log@.map_values(|e: LogEntry| entry_view(e)),
        }
    }
}

/// Links are symmetric and no node is linked to itself.
pub open spec fn links_well_formed(up: Set<(Seq<char>, Seq<char>)>) -> bool {
    &&& forall|a: Seq<char>, b: Seq<char>| #[trigger] up.contains((a, b)) ==> up.contains((b, a))
    &&& forall|a: Seq<char>| !up.contains((a, a))
}

impl Network {
    /// The representation invariant: a square, symmetric link matrix with a
    /// false diagonal, over a table of distinct ids.
    pub closed spec fn wf(&self) -> bool {
        &&& self.nodes.wf()
        &&& self.links@.len() == self.nodes.items@.len()
        &&& forall|i: int| 0 <= i < self.links@.len() ==> #[trigger] self.links@[i]@.len() == self.links@.len()
        &&& forall|i: int, j: int| 0 <= i < self.links@.len() && 0 <= j < self.links@.len() ==>
            #[trigger] self.links@[i]@[j] == self.links@[j]@[i]
        &&& forall|i: int| 0 <= i < self.links@.len() ==> !#[trigger] self.links@[i]@[i]
    }

    /// The link between the `i`-th and `j`-th node, in view terms.
    proof fn lemma_up_at(&self, i: int, j: int)
        requires
            self.wf(),
            0 <= i < self.nodes.items@.len(),
            0 <= j < self.nodes.items@.len(),
        ensures
            self@.up.contains((self.nodes.ids()[i], self.nodes.ids()[j])) == self.links@[i]@[j],
    {
        self.nodes.lemma_index_of(i);
        self.nodes.lemma_index_of(j);
    }

    /// Replacing node entries without changing ids or links keeps the links.
    proof fn lemma_nodes_replaced(pre: &Network, post: &Network)
        requires
            pre.wf(),
            post.nodes.ids() == pre.nodes.ids(),
            post.links == pre.links,
        ensures
            post.wf(),
            post@.up == pre@.up,
    {
        pre.nodes.lemma_same_ids(&post.nodes);
        assert(pre.nodes.ids().len() == pre.nodes.items@.len());
        assert(post.nodes.ids().len() == post.nodes.items@.len());
        assert(post.nodes.items@.len() == pre.nodes.items@.len());
        assert(post@.up =~= pre@.up);
    }

    /// What the invariant gives in view terms.
    pub proof fn lemma_wf(&self)
        requires
            self.wf(),
        ensures
            links_well_formed(self@.up),
            forall|a: Seq<char>, b: Seq<char>| #[trigger] self@.up.contains((a, b)) ==> self@.nodes.contains_key(a)
                && self@.nodes.contains_key(b),
            self@.nodes.dom().finite(),
            forall|id: Seq<char>| #[trigger] self@.nodes.contains_key(id) ==> self@.nodes[id].id == id,
    {
        self.nodes.lemma_dom();
        assert forall|a: Seq<char>, b: Seq<char>| #[trigger] self@.up.contains((a, b)) implies self@.up.contains((b, a)) by {
            let i = self.nodes.index_of(a);
            let j = self.nodes.index_of(b);
            assert(self.links@[i]@[j] == self.links@[j]@[i]);
        }
        assert forall|a: Seq<char>| !self@.up.contains((a, a)) by {
            if self@.nodes.contains_key(a) {
                let i = self.nodes.index_of(a);
                assert(!self.links@[i]@[i]);
            }
        }
        assert forall|id: Seq<char>| #[trigger] self@.nodes.contains_key(id) implies self@.nodes[id].id == id by {
            let i = self.nodes.index_of(id);
            assert(self.nodes.items@[i]@.id == id);
        }
    }

    /// A network of the given nodes (repeats count once), each holding
    /// nothing, with every pair of distinct nodes linked.
    pub fn new(node_ids: &[&str]) -> (net: Network)
        ensures
            net.wf(),
            net@.nodes.dom() == names_of_strs(node_ids@).to_set(),
            forall|id: Seq<char>| #[trigger] net@.nodes.contains_key(id) ==> net@.nodes[id].ledger
                == Set::<Seq<char>>::empty() && net@.nodes[id].spent == Set::<Seq<char>>::empty(),
            forall|a: Seq<char>, b: Seq<char>| #[trigger] net@.up.contains((a, b)) <==> (
            net@.nodes.contains_key(a) && net@.nodes.contains_key(b) && a != b),
            net@.log == Seq::<(Seq<char>, Seq<char>)>::empty(),
    {
        let ids = NameSet::from_strs(node_ids);
        let n = ids.len();
        let mut items: Vec<Node> = Vec::new();
        let mut i: usize = 0;
        while i < n
            invariant
                n == ids.names().len(),
                i <= n,
                items@.len() == i,
                forall|k: int| 0 <= k < i ==> (#[trigger] items@[k])@.id == ids.names()[k]
                    && items@[k]@.ledger == Set::<Seq<char>>::empty()
                    && items@[k]@.spent == Set::<Seq<char>>::empty(),
            decreases n - i,
        {
            items.push(Node::new(ids.get(i).as_str()));
            i = i + 1;
        }
        let mut links: Vec<Vec<bool>> = Vec::new();
        let mut a: usize = 0;
        while a < n
            invariant
                a <= n,
                links@.len() == a,
                forall|k: int| 0 <= k < a ==> #[trigger] links@[k]@.len() == n,
                forall|k: int, l: int| 0 <= k < a && 0 <= l < n ==> #[trigger] links@[k]@[l] == (k != l),
            decreases n - a,
        {
            let mut row: Vec<bool> = Vec::new();
            let mut b: usize = 0;
            while b < n
                invariant
                    b <= n,
                    row@.len() == b,
                    forall|l: int| 0 <= l < b ==> #[trigger] row@[l] == (a != l),
                decreases n - b,
            {
                row.push(a != b);
                b = b + 1;
            }
            links.push(row);
            a = a + 1;
        }
        let net = Network { nodes: NodeTable { items }, links, log: Vec::new() };
        proof {
            use_type_invariant(&ids);
            ids.lemma_well_formed();
            assert(net.nodes.ids() =~= ids.names());
            assert(net.wf());
            net.nodes.lemma_dom();
            assert(net@.nodes.dom() =~= names_of_strs(node_ids@).to_set());
            assert forall|id: Seq<char>| #[trigger] net@.nodes.contains_key(id) implies net@.nodes[id].ledger
                == Set::<Seq<char>>::empty() && net@.nodes[id].spent == Set::<Seq<char>>::empty() by {
                let k = net.nodes.index_of(id);
                assert(net.nodes.items@[k] == items@[k]);
            }
            assert forall|x: Seq<char>, y: Seq<char>| #[trigger] net@.up.contains((x, y)) <==> (
            net@.nodes.contains_key(x) && net@.nodes.contains_key(y) && x != y) by {
                if net@.nodes.contains_key(x) && net@.nodes.contains_key(y) {
                    let k = net.nodes.index_of(x);
                    let l = net.nodes.index_of(y);
                    assert(net.nodes.ids()[k] == x);
                    assert(net.nodes.ids()[l] == y);
                    assert(links@[k]@[l] == (k != l));
                }
            }
            assert(net@.log =~= Seq::<(Seq<char>, Seq<char>)>::empty());
        }
        net
    }
}


impl NodeTable {
    /// Two tables with the same ids place every id at the same position.
    proof fn lemma_same_ids(&self, other: &NodeTable)
        requires
            self.wf(),
            other.ids() == self.ids(),
        ensures
            other.wf(),
            other@.dom() == self@.dom(),
            forall|id: Seq<char>| #[trigger] self@.contains_key(id) ==> other.index_of(id) == self.index_of(id),
    {
        assert(other@.dom() =~= self@.dom());
        assert forall|id: Seq<char>| #[trigger] self@.contains_key(id) implies other.index_of(id) == self.index_of(id) by {
            let k = self.index_of(id);
            self.lemma_index_of(k);
            other.lemma_index_of(k);
            assert(self.ids()[k] == id);
        }
    }

    /// The view of a table, given the view of each of its entries.
    proof fn lemma_view_from_entries(&self, f: spec_fn(Seq<char>) -> NodeView)
        requires
            self.wf(),
            forall|k: int| 0 <= k < self.items@.len() ==> #[trigger] self.items@[k]@ == f(self.ids()[k]),
        ensures
            self@ == Map::new(|id: Seq<char>| self.ids().contains(id), f),
    {
        assert forall|id: Seq<char>| #[trigger] self@.contains_key(id) implies self@[id] == f(id) by {
            let k = self.index_of(id);
            self.lemma_index_of(k);
            assert(self.ids()[k] == id);
        }
        assert(self@ =~= Map::new(|id: Seq<char>| self.ids().contains(id), f));
    }
}

/// `a-b`, as link and node-pair messages write it.
pub open spec fn pair_text(a: Seq<char>, b: Seq<char>) -> Seq<char> {
    a + "-"@ + b
}

/// The text of the error for a pair naming an unknown node.
pub open spec fn unknown_pair_text(a: Seq<char>, b: Seq<char>) -> Seq<char> {
    "unknown node pair "@ + pair_text(a, b)
}

/// The text of the error for linking a node to itself.
pub open spec fn self_link_text() -> Seq<char> {
    "cannot link a node to itself"@
}

impl Network {
    /// Whether `n` and `m` are linked; an error if either is unknown.
    fn is_linked(&self, n: &str, m: &str) -> (r: Result<bool, NetworkError>)
        requires
            self.wf(),
        ensures
            r is Ok <==> (self@.nodes.contains_key(n@) && self@.nodes.contains_key(m@)),
            r matches Ok(b) ==> b == self@.up.contains((n@, m@)),
            r matches Err(e) ==> e.0@ == unknown_pair_text(n@, m@),
    {
        let i = self.nodes.position(n);
        let j = self.nodes.position(m);
        match (i, j) {
            (Some(i), Some(j)) => {
                proof {
                    self.lemma_up_at(i as int, j as int);
                }
                Ok(self.links[i][j])
            },
            _ => {
                let mut text = text_string("unknown node pair ");
                push_text(&mut text, n);
                push_text(&mut text, "-");
                push_text(&mut text, m);
                assert(text@ =~= unknown_pair_text(n@, m@));
                Err(NetworkError(text))
            },
        }
    }

    /// Appends an entry to the audit trail.
    fn record(&mut self, action: &str, detail: String)
        ensures
            final(self).nodes == old(self).nodes,
            final(self).links == old(self).links,
            final(self)@.log == old(self)@.log.push((action@, detail@)),
            final(self)@.nodes == old(self)@.nodes,
            final(self)@.up == old(self)@.up,
    {
        let entry = LogEntry { action: text_string(action), detail };
        self.log.push(entry);
        assert(self@.log =~= old(self)@.log.push((action@, detail@)));
    }

    /// The node ids in increasing order.
    pub(crate) fn sorted_ids(&self) -> (v: Vec<String>)
        requires
            self.wf(),
        ensures
            lists_sorted(names_of(v@), self@.nodes.dom()),
    {
        self.nodes.ids_sorted()
    }

    /// Appends an entry to the audit trail, changing nothing else.
    pub(crate) fn append_log(&mut self, action: &str, detail: String)
        requires
            old(self).wf(),
        ensures
            final(self).wf(),
            final(self)@.log == old(self)@.log.push((action@, detail@)),
            final(self)@.nodes == old(self)@.nodes,
            final(self)@.up == old(self)@.up,
    {
        self.record(action, detail);
    }

    /// Sets the link between the `i`-th and `j`-th node, both directions.
    fn set_link_at(&mut self, i: usize, j: usize, state: bool)
        requires
            old(self).wf(),
            i < old(self).nodes.items@.len(),
            j < old(self).nodes.items@.len(),
            i != j,
        ensures
            final(self).wf(),
            final(self).nodes == old(self).nodes,
            final(self).log == old(self).log,
            final(self)@.nodes == old(self)@.nodes,
            final(self)@.log == old(self)@.log,
            forall|a: Seq<char>, b: Seq<char>| #[trigger] final(self)@.up.contains((a, b)) <==> (
            if (a == old(self).nodes.ids()[i as int] && b == old(self).nodes.ids()[j as int]) || (a
                == old(self).nodes.ids()[j as int] && b == old(self).nodes.ids()[i as int]) {
                state
            } else {
                old(self)@.up.contains((a, b))
            }),
    {
        let ghost pre = *old(self);
        let mut row_i = self.links[i].clone();
        row_i.set(j, state);
        self.links.set(i, row_i);
        let mut row_j = self.links[j].clone();
        row_j.set(i, state);
        self.links.set(j, row_j);
        proof {
            assert(self.links@[i as int]@ =~= pre.links@[i as int]@.update(j as int, state));
            assert(self.links@[j as int]@ =~= pre.links@[j as int]@.update(i as int, state));
            assert(self.wf());
            let ids = pre.nodes.ids();
            assert forall|a: Seq<char>, b: Seq<char>| #[trigger] self@.up.contains((a, b)) <==> (
            if (a == ids[i as int] && b == ids[j as int]) || (a == ids[j as int] && b == ids[i as int]) {
                state
            } else {
                pre@.up.contains((a, b))
            }) by {
                if self@.nodes.contains_key(a) && self@.nodes.contains_key(b) {
                    let k = pre.nodes.index_of(a);
                    let l = pre.nodes.index_of(b);
                    pre.nodes.lemma_index_of(k);
                    pre.nodes.lemma_index_of(l);
                    pre.nodes.lemma_index_of(i as int);
                    pre.nodes.lemma_index_of(j as int);
                    lemma_strictly_sorted_no_duplicates(ids);
                    assert(ids[k] == a && ids[l] == b);
                }
            }
        }
    }
}


impl NodeTable {
    /// Replaces the ledger of the `i`-th node.
    fn set_ledger(&mut self, i: usize, ledger: NameSet)
        requires
            old(self).wf(),
            i < old(self).items@.len(),
        ensures
            final(self).wf(),
            final(self).ids() == old(self).ids(),
            final(self).items@.len() == old(self).items@.len(),
            forall|k: int| 0 <= k < old(self).items@.len() && k != i ==> final(self).items@[k] == old(self).items@[k],
            final(self).items@[i as int]@ == final(self)@[old(self).ids()[i as int]],
            final(self)@ == old(self)@.insert(
                old(self).ids()[i as int],
                NodeView { ledger: ledger@, ..old(self).items@[i as int]@ },
            ),
    {
        let ghost pre = *old(self);
        self.items[i].ledger = ledger;
        proof {
            assert(self.ids() =~= pre.ids());
            NodeTable::lemma_update_one(pre, *self, i as int);
        }
    }

    /// Adds `bearer` to the spent set of the `i`-th node.
    fn mark_spent(&mut self, i: usize, bearer: &str)
        requires
            old(self).wf(),
            i < old(self).items@.len(),
        ensures
            final(self).wf(),
            final(self).ids() == old(self).ids(),
            final(self).items@.len() == old(self).items@.len(),
            forall|k: int| 0 <= k < old(self).items@.len() && k != i ==> final(self).items@[k] == old(self).items@[k],
            final(self).items@[i as int]@ == final(self)@[old(self).ids()[i as int]],
            final(self)@ == old(self)@.insert(
                old(self).ids()[i as int],
                NodeView { spent: old(self).items@[i as int]@.spent.insert(bearer@), ..old(self).items@[i as int]@ },
            ),
    {
        let ghost pre = *old(self);
        self.items[i].spent.insert(text_string(bearer));
        proof {
            assert(self.ids() =~= pre.ids());
            NodeTable::lemma_update_one(pre, *self, i as int);
        }
    }

    /// Removes `bearers` from the ledger of the `i`-th node.
    fn burn_from(&mut self, i: usize, bearers: &NameSet)
        requires
            old(self).wf(),
            i < old(self).items@.len(),
        ensures
            final(self).wf(),
            final(self).ids() == old(self).ids(),
            final(self).items@.len() == old(self).items@.len(),
            forall|k: int| 0 <= k < old(self).items@.len() && k != i ==> final(self).items@[k] == old(self).items@[k],
            final(self).items@[i as int]@ == final(self)@[old(self).ids()[i as int]],
            final(self)@ == old(self)@.insert(
                old(self).ids()[i as int],
                NodeView { ledger: old(self).items@[i as int]@.ledger.difference(bearers@), ..old(self).items@[i as int]@ },
            ),
    {
        let ghost pre = *old(self);
        self.items[i].ledger.remove_all(bearers);
        proof {
            assert(self.ids() =~= pre.ids());
            NodeTable::lemma_update_one(pre, *self, i as int);
        }
    }

    /// Adds `bearers` to the ledger of the `i`-th node.
    fn deliver_to(&mut self, i: usize, bearers: &NameSet)
        requires
            old(self).wf(),
            i < old(self).items@.len(),
        ensures
            final(self).wf(),
            final(self).ids() == old(self).ids(),
            final(self).items@.len() == old(self).items@.len(),
            forall|k: int| 0 <= k < old(self).items@.len() && k != i ==> final(self).items@[k] == old(self).items@[k],
            final(self).items@[i as int]@ == final(self)@[old(self).ids()[i as int]],
            final(self)@ == old(self)@.insert(
                old(self).ids()[i as int],
                NodeView { ledger: old(self).items@[i as int]@.ledger.union(bearers@), ..old(self).items@[i as int]@ },
            ),
    {
        let ghost pre = *old(self);
        self.items[i].ledger.extend(bearers);
        proof {
            assert(self.ids() =~= pre.ids());
            NodeTable::lemma_update_one(pre, *self, i as int);
        }
    }

    /// Any table that differs from this one in the `i`-th entry alone, with
    /// the same id there, is well formed and has that entry's view at that id.
    proof fn lemma_update_any(&self, i: int)
        requires
            self.wf(),
            0 <= i < self.items@.len(),
        ensures
            forall|post: NodeTable| #[trigger] post.items@ == self.items@.update(i, post.items@[i])
                && post.items@[i]@.id == self.ids()[i] ==> post.wf() && post@ == self@.insert(self.ids()[i], post.items@[i]@),
    {
        assert forall|post: NodeTable| #[trigger] post.items@ == self.items@.update(i, post.items@[i])
            && post.items@[i]@.id == self.ids()[i] implies post.wf() && post@ == self@.insert(self.ids()[i], post.items@[i]@) by {
            assert(post.ids() =~= self.ids());
            NodeTable::lemma_update_one(*self, post, i);
        }
    }

    /// Changing one entry of a table (keeping its id) changes its view at
    /// that id only.
    proof fn lemma_update_one(pre: NodeTable, post: NodeTable, i: int)
        requires
            pre.wf(),
            0 <= i < pre.items@.len(),
            post.ids() == pre.ids(),
            forall|k: int| 0 <= k < pre.items@.len() && k != i ==> post.items@[k] == pre.items@[k],
        ensures
            post.wf(),
            post.items@.len() == pre.items@.len(),
            post@ == pre@.insert(pre.ids()[i], post.items@[i]@),
    {
        pre.lemma_index_of(i);
        post.lemma_index_of(i);
        pre.lemma_same_ids(&post);
        assert forall|id: Seq<char>| #[trigger] post@.contains_key(id) implies post@[id] == pre@.insert(
            pre.ids()[i],
            post.items@[i]@,
        )[id] by {
            let k = pre.index_of(id);
            pre.lemma_index_of(k);
            post.lemma_index_of(k);
            lemma_strictly_sorted_no_duplicates(pre.ids());
        }
        assert(post@ =~= pre@.insert(pre.ids()[i], post.items@[i]@));
    }
}


/// The text of the error for taking down a link that is already down.
pub open spec fn already_down_text(a: Seq<char>, b: Seq<char>) -> Seq<char> {
    "link "@ + pair_text(a, b) + " already down"@
}

/// The text of the error for bringing up a link that is already up.
pub open spec fn already_up_text(a: Seq<char>, b: Seq<char>) -> Seq<char> {
    "link "@ + pair_text(a, b) + " already up"@
}

/// The text of the error for propagating over a link that is down.
pub open spec fn no_link_pair_text(a: Seq<char>, b: Seq<char>) -> Seq<char> {
    "no link "@ + pair_text(a, b) + ", cannot propagate"@
}

/// The text of the error for a propagate that would deliver nothing.
pub open spec fn nothing_deliverable_text(a: Seq<char>, b: Seq<char>) -> Seq<char> {
    "nothing deliverable from "@ + a + " to "@ + b
}

/// The link set with the link between `a` and `b` taken down.
pub open spec fn without_link(up: Set<(Seq<char>, Seq<char>)>, a: Seq<char>, b: Seq<char>) -> Set<
    (Seq<char>, Seq<char>),
> {
    up.remove((a, b)).remove((b, a))
}

/// The link set with the link between `a` and `b` up.
pub open spec fn with_link(up: Set<(Seq<char>, Seq<char>)>, a: Seq<char>, b: Seq<char>) -> Set<
    (Seq<char>, Seq<char>),
> {
    up.insert((a, b)).insert((b, a))
}

/// The nodes after LinkUp(n, m): both ledgers become the merge of the two
/// sides; spent sets are untouched.
pub open spec fn link_up_nodes(v: NetworkView, n: Seq<char>, m: Seq<char>) -> Map<Seq<char>, NodeView> {
    let merged = merged_ledger(v.nodes[n].ledger, v.nodes[n].spent, v.nodes[m].ledger, v.nodes[m].spent);
    v.nodes.insert(n, NodeView { ledger: merged, ..v.nodes[n] }).insert(
        m,
        NodeView { ledger: merged, ..v.nodes[m] },
    )
}

/// The bearers Propagate(src, dst) delivers: what `src` holds that `dst`
/// neither has spent nor holds.
pub open spec fn propagate_deliverable(v: NetworkView, src: Seq<char>, dst: Seq<char>) -> Set<Seq<char>> {
    deliverable_from(v.nodes[dst].ledger, v.nodes[dst].spent, v.nodes[src].ledger)
}

/// The nodes after SpendAt(nn, bb): `bb` joins `nn`'s spent set and leaves
/// the ledger of `nn` and of every node directly linked to `nn`.
pub open spec fn spend_nodes(v: NetworkView, nn: Seq<char>, bb: Seq<char>) -> Map<Seq<char>, NodeView> {
    Map::new(
        |id: Seq<char>| v.nodes.contains_key(id),
        |id: Seq<char>|
            NodeView {
                id: v.nodes[id].id,
                ledger: if id == nn || v.up.contains((nn, id)) {
                    v.nodes[id].ledger.remove(bb)
                } else {
                    v.nodes[id].ledger
                },
                spent: if id == nn {
                    v.nodes[id].spent.insert(bb)
                } else {
                    v.nodes[id].spent
                },
            },
    )
}

/// The nodes directly linked to `n`.
pub open spec fn neighbours(v: NetworkView, n: Seq<char>) -> Set<Seq<char>> {
    Set::new(|m: Seq<char>| v.up.contains((n, m)) && m != n)
}

impl Network {
    /// The nodes currently linked to `n` (empty for an unknown node).
    pub fn connected_to(&self, n: &str) -> (r: NameSet)
        requires
            self.wf(),
        ensures
            r@ == neighbours(self@, n@),
    {
        let mut r = NameSet::new();
        match self.nodes.position(n) {
            None => {
                proof {
                    self.lemma_wf();
                }
                assert(r@ =~= neighbours(self@, n@));
                r
            },
            Some(i) => {
                let count = self.links.len();
                let mut j: usize = 0;
                while j < count
                    invariant
                        self.wf(),
                        count == self.links@.len(),
                        i < count,
                        self.nodes.ids()[i as int] == n@,
                        j <= count,
                        r@ == Set::new(|m: Seq<char>| exists|k: int| 0 <= k < j && self.links@[i as int]@[k]
                            && k != i && #[trigger] self.nodes.ids()[k] == m),
                    decreases count - j,
                {
                    let ghost before = r@;
                    if self.links[i][j] && j != i {
                        r.insert(self.nodes.items[j].node_id.clone());
                        assert(self.nodes.ids()[j as int] == self.nodes.items@[j as int]@.id);
                    }
                    assert(r@ =~= Set::new(|m: Seq<char>| exists|k: int| 0 <= k < j + 1 && self.links@[i as int]@[k]
                        && k != i && #[trigger] self.nodes.ids()[k] == m)) by {
                        assert forall|m: Seq<char>| #[trigger] r@.contains(m) implies exists|k: int| 0 <= k < j + 1
                            && self.links@[i as int]@[k] && k != i && #[trigger] self.nodes.ids()[k] == m by {
                            if !before.contains(m) {
                                assert(self.nodes.ids()[j as int] == m);
                            }
                        }
                    }
                    j = j + 1;
                }
                assert(r@ =~= neighbours(self@, n@)) by {
                    assert forall|m: Seq<char>| #[trigger] r@.contains(m) <==> neighbours(self@, n@).contains(m) by {
                        if r@.contains(m) {
                            let k = choose|k: int| 0 <= k < count && self.links@[i as int]@[k] && k != i
                                && #[trigger] self.nodes.ids()[k] == m;
                            self.lemma_up_at(i as int, k);
                            self.nodes.lemma_index_of(i as int);
                            self.nodes.lemma_index_of(k);
                            lemma_strictly_sorted_no_duplicates(self.nodes.ids());
                        }
                        if neighbours(self@, n@).contains(m) {
                            self.lemma_wf();
                            let k = self.nodes.index_of(m);
                            self.nodes.lemma_index_of(k);
                            self.lemma_up_at(i as int, k);
                            assert(self.nodes.ids()[k] == m);
                        }
                    }
                }
                r
            },
        }
    }

    /// LinkDown(n, m): takes a link down, both directions.
    pub fn link_down(&mut self, n: &str, m: &str) -> (r: Result<(), NetworkError>)
        requires
            old(self).wf(),
        ensures
            final(self).wf(),
            r is Err ==> final(self)@ == old(self)@,
            n@ == m@ ==> r is Err && r->Err_0.0@ == self_link_text(),
            n@ != m@ && !(old(self)@.nodes.contains_key(n@) && old(self)@.nodes.contains_key(m@))
                ==> r is Err && r->Err_0.0@ == unknown_pair_text(n@, m@),
            n@ != m@ && old(self)@.nodes.contains_key(n@) && old(self)@.nodes.contains_key(m@)
                && !old(self)@.up.contains((n@, m@)) ==> r is Err && r->Err_0.0@ == already_down_text(n@, m@),
            n@ != m@ && old(self)@.up.contains((n@, m@)) ==> {
                &&& r is Ok
                &&& final(self)@.nodes == old(self)@.nodes
                &&& final(self)@.up == without_link(old(self)@.up, n@, m@)
                &&& final(self)@.log == old(self)@.log.push(("LinkDown"@, pair_text(n@, m@)))
            },
    {
        proof {
            self.lemma_wf();
        }
        if crate::text::str_equal(n, m) {
            return Err(NetworkError(text_string("cannot link a node to itself")));
        }
        let linked = match self.is_linked(n, m) {
            Ok(b) => b,
            Err(e) => return Err(e),
        };
        if !linked {
            let mut text = text_string("link ");
            push_text(&mut text, n);
            push_text(&mut text, "-");
            push_text(&mut text, m);
            push_text(&mut text, " already down");
            assert(text@ =~= already_down_text(n@, m@));
            return Err(NetworkError(text));
        }
        let i = self.nodes.position(n).unwrap();
        let j = self.nodes.position(m).unwrap();
        self.set_link_at(i, j, false);
        let mut detail = text_string(n);
        push_text(&mut detail, "-");
        push_text(&mut detail, m);
        self.record("LinkDown", detail);
        assert forall|p: (Seq<char>, Seq<char>)| self@.up.contains(p) == without_link(old(self)@.up, n@, m@).contains(p) by {
            assert(p == (p.0, p.1));
        }
        assert(self@.up =~= without_link(old(self)@.up, n@, m@));
        Ok(())
    }

    /// LinkUp(n, m): brings a link up and merges the two ledgers:
    /// `(ledger[n] ∪ ledger[m]) \ (spent[n] ∪ spent[m])` on both sides.
    ///
    /// Spent sets are never rewritten by a merge: `spent` only grows when a
    /// node itself spends.
    pub fn link_up(&mut self, n: &str, m: &str) -> (r: Result<(), NetworkError>)
        requires
            old(self).wf(),
        ensures
            final(self).wf(),
            r is Err ==> final(self)@ == old(self)@,
            n@ == m@ ==> r is Err && r->Err_0.0@ == self_link_text(),
            n@ != m@ && !(old(self)@.nodes.contains_key(n@) && old(self)@.nodes.contains_key(m@))
                ==> r is Err && r->Err_0.0@ == unknown_pair_text(n@, m@),
            n@ != m@ && old(self)@.up.contains((n@, m@)) ==> r is Err && r->Err_0.0@ == already_up_text(n@, m@),
            n@ != m@ && old(self)@.nodes.contains_key(n@) && old(self)@.nodes.contains_key(m@)
                && !old(self)@.up.contains((n@, m@)) ==> {
                &&& r is Ok
                &&& final(self)@.nodes == link_up_nodes(old(self)@, n@, m@)
                &&& final(self)@.up == with_link(old(self)@.up, n@, m@)
                &&& final(self)@.log == old(self)@.log.push(("LinkUp"@, pair_text(n@, m@)))
            },
    {
        proof {
            self.lemma_wf();
        }
        if crate::text::str_equal(n, m) {
            return Err(NetworkError(text_string("cannot link a node to itself")));
        }
        let linked = match self.is_linked(n, m) {
            Ok(b) => b,
            Err(e) => return Err(e),
        };
        if linked {
            let mut text = text_string("link ");
            push_text(&mut text, n);
            push_text(&mut text, "-");
            push_text(&mut text, m);
            push_text(&mut text, " already up");
            assert(text@ =~= already_up_text(n@, m@));
            return Err(NetworkError(text));
        }
        let i = self.nodes.position(n).unwrap();
        let j = self.nodes.position(m).unwrap();
        proof {
            self.nodes.lemma_index_of(i as int);
            self.nodes.lemma_index_of(j as int);
        }
        let mut known_spent = self.nodes.items[i].spent.clone();
        known_spent.extend(&self.nodes.items[j].spent);
        let mut merged = self.nodes.items[i].ledger.clone();
        merged.extend(&self.nodes.items[j].ledger);
        merged.remove_all(&known_spent);
        let copy = merged.clone();
        let ghost pre = *self;
        self.nodes.set_ledger(i, merged);
        self.nodes.set_ledger(j, copy);
        proof {
            Network::lemma_nodes_replaced(&pre, self);
        }
        let ghost mid = *self;
        self.set_link_at(i, j, true);
        let mut detail = text_string(n);
        push_text(&mut detail, "-");
        push_text(&mut detail, m);
        self.record("LinkUp", detail);
        assert(self@.nodes =~= link_up_nodes(old(self)@, n@, m@));
        assert forall|p: (Seq<char>, Seq<char>)| self@.up.contains(p) == with_link(old(self)@.up, n@, m@).contains(p) by {
            assert(p == (p.0, p.1));
            assert(mid.nodes.ids() == pre.nodes.ids());
        }
        assert(self@.up =~= with_link(old(self)@.up, n@, m@));
        Ok(())
    }
}


/// The audit detail of a Propagate: `src->dst: [..]` with the delivered
/// bearers in increasing order, rendered as `Debug` renders a list.
pub open spec fn propagate_detail(src: Seq<char>, dst: Seq<char>, delivered: Set<Seq<char>>) -> Seq<char> {
    src + "->"@ + dst + ": "@ + debug_list_text(sorted_listing(delivered))
}

/// The audit detail of a SpendAt: `nn: bb`.
pub open spec fn spend_detail(nn: Seq<char>, bb: Seq<char>) -> Seq<char> {
    nn + ": "@ + bb
}

impl Network {
    /// Propagate(src, dst): over a direct link, `dst` receives the bearers
    /// `src` holds that `dst` has neither spent nor already holds.
    ///
    /// Deliverability only looks at `dst`'s own sets, never at `dst`'s other
    /// neighbours, so a bearer one neighbour has spent can still reach
    /// `dst` from another neighbour that has not heard of the spend.
    pub fn propagate(&mut self, src: &str, dst: &str) -> (r: Result<(), NetworkError>)
        requires
            old(self).wf(),
        ensures
            final(self).wf(),
            r is Err ==> final(self)@ == old(self)@,
            !(old(self)@.nodes.contains_key(src@) && old(self)@.nodes.contains_key(dst@)) ==> r is Err
                && r->Err_0.0@ == unknown_pair_text(src@, dst@),
            old(self)@.nodes.contains_key(src@) && old(self)@.nodes.contains_key(dst@)
                && !old(self)@.up.contains((src@, dst@)) ==> r is Err && r->Err_0.0@
                == no_link_pair_text(src@, dst@),
            old(self)@.up.contains((src@, dst@)) && propagate_deliverable(old(self)@, src@, dst@).is_empty()
                ==> r is Err && r->Err_0.0@ == nothing_deliverable_text(src@, dst@),
            old(self)@.up.contains((src@, dst@)) && !propagate_deliverable(old(self)@, src@, dst@).is_empty()
                ==> {
                &&& r is Ok
                &&& final(self)@.nodes == old(self)@.nodes.insert(
                    dst@,
                    NodeView {
                        ledger: old(self)@.nodes[dst@].ledger.union(propagate_deliverable(old(self)@, src@, dst@)),
                        ..old(self)@.nodes[dst@]
                    },
                )
                &&& final(self)@.up == old(self)@.up
                &&& final(self)@.log == old(self)@.log.push(
                    ("Propagate"@, propagate_detail(src@, dst@, propagate_deliverable(old(self)@, src@, dst@))),
                )
            },
    {
        proof {
            self.lemma_wf();
        }
        let linked = match self.is_linked(src, dst) {
            Ok(b) => b,
            Err(e) => return Err(e),
        };
        if !linked {
            let mut text = text_string("no link ");
            push_text(&mut text, src);
            push_text(&mut text, "-");
            push_text(&mut text, dst);
            push_text(&mut text, ", cannot propagate");
            assert(text@ =~= no_link_pair_text(src@, dst@));
            return Err(NetworkError(text));
        }
        let i = self.nodes.position(src).unwrap();
        let j = self.nodes.position(dst).unwrap();
        proof {
            self.nodes.lemma_index_of(i as int);
            self.nodes.lemma_index_of(j as int);
        }
        let mut deliverable = self.nodes.items[i].ledger.clone();
        deliverable.remove_all(&self.nodes.items[j].spent);
        deliverable.remove_all(&self.nodes.items[j].ledger);
        if deliverable.is_empty() {
            let mut text = text_string("nothing deliverable from ");
            push_text(&mut text, src);
            push_text(&mut text, " to ");
            push_text(&mut text, dst);
            assert(text@ =~= nothing_deliverable_text(src@, dst@));
            return Err(NetworkError(text));
        }
        let ghost pre = *self;
        self.nodes.deliver_to(j, &deliverable);
        proof {
            Network::lemma_nodes_replaced(&pre, self);
        }
        let delivered = deliverable.to_vec();
        proof {
            lemma_is_sorted_listing(names_of(delivered@), deliverable@);
        }
        let listing = debug_list(&delivered);
        let mut detail = text_string(src);
        push_text(&mut detail, "->");
        push_text(&mut detail, dst);
        push_text(&mut detail, ": ");
        push_text(&mut detail, listing.as_str());
        assert(detail@ =~= propagate_detail(src@, dst@, deliverable@));
        self.record("Propagate", detail);
        Ok(())
    }

    /// SpendAt(nn, bb): `nn` spends a bearer it holds. The revocation reaches
    /// `nn` and its current direct neighbours only; a node not linked to
    /// `nn` right now keeps the bearer until a later Propagate/LinkUp.
    pub fn spend_at(&mut self, nn: &str, bb: &str) -> (r: Result<(), NetworkError>)
        requires
            old(self).wf(),
        ensures
            final(self).wf(),
            !(old(self)@.nodes.contains_key(nn@) && old(self)@.nodes[nn@].ledger.contains(bb@)) ==> {
                &&& r is Err
                &&& r->Err_0.0@ == not_held_text(nn@, bb@)
                &&& final(self)@ == old(self)@
            },
            old(self)@.nodes.contains_key(nn@) && old(self)@.nodes[nn@].ledger.contains(bb@) ==> {
                &&& r is Ok
                &&& final(self)@.nodes == spend_nodes(old(self)@, nn@, bb@)
                &&& final(self)@.up == old(self)@.up
                &&& final(self)@.log == old(self)@.log.push(("SpendAt"@, spend_detail(nn@, bb@)))
            },
    {
        proof {
            self.lemma_wf();
        }
        let holds = match self.nodes.get(nn) {
            Some(node) => node.holds(bb),
            None => false,
        };
        if !holds {
            let mut text = text_string(nn);
            push_text(&mut text, " does not hold ");
            push_text(&mut text, bb);
            push_text(&mut text, ", cannot spend");
            assert(text@ =~= not_held_text(nn@, bb@));
            return Err(NetworkError(text));
        }
        let i = self.nodes.position(nn).unwrap();
        let ghost pre = *self;
        let ghost target = spend_nodes(pre@, nn@, bb@);
        proof {
            self.nodes.lemma_index_of(i as int);
        }
        self.nodes.mark_spent(i, bb);
        proof {
            Network::lemma_nodes_replaced(&pre, self);
        }
        let ghost mid = *self;
        let mut single = NameSet::new();
        single.insert(text_string(bb));
        let count = self.links.len();
        let mut j: usize = 0;
        while j < count
            invariant
                self.wf(),
                pre.wf(),
                count == self.links@.len(),
                self.links == pre.links,
                self.log == pre.log,
                self.nodes.ids() == pre.nodes.ids(),
                self.nodes.items@.len() == count,
                i < count,
                pre.nodes.ids()[i as int] == nn@,
                single@ == set![bb@],
                target == spend_nodes(pre@, nn@, bb@),
                pre@.nodes.contains_key(nn@),
                forall|k: int| 0 <= k < count ==> #[trigger] self.nodes.items@[k]@ == (if k < j {
                    target[pre.nodes.ids()[k]]
                } else {
                    mid.nodes.items@[k]@
                }),
                forall|k: int| 0 <= k < count ==> #[trigger] mid.nodes.items@[k]@ == (if k == i {
                    NodeView { spent: pre.nodes.items@[k]@.spent.insert(bb@), ..pre.nodes.items@[k]@ }
                } else {
                    pre.nodes.items@[k]@
                }),
            decreases count - j,
        {
            proof {
                pre.nodes.lemma_index_of(j as int);
                pre.nodes.lemma_index_of(i as int);
                pre.lemma_up_at(i as int, j as int);
                lemma_strictly_sorted_no_duplicates(pre.nodes.ids());
                assert(pre.nodes.ids()[j as int] == nn@ <==> j == i);
            }
            if j == i || self.links[i][j] {
                let ghost before = *self;
                self.nodes.burn_from(j, &single);
                proof {
                    assert(before.nodes.items@[j as int]@.ledger.difference(single@) =~= before.nodes.items@[j as int]@.ledger.remove(bb@));
                    before.nodes.lemma_index_of(j as int);
                }
            }
            j = j + 1;
        }
        proof {
            Network::lemma_nodes_replaced(&pre, self);
            self.nodes.lemma_view_from_entries(|id: Seq<char>| target[id]);
            pre.nodes.lemma_dom();
            self.nodes.lemma_dom();
            assert(self@.nodes =~= target);
        }
        let mut detail = text_string(nn);
        push_text(&mut detail, ": ");
        push_text(&mut detail, bb);
        assert(detail@ =~= spend_detail(nn@, bb@));
        self.record("SpendAt", detail);
        Ok(())
    }
}


/// The nodes of `p` (that exist) which spent `b`.
pub open spec fn spenders_in(v: NetworkView, p: Set<Seq<char>>, b: Seq<char>) -> Set<Seq<char>> {
    Set::new(|id: Seq<char>| p.contains(id) && v.nodes.contains_key(id) && v.nodes[id].spent.contains(b))
}

/// Every bearer spent by some node of `p`.
pub open spec fn spent_in(v: NetworkView, p: Set<Seq<char>>) -> Set<Seq<char>> {
    Set::new(|b: Seq<char>| exists|id: Seq<char>| p.contains(id) && v.nodes.contains_key(id) && #[trigger] v.nodes[id].spent.contains(b))
}

/// The ids of the first `k` nodes of the table that are in `p` and spent `b`.
spec fn spenders_upto(t: NodeTable, p: Set<Seq<char>>, k: int, b: Seq<char>) -> Set<Seq<char>> {
    Set::new(|id: Seq<char>| exists|m: int| 0 <= m < k && p.contains(t.ids()[m]) && t.ids()[m] == id
        && #[trigger] t.items@[m]@.spent.contains(b))
}

/// What the first `k` nodes of the table that are in `p` spent.
spec fn spent_upto(t: NodeTable, p: Set<Seq<char>>, k: int) -> Set<Seq<char>> {
    Set::new(|b: Seq<char>| exists|m: int| 0 <= m < k && p.contains(t.ids()[m])
        && #[trigger] t.items@[m]@.spent.contains(b))
}

impl NodeTable {
    proof fn lemma_upto_step(&self, p: Set<Seq<char>>, k: int)
        requires
            0 <= k < self.items@.len(),
        ensures
            forall|b: Seq<char>| #[trigger] spenders_upto(*self, p, k + 1, b) == (if p.contains(self.ids()[k])
                && self.items@[k]@.spent.contains(b) {
                spenders_upto(*self, p, k, b).insert(self.ids()[k])
            } else {
                spenders_upto(*self, p, k, b)
            }),
            spent_upto(*self, p, k + 1) == (if p.contains(self.ids()[k]) {
                spent_upto(*self, p, k).union(self.items@[k]@.spent)
            } else {
                spent_upto(*self, p, k)
            }),
    {
        let t = *self;
        assert forall|b: Seq<char>| #[trigger] spenders_upto(t, p, k + 1, b) == (if p.contains(t.ids()[k])
            && t.items@[k]@.spent.contains(b) {
            spenders_upto(t, p, k, b).insert(t.ids()[k])
        } else {
            spenders_upto(t, p, k, b)
        }) by {
            let rhs = if p.contains(t.ids()[k]) && t.items@[k]@.spent.contains(b) {
                spenders_upto(t, p, k, b).insert(t.ids()[k])
            } else {
                spenders_upto(t, p, k, b)
            };
            assert forall|id: Seq<char>| spenders_upto(t, p, k + 1, b).contains(id) <==> rhs.contains(id) by {
                if p.contains(t.ids()[k]) && t.items@[k]@.spent.contains(b) && id == t.ids()[k] {
                    assert(0 <= k < k + 1 && p.contains(t.ids()[k]) && t.ids()[k] == id && t.items@[k]@.spent.contains(b));
                }
            }
            assert(spenders_upto(t, p, k + 1, b) =~= rhs);
        }
        let rhs = if p.contains(t.ids()[k]) {
            spent_upto(t, p, k).union(t.items@[k]@.spent)
        } else {
            spent_upto(t, p, k)
        };
        assert forall|b: Seq<char>| spent_upto(t, p, k + 1).contains(b) <==> rhs.contains(b) by {
            if p.contains(t.ids()[k]) && t.items@[k]@.spent.contains(b) {
                assert(0 <= k < k + 1 && p.contains(t.ids()[k]) && t.items@[k]@.spent.contains(b));
            }
        }
        assert(spent_upto(t, p, k + 1) =~= rhs);
    }

    proof fn lemma_upto_all(&self, p: Set<Seq<char>>)
        requires
            self.wf(),
        ensures
            forall|b: Seq<char>| #[trigger] spenders_upto(*self, p, self.items@.len() as int, b) == Set::new(
                |id: Seq<char>| p.contains(id) && self@.contains_key(id) && self@[id].spent.contains(b),
            ),
            spent_upto(*self, p, self.items@.len() as int) == Set::new(|b: Seq<char>| exists|id: Seq<char>|
                p.contains(id) && self@.contains_key(id) && #[trigger] self@[id].spent.contains(b)),
    {
        let t = *self;
        let n = self.items@.len() as int;
        assert forall|b: Seq<char>| #[trigger] spenders_upto(t, p, n, b) == Set::new(
            |id: Seq<char>| p.contains(id) && self@.contains_key(id) && self@[id].spent.contains(b),
        ) by {
            let rhs = Set::new(|id: Seq<char>| p.contains(id) && self@.contains_key(id) && self@[id].spent.contains(b));
            assert forall|id: Seq<char>| spenders_upto(t, p, n, b).contains(id) <==> rhs.contains(id) by {
                if spenders_upto(t, p, n, b).contains(id) {
                    let m = choose|m: int| 0 <= m < n && p.contains(t.ids()[m]) && t.ids()[m] == id
                        && #[trigger] t.items@[m]@.spent.contains(b);
                    self.lemma_index_of(m);
                }
                if rhs.contains(id) {
                    let m = self.index_of(id);
                    self.lemma_index_of(m);
                    assert(t.ids()[m] == id);
                    assert(0 <= m < n && p.contains(t.ids()[m]) && t.ids()[m] == id && t.items@[m]@.spent.contains(b));
                }
            }
            assert(spenders_upto(t, p, n, b) =~= rhs);
        }
        let rhs = Set::new(|b: Seq<char>| exists|id: Seq<char>| p.contains(id) && self@.contains_key(id)
            && #[trigger] self@[id].spent.contains(b));
        assert forall|b: Seq<char>| spent_upto(t, p, n).contains(b) <==> rhs.contains(b) by {
            if spent_upto(t, p, n).contains(b) {
                let m = choose|m: int| 0 <= m < n && p.contains(t.ids()[m]) && #[trigger] t.items@[m]@.spent.contains(b);
                self.lemma_index_of(m);
                assert(self@[t.ids()[m]].spent.contains(b));
            }
            if rhs.contains(b) {
                let id = choose|id: Seq<char>| p.contains(id) && self@.contains_key(id) && #[trigger] self@[id].spent.contains(b);
                let m = self.index_of(id);
                self.lemma_index_of(m);
                assert(t.ids()[m] == id);
                assert(0 <= m < n && p.contains(t.ids()[m]) && t.items@[m]@.spent.contains(b));
            }
        }
        assert(spent_upto(t, p, n) =~= rhs);
    }
}

impl Network {
    /// The id and spent set of every node in `participants` (every node when
    /// `None`), in table order.
    pub(crate) fn spent_holders(&self, participants: Option<&NameSet>) -> (h: Vec<(String, NameSet)>)
        requires
            self.wf(),
        ensures
            forall|b: Seq<char>| #[trigger] spenders_among(holders_view(h@), b) == spenders_in(
                self@,
                participants_of(self@, participants),
                b,
            ),
            spent_among(holders_view(h@)) == spent_in(self@, participants_of(self@, participants)),
    {
        let ghost pset = participants_of(self@, participants);
        let mut h: Vec<(String, NameSet)> = Vec::new();
        let count = self.nodes.items.len();
        let mut k: usize = 0;
        assert(spent_among(holders_view(h@)) =~= spent_upto(self.nodes, pset, 0));
        assert forall|b: Seq<char>| #[trigger] spenders_among(holders_view(h@), b) == spenders_upto(self.nodes, pset, 0, b) by {
            assert(spenders_among(holders_view(h@), b) =~= spenders_upto(self.nodes, pset, 0, b));
        }
        while k < count
            invariant
                self.wf(),
                count == self.nodes.items@.len(),
                pset == participants_of(self@, participants),
                k <= count,
                forall|b: Seq<char>| #[trigger] spenders_among(holders_view(h@), b) == spenders_upto(self.nodes, pset, k as int, b),
                spent_among(holders_view(h@)) == spent_upto(self.nodes, pset, k as int),
            decreases count - k,
        {
            let taking_part = match participants {
                Some(p) => p.contains(self.nodes.items[k].node_id.as_str()),
                None => true,
            };
            proof {
                self.nodes.lemma_index_of(k as int);
                assert(self.nodes.ids()[k as int] == self.nodes.items@[k as int]@.id);
                assert(taking_part == pset.contains(self.nodes.ids()[k as int]));
                self.nodes.lemma_upto_step(pset, k as int);
            }
            let ghost prev = holders_view(h@);
            if taking_part {
                h.push((self.nodes.items[k].node_id.clone(), self.nodes.items[k].spent.clone()));
                proof {
                    let x = (self.nodes.ids()[k as int], self.nodes.items@[k as int]@.spent);
                    assert(holders_view(h@) =~= prev.push(x));
                    lemma_spent_push(prev, x);
                    assert forall|b: Seq<char>| #[trigger] spenders_among(holders_view(h@), b) == spenders_upto(self.nodes, pset, k + 1, b) by {
                        lemma_spenders_push(prev, x, b);
                    }
                }
            }
            k = k + 1;
        }
        proof {
            self.nodes.lemma_upto_all(pset);
            assert forall|b: Seq<char>| #[trigger] spenders_among(holders_view(h@), b) == spenders_in(self@, pset, b) by {
                assert(spenders_in(self@, pset, b) =~= Set::new(|id: Seq<char>| pset.contains(id) && self.nodes@.contains_key(id) && self.nodes@[id].spent.contains(b)));
            }
            assert(spent_in(self@, pset) =~= spent_upto(self.nodes, pset, count as int));
        }
        h
    }

    /// NoDoubleSpendAcrossNodes: every bearer spent by more than one node,
    /// with its spenders. Empty exactly when the invariant holds.
    pub fn no_double_spend_across_nodes(&self) -> (r: Vec<(String, Vec<String>)>)
        requires
            self.wf(),
        ensures
            reports_conflicts(report_view(r@), |b: Seq<char>| spenders_in(self@, self@.nodes.dom(), b)),
    {
        let holders = self.spent_holders(None);
        let (report, _all) = find_conflicts(&holders);
        proof {
            assert((|b: Seq<char>| spenders_among(holders_view(holders@), b)) =~= (|b: Seq<char>| spenders_in(
                self@,
                self@.nodes.dom(),
                b,
            )));
        }
        report
    }
}

/// The nodes a reconciliation covers: the given set, or every node.
pub open spec fn participants_of(v: NetworkView, participants: Option<&NameSet>) -> Set<Seq<char>> {
    match participants {
        Some(p) => p@,
        None => v.nodes.dom(),
    }
}

/// Linked nodes `n1` and `n2`, where one of them has spent `b` and one of
/// them still holds it.
pub open spec fn unsynced(v: NetworkView, n1: Seq<char>, n2: Seq<char>, b: Seq<char>) -> bool {
    &&& v.up.contains((n1, n2))
    &&& v.nodes[n1].spent.contains(b) || v.nodes[n2].spent.contains(b)
    &&& v.nodes[n1].ledger.contains(b) || v.nodes[n2].ledger.contains(b)
}

/// Lexicographic order on (node, node, bearer) triples.
pub open spec fn triple_lt(x: (Seq<char>, Seq<char>, Seq<char>), y: (Seq<char>, Seq<char>, Seq<char>)) -> bool {
    ||| text_lt(x.0, y.0)
    ||| x.0 == y.0 && text_lt(x.1, y.1)
    ||| x.0 == y.0 && x.1 == y.1 && text_lt(x.2, y.2)
}

/// A list of triples as plain text values.
pub open spec fn triples_view(r: Seq<(String, String, String)>) -> Seq<(Seq<char>, Seq<char>, Seq<char>)> {
    r.map_values(|t: (String, String, String)| (t.0@, t.1@, t.2@))
}

/// The triples are in strictly increasing order.
pub open spec fn triples_sorted(s: Seq<(Seq<char>, Seq<char>, Seq<char>)>) -> bool {
    forall|i: int, j: int| 0 <= i < j < s.len() ==> triple_lt(#[trigger] s[i], #[trigger] s[j])
}

/// The bearers one of two nodes has spent and one of them still holds.
fn unsynced_bearers(a: &Node, c: &Node) -> (bad: NameSet)
    ensures
        forall|b: Seq<char>| #[trigger] bad@.contains(b) <==> (a@.spent.contains(b) || c@.spent.contains(b)) && (
        a@.ledger.contains(b) || c@.ledger.contains(b)),
{
    let mut spent = a.spent.clone();
    spent.extend(&c.spent);
    proof {
        use_type_invariant(&spent);
        spent.lemma_well_formed();
    }
    let mut bad = NameSet::new();
    let n = spent.len();
    let mut k: usize = 0;
    while k < n
        invariant
            n == spent.names().len(),
            spent@ == a@.spent.union(c@.spent),
            spent@ == spent.names().to_set(),
            k <= n,
            forall|b: Seq<char>| #[trigger] bad@.contains(b) <==> spent.names().subrange(0, k as int).to_set().contains(b)
                && (a@.ledger.contains(b) || c@.ledger.contains(b)),
        decreases n - k,
    {
        let b = spent.get(k);
        if a.ledger.contains(b.as_str()) || c.ledger.contains(b.as_str()) {
            bad.insert(b.clone());
        }
        proof {
            lemma_prefix_set_step(spent.names(), k as int);
        }
        k = k + 1;
    }
    assert(spent.names().subrange(0, n as int) =~= spent.names());
    bad
}

/// Appends (`a`, `c`, `b`) for each member `b` of `bad`, in increasing order.
fn append_triples(r: &mut Vec<(String, String, String)>, a: &String, c: &String, bad: &NameSet)
    ensures
        triples_view(final(r)@) == triples_view(old(r)@) + bad.names().map_values(|b: Seq<char>| (a@, c@, b)),
{
    let ghost start = triples_view(r@);
    let n = bad.len();
    let mut k: usize = 0;
    while k < n
        invariant
            n == bad.names().len(),
            k <= n,
            triples_view(r@) == start + bad.names().subrange(0, k as int).map_values(|b: Seq<char>| (a@, c@, b)),
        decreases n - k,
    {
        let ghost prev = r@;
        let b = bad.get(k);
        r.push((a.clone(), c.clone(), b.clone()));
        assert(triples_view(r@) =~= triples_view(prev).push((a@, c@, bad.names()[k as int])));
        assert(triples_view(r@) =~= start + bad.names().subrange(0, k + 1).map_values(|b: Seq<char>| (a@, c@, b)));
        k = k + 1;
    }
    assert(bad.names().subrange(0, n as int) =~= bad.names());
}

impl Network {
    /// Triple `t` names a pair of nodes that comes before the pair of
    /// positions (`i`, `j`) in the order of the sweep.
    spec fn pair_before(&self, t: (Seq<char>, Seq<char>, Seq<char>), i: int, j: int) -> bool {
        let a = self.nodes.index_of(t.0);
        let c = self.nodes.index_of(t.1);
        a < i || (a == i && c < j)
    }

    /// `s` is the sorted list of the unsynced triples of every pair of
    /// positions before (`i`, `j`).
    spec fn swept(&self, s: Seq<(Seq<char>, Seq<char>, Seq<char>)>, i: int, j: int) -> bool {
        &&& triples_sorted(s)
        &&& forall|k: int| 0 <= k < s.len() ==> unsynced(self@, (#[trigger] s[k]).0, s[k].1, s[k].2) && self.pair_before(s[k], i, j)
        &&& forall|t: (Seq<char>, Seq<char>, Seq<char>)| #[trigger] unsynced(self@, t.0, t.1, t.2) && self.pair_before(t, i, j) ==> s.contains(t)
    }

    /// Unsynced triples name nodes of the table.
    proof fn lemma_unsynced_nodes(&self, t: (Seq<char>, Seq<char>, Seq<char>))
        requires
            self.wf(),
            unsynced(self@, t.0, t.1, t.2),
        ensures
            self@.nodes.contains_key(t.0),
            self@.nodes.contains_key(t.1),
            0 <= self.nodes.index_of(t.0) < self.nodes.items@.len(),
            0 <= self.nodes.index_of(t.1) < self.nodes.items@.len(),
            self.nodes.ids()[self.nodes.index_of(t.0)] == t.0,
            self.nodes.ids()[self.nodes.index_of(t.1)] == t.1,
    {
        self.lemma_wf();
        let k0 = choose|k: int| 0 <= k < self.nodes.ids().len() && self.nodes.ids()[k] == t.0;
        let k1 = choose|k: int| 0 <= k < self.nodes.ids().len() && self.nodes.ids()[k] == t.1;
        self.nodes.lemma_index_of(k0);
        self.nodes.lemma_index_of(k1);
    }

    /// The sweep passes over pair (`i`, `j`) when it has no unsynced triple.
    proof fn lemma_swept_skip(&self, s: Seq<(Seq<char>, Seq<char>, Seq<char>)>, i: int, j: int)
        requires
            self.wf(),
            0 <= i < self.nodes.items@.len(),
            0 <= j < self.nodes.items@.len(),
            i == j || !self.links@[i]@[j],
            self.swept(s, i, j),
        ensures
            self.swept(s, i, j + 1),
    {
        self.lemma_up_at(i, j);
        self.lemma_wf();
        assert forall|k: int| 0 <= k < s.len() implies unsynced(self@, (#[trigger] s[k]).0, s[k].1, s[k].2) && self.pair_before(s[k], i, j + 1) by {
        }
        assert forall|t: (Seq<char>, Seq<char>, Seq<char>)| #[trigger] unsynced(self@, t.0, t.1, t.2) && self.pair_before(t, i, j + 1) implies s.contains(t) by {
            self.lemma_unsynced_nodes(t);
            if !self.pair_before(t, i, j) {
                assert(t.0 == self.nodes.ids()[i] && t.1 == self.nodes.ids()[j]);
            }
        }
    }

    /// Appending the unsynced triples of pair (`i`, `j`) moves the sweep on.
    #[verifier::rlimit(40)]
    proof fn lemma_swept_append(
        &self,
        s: Seq<(Seq<char>, Seq<char>, Seq<char>)>,
        i: int,
        j: int,
        names: Seq<Seq<char>>,
        bad: Set<Seq<char>>,
    )
        requires
            self.wf(),
            0 <= i < self.nodes.items@.len(),
            0 <= j < self.nodes.items@.len(),
            self.links@[i]@[j],
            self.swept(s, i, j),
            strictly_sorted(names),
            bad == names.to_set(),
            forall|b: Seq<char>| #[trigger] bad.contains(b) <==> (self.nodes.items@[i]@.spent.contains(b)
                || self.nodes.items@[j]@.spent.contains(b)) && (self.nodes.items@[i]@.ledger.contains(b)
                || self.nodes.items@[j]@.ledger.contains(b)),
        ensures
            self.swept(
                s + names.map_values(|b: Seq<char>| (self.nodes.ids()[i], self.nodes.ids()[j], b)),
                i,
                j + 1,
            ),
    {
        let a = self.nodes.ids()[i];
        let c = self.nodes.ids()[j];
        let tail = names.map_values(|b: Seq<char>| (a, c, b));
        let s2 = s + tail;
        self.lemma_up_at(i, j);
        self.nodes.lemma_index_of(i);
        self.nodes.lemma_index_of(j);
        assert(self.nodes.ids()[i] == self.nodes.items@[i]@.id);
        assert forall|k1: int, k2: int| 0 <= k1 < k2 < s2.len() implies triple_lt(#[trigger] s2[k1], #[trigger] s2[k2]) by {
            if k2 < s.len() {
                assert(s2[k1] == s[k1] && s2[k2] == s[k2]);
            } else if k1 < s.len() {
                assert(s2[k1] == s[k1]);
                assert(unsynced(self@, s[k1].0, s[k1].1, s[k1].2) && self.pair_before(s[k1], i, j));
                self.lemma_unsynced_nodes(s[k1]);
                let p = self.nodes.index_of(s[k1].0);
                let q = self.nodes.index_of(s[k1].1);
                if p < i {
                    assert(text_lt(self.nodes.ids()[p], self.nodes.ids()[i]));
                } else {
                    assert(text_lt(self.nodes.ids()[q], self.nodes.ids()[j]));
                }
                assert(s2[k2] == tail[k2 - s.len()]);
            } else {
                assert(s2[k1] == tail[k1 - s.len()]);
                assert(s2[k2] == tail[k2 - s.len()]);
                assert(text_lt(names[k1 - s.len()], names[k2 - s.len()]));
            }
        }
        assert forall|k: int| 0 <= k < s2.len() implies unsynced(self@, (#[trigger] s2[k]).0, s2[k].1, s2[k].2) && self.pair_before(s2[k], i, j + 1) by {
            if k < s.len() {
                assert(s2[k] == s[k]);
                assert(unsynced(self@, s[k].0, s[k].1, s[k].2) && self.pair_before(s[k], i, j));
            } else {
                assert(s2[k] == tail[k - s.len()]);
                assert(names.contains(names[k - s.len()]));
                assert(bad.contains(names[k - s.len()]));
            }
        }
        assert forall|t: (Seq<char>, Seq<char>, Seq<char>)| #[trigger] unsynced(self@, t.0, t.1, t.2) && self.pair_before(t, i, j + 1) implies s2.contains(t) by {
            self.lemma_unsynced_nodes(t);
            if self.pair_before(t, i, j) {
                let k = choose|k: int| 0 <= k < s.len() && s[k] == t;
                assert(s2[k] == t);
            } else {
                assert(t.0 == a && t.1 == c);
                assert(bad.contains(t.2));
                let m = choose|m: int| 0 <= m < names.len() && names[m] == t.2;
                assert(s2[s.len() + m] == tail[m]);
            }
        }
    }

    /// Finishing row `i` of the sweep starts row `i + 1`.
    proof fn lemma_swept_row(&self, s: Seq<(Seq<char>, Seq<char>, Seq<char>)>, i: int)
        requires
            self.wf(),
            self.swept(s, i, self.nodes.items@.len() as int),
        ensures
            self.swept(s, i + 1, 0),
    {
        let n = self.nodes.items@.len() as int;
        assert forall|k: int| 0 <= k < s.len() implies unsynced(self@, (#[trigger] s[k]).0, s[k].1, s[k].2) && self.pair_before(s[k], i + 1, 0) by {
            assert(unsynced(self@, s[k].0, s[k].1, s[k].2) && self.pair_before(s[k], i, n));
        }
        assert forall|t: (Seq<char>, Seq<char>, Seq<char>)| #[trigger] unsynced(self@, t.0, t.1, t.2) && self.pair_before(t, i + 1, 0) implies s.contains(t) by {
            self.lemma_unsynced_nodes(t);
        }
    }

    /// PairwiseSyncedNoDoubleSpend: every triple (`n1`, `n2`, `b`) where
    /// `n1` and `n2` are linked, one of them has spent `b` and one of them
    /// still holds it, in increasing order. Empty exactly when no linked
    /// pair is out of step.
    pub fn pairwise_synced_no_double_spend(&self) -> (r: Vec<(String, String, String)>)
        requires
            self.wf(),
        ensures
            triples_sorted(triples_view(r@)),
            forall|t: (Seq<char>, Seq<char>, Seq<char>)| #[trigger] triples_view(r@).contains(t) <==> unsynced(
                self@,
                t.0,
                t.1,
                t.2,
            ),
    {
        let n = self.nodes.items.len();
        let mut r: Vec<(String, String, String)> = Vec::new();
        assert(self.swept(triples_view(r@), 0, 0)) by {
            assert forall|t: (Seq<char>, Seq<char>, Seq<char>)| #[trigger] unsynced(self@, t.0, t.1, t.2) && self.pair_before(t, 0, 0) implies triples_view(r@).contains(t) by {
                self.lemma_unsynced_nodes(t);
            }
        }
        let mut i: usize = 0;
        while i < n
            invariant
                self.wf(),
                n == self.nodes.items@.len(),
                i <= n,
                self.swept(triples_view(r@), i as int, 0),
            decreases n - i,
        {
            let mut j: usize = 0;
            while j < n
                invariant
                    self.wf(),
                    n == self.nodes.items@.len(),
                    i < n,
                    j <= n,
                    self.swept(triples_view(r@), i as int, j as int),
                decreases n - j,
            {
                assert(self.links@[i as int]@.len() == n);
                if i != j && self.links[i][j] {
                    let bad = unsynced_bearers(&self.nodes.items[i], &self.nodes.items[j]);
                    let ghost prev = triples_view(r@);
                    proof {
                        use_type_invariant(&bad);
                        bad.lemma_well_formed();
                        self.nodes.lemma_index_of(i as int);
                        self.nodes.lemma_index_of(j as int);
                        assert(self.nodes.ids()[i as int] == self.nodes.items@[i as int]@.id);
                        assert(self.nodes.ids()[j as int] == self.nodes.items@[j as int]@.id);
                    }
                    append_triples(&mut r, &self.nodes.items[i].node_id, &self.nodes.items[j].node_id, &bad);
                    proof {
                        self.lemma_swept_append(prev, i as int, j as int, bad.names(), bad@);
                    }
                } else {
                    proof {
                        self.lemma_swept_skip(triples_view(r@), i as int, j as int);
                    }
                }
                j = j + 1;
            }
            proof {
                self.lemma_swept_row(triples_view(r@), i as int);
            }
            i = i + 1;
        }
        proof {
            assert forall|t: (Seq<char>, Seq<char>, Seq<char>)| #[trigger] triples_view(r@).contains(t) <==> unsynced(self@, t.0, t.1, t.2) by {
                if unsynced(self@, t.0, t.1, t.2) {
                    self.lemma_unsynced_nodes(t);
                }
                if triples_view(r@).contains(t) {
                    let k = choose|k: int| 0 <= k < triples_view(r@).len() && triples_view(r@)[k] == t;
                }
            }
        }
        r
    }
}

/// The nodes after every node of `p` drops the bearers of `cleared` from
/// its ledger; spent sets are untouched.
pub open spec fn burned_nodes(v: NetworkView, p: Set<Seq<char>>, cleared: Set<Seq<char>>) -> Map<
    Seq<char>,
    NodeView,
> {
    Map::new(
        |id: Seq<char>| v.nodes.contains_key(id),
        |id: Seq<char>|
            if p.contains(id) {
                NodeView { ledger: v.nodes[id].ledger.difference(cleared), ..v.nodes[id] }
            } else {
                v.nodes[id]
            },
    )
}

impl Network {
    /// Removes the bearers of `cleared` from the ledger of every node in
    /// `participants` (every node when `None`).
    pub(crate) fn burn_participants(&mut self, participants: Option<&NameSet>, cleared: &NameSet)
        requires
            old(self).wf(),
        ensures
            final(self).wf(),
            final(self)@.nodes == burned_nodes(
                old(self)@,
                participants_of(old(self)@, participants),
                cleared@,
            ),
            final(self)@.up == old(self)@.up,
            final(self)@.log == old(self)@.log,
    {
        let ghost pre = *self;
        let ghost pset = participants_of(pre@, participants);
        let ghost target = burned_nodes(pre@, pset, cleared@);
        let count = self.nodes.items.len();
        let mut j: usize = 0;
        while j < count
            invariant
                self.wf(),
                pre.wf(),
                count == self.nodes.items@.len(),
                self.links == pre.links,
                self.log == pre.log,
                self.nodes.ids() == pre.nodes.ids(),
                pset == participants_of(pre@, participants),
                target == burned_nodes(pre@, pset, cleared@),
                forall|k: int| 0 <= k < count ==> #[trigger] self.nodes.items@[k]@ == (if k < j {
                    target[pre.nodes.ids()[k]]
                } else {
                    pre.nodes.items@[k]@
                }),
            decreases count - j,
        {
            proof {
                pre.nodes.lemma_index_of(j as int);
                assert(pre.nodes.ids()[j as int] == pre.nodes.items@[j as int]@.id);
                assert(self.nodes.ids()[j as int] == self.nodes.items@[j as int]@.id);
            }
            let taking_part = match participants {
                Some(p) => p.contains(self.nodes.items[j].node_id.as_str()),
                None => true,
            };
            if taking_part {
                let ghost before = *self;
                self.nodes.burn_from(j, cleared);
                proof {
                    before.nodes.lemma_index_of(j as int);
                }
            }
            j = j + 1;
        }
        proof {
            Network::lemma_nodes_replaced(&pre, self);
            self.nodes.lemma_view_from_entries(|id: Seq<char>| target[id]);
            pre.nodes.lemma_dom();
            self.nodes.lemma_dom();
            assert(self@.nodes =~= target);
        }
    }

    /// Whether some node in `participants` (every node when `None`) holds
    /// one of `bearers`.
    pub(crate) fn participants_hold_any(&self, participants: Option<&NameSet>, bearers: &NameSet) -> (r: bool)
        requires
            self.wf(),
        ensures
            r == exists|id: Seq<char>, b: Seq<char>| participants_of(self@, participants).contains(id)
                && self@.nodes.contains_key(id) && #[trigger] self@.nodes[id].ledger.contains(b)
                && bearers@.contains(b),
    {
        let ghost pset = participants_of(self@, participants);
        let count = self.nodes.items.len();
        let mut k: usize = 0;
        while k < count
            invariant
                self.wf(),
                count == self.nodes.items@.len(),
                pset == participants_of(self@, participants),
                k <= count,
                forall|m: int, b: Seq<char>| 0 <= m < k && pset.contains(self.nodes.ids()[m])
                    && #[trigger] self.nodes.items@[m]@.ledger.contains(b) ==> !bearers@.contains(b),
            decreases count - k,
        {
            proof {
                self.nodes.lemma_index_of(k as int);
                assert(self.nodes.ids()[k as int] == self.nodes.items@[k as int]@.id);
            }
            let taking_part = match participants {
                Some(p) => p.contains(self.nodes.items[k].node_id.as_str()),
                None => true,
            };
            if taking_part && !self.nodes.items[k].ledger.is_disjoint(bearers) {
                proof {
                    let b = choose|b: Seq<char>| self.nodes.items@[k as int]@.ledger.contains(b) && bearers@.contains(b);
                    let id = self.nodes.ids()[k as int];
                    assert(self@.nodes[id].ledger.contains(b));
                }
                return true;
            }
            k = k + 1;
        }
        proof {
            assert forall|id: Seq<char>, b: Seq<char>| !(pset.contains(id) && self@.nodes.contains_key(id)
                && #[trigger] self@.nodes[id].ledger.contains(b) && bearers@.contains(b)) by {
                if pset.contains(id) && self@.nodes.contains_key(id) && self@.nodes[id].ledger.contains(b) {
                    let m = self.nodes.index_of(id);
                    self.nodes.lemma_index_of(m);
                    assert(self.nodes.ids()[m] == id);
                    assert(self.nodes.items@[m]@.ledger.contains(b));
                }
            }
        }
        false
    }
}

/// How a node shows in a listing of the network's state: its id, then its
/// ledger and its spent set, each in increasing order.
pub open spec fn node_line_text(n: NodeView) -> Seq<char> {
    "  Node("@ + n.id + ", ledger="@ + debug_list_text(sorted_listing(n.ledger)) + ", spent="@ + debug_list_text(
        sorted_listing(n.spent),
    ) + ")"@
}

impl Network {
    /// The network's state, one line per node in increasing order of id.
    pub fn state_lines(&self) -> (lines: Vec<String>)
        requires
            self.wf(),
        ensures
            names_of(lines@) == sorted_listing(self@.nodes.dom()).map_values(
                |id: Seq<char>| node_line_text(self@.nodes[id]),
            ),
    {
        proof {
            self.nodes.lemma_dom();
            lemma_is_sorted_listing(self.nodes.ids(), self@.nodes.dom());
        }
        let ghost ids = self.nodes.ids();
        let mut lines: Vec<String> = Vec::new();
        let mut k: usize = 0;
        while k < self.nodes.items.len()
            invariant
                self.wf(),
                ids == self.nodes.ids(),
                k <= self.nodes.items@.len(),
                names_of(lines@) == ids.take(k as int).map_values(|id: Seq<char>| node_line_text(self@.nodes[id])),
            decreases self.nodes.items.len() - k,
        {
            let node = &self.nodes.items[k];
            let ledger = node.ledger.to_vec();
            let spent = node.spent.to_vec();
            proof {
                lemma_is_sorted_listing(names_of(ledger@), node@.ledger);
                lemma_is_sorted_listing(names_of(spent@), node@.spent);
                assert(ledger@.map_values(|t: String| t@) =~= names_of(ledger@));
                assert(spent@.map_values(|t: String| t@) =~= names_of(spent@));
                self.nodes.lemma_index_of(k as int);
                assert(ids[k as int] == node@.id);
            }
            let mut line = text_string("  Node(");
            push_text(&mut line, node.node_id.as_str());
            push_text(&mut line, ", ledger=");
            let shown = debug_list(&ledger);
            push_text(&mut line, shown.as_str());
            push_text(&mut line, ", spent=");
            let shown_spent = debug_list(&spent);
            push_text(&mut line, shown_spent.as_str());
            push_text(&mut line, ")");
            let ghost prev = lines@;
            lines.push(line);
            proof {
                assert(line@ =~= node_line_text(node@));
                assert(ids.take(k + 1) =~= ids.take(k as int).push(ids[k as int]));
                assert(names_of(lines@) =~= names_of(prev).push(line@));
                assert(names_of(lines@) =~= ids.take(k + 1).map_values(|id: Seq<char>| node_line_text(self@.nodes[id])));
            }
            k = k + 1;
        }
        assert(ids.take(self.nodes.items@.len() as int) =~= ids);
        lines
    }
}

impl Network {
    /// Puts `bearer` into the ledger of node `n`, with no provenance check
    /// and no log entry: how a network is given its first bearers. Returns
    /// whether there is such a node; without one nothing changes.
    pub fn seed(&mut self, n: &str, bearer: &str) -> (r: bool)
        requires
            old(self).wf(),
        ensures
            final(self).wf(),
            r == old(self)@.nodes.contains_key(n@),
            r ==> final(self)@.nodes == old(self)@.nodes.insert(
                n@,
                NodeView { ledger: old(self)@.nodes[n@].ledger.insert(bearer@), ..old(self)@.nodes[n@] },
            ),
            !r ==> final(self)@.nodes == old(self)@.nodes,
            final(self)@.up == old(self)@.up,
            final(self)@.log == old(self)@.log,
    {
        match self.nodes.position(n) {
            None => false,
            Some(i) => {
                let ghost pre = *self;
                let mut single = NameSet::new();
                single.insert(text_string(bearer));
                proof {
                    pre.nodes.lemma_index_of(i as int);
                }
                self.nodes.deliver_to(i, &single);
                proof {
                    Network::lemma_nodes_replaced(&pre, self);
                    assert(pre.nodes.items@[i as int]@.ledger.union(single@) =~= pre.nodes.items@[i as int]@.ledger.insert(bearer@));
                    assert(self@.log =~= pre@.log);
                }
                true
            },
        }
    }
}

/// Propagate(src, dst) delivers exactly what `src` holds that `dst`
/// neither holds nor has spent: in particular nothing `dst` has spent ever
/// comes back to it.
pub proof fn lemma_propagate_delivers_only_unspent(v: NetworkView, src: Seq<char>, dst: Seq<char>)
    ensures
        forall|b: Seq<char>| #[trigger] propagate_deliverable(v, src, dst).contains(b) <==> (
        v.nodes[src].ledger.contains(b) && !v.nodes[dst].spent.contains(b) && !v.nodes[dst].ledger.contains(
            b,
        )),
{
}

/// After a successful Propagate(src, dst), `dst` holds no bearer it has
/// spent that it did not hold before, and holds nothing `src` did not
/// offer; its spent set is unchanged and no other node changes.
pub proof fn lemma_propagate_never_returns_spent(pre: NetworkView, post: NetworkView, src: Seq<char>, dst: Seq<char>)
    requires
        post.nodes == pre.nodes.insert(
            dst,
            NodeView { ledger: pre.nodes[dst].ledger.union(propagate_deliverable(pre, src, dst)), ..pre.nodes[dst] },
        ),
    ensures
        forall|b: Seq<char>| #[trigger] post.nodes[dst].ledger.contains(b) && pre.nodes[dst].spent.contains(b)
            ==> pre.nodes[dst].ledger.contains(b),
        forall|b: Seq<char>| #[trigger] post.nodes[dst].ledger.contains(b) ==> pre.nodes[dst].ledger.contains(b)
            || pre.nodes[src].ledger.contains(b),
        post.nodes[dst].spent == pre.nodes[dst].spent,
        forall|id: Seq<char>| id != dst ==> #[trigger] post.nodes.contains_key(id) == pre.nodes.contains_key(id)
            && post.nodes[id] == pre.nodes[id],
{
    lemma_propagate_delivers_only_unspent(pre, src, dst);
}

/// LinkUp(n, m) gives both nodes the same ledger: everything either of
/// them held, minus everything either of them had spent; spent sets stay
/// as they were, no other node changes, and it does not matter which of
/// the two is named first.
pub proof fn lemma_link_up_burns_what_either_spent(v: NetworkView, n: Seq<char>, m: Seq<char>)
    ensures
        forall|b: Seq<char>| #[trigger] link_up_nodes(v, n, m)[n].ledger.contains(b) <==> ((
        v.nodes[n].ledger.contains(b) || v.nodes[m].ledger.contains(b)) && !v.nodes[n].spent.contains(b)
            && !v.nodes[m].spent.contains(b)),
        link_up_nodes(v, n, m)[m].ledger == link_up_nodes(v, n, m)[n].ledger,
        forall|b: Seq<char>| v.nodes[n].spent.contains(b) || v.nodes[m].spent.contains(b) ==> !#[trigger] link_up_nodes(
            v,
            n,
            m,
        )[n].ledger.contains(b) && !link_up_nodes(v, n, m)[m].ledger.contains(b),
        link_up_nodes(v, n, m)[n].spent == v.nodes[n].spent,
        link_up_nodes(v, n, m)[m].spent == v.nodes[m].spent,
        forall|id: Seq<char>| id != n && id != m ==> #[trigger] link_up_nodes(v, n, m).contains_key(id)
            == v.nodes.contains_key(id) && link_up_nodes(v, n, m)[id] == v.nodes[id],
        link_up_nodes(v, n, m) == link_up_nodes(v, m, n),
{
    let a = link_up_nodes(v, n, m);
    let c = link_up_nodes(v, m, n);
    let mn = merged_ledger(v.nodes[n].ledger, v.nodes[n].spent, v.nodes[m].ledger, v.nodes[m].spent);
    let mm = merged_ledger(v.nodes[m].ledger, v.nodes[m].spent, v.nodes[n].ledger, v.nodes[n].spent);
    assert(mn =~= mm);
    if n == m {
        assert(a =~= c);
    } else {
        assert(a =~= c);
    }
}

} // verus!
