//! One node's local view in the distributed deployment: its own `Node`
//! plus the state of its link to each peer it has heard of.
//!
//! A distributed node only has its own state plus whatever a peer sends it,
//! so the merge and filter steps here take the peer's data as arguments.
//! Propagate is filtered by the requester: a `PropagateReply` carries the
//! source's raw ledger and the receiver keeps what it neither holds nor
//! has spent.
use vstd::prelude::*;

use crate::names::{lists_sorted, names_of, NameSet};
use crate::node::{Node, NodeView};
use crate::text::{push_text, text_string};

verus! {

/// An error from a local state transition; the text says why.
#[derive(Debug)]
pub struct StateError(pub String);

/// The link state towards each peer this node has heard of
/// (`true` = link up). Peers never mentioned count as not linked.
#[derive(Debug)]
pub struct PeerLinks {
    known: NameSet,
    up: NameSet,
}

impl View for PeerLinks {
    type V = Map<Seq<char>, bool>;

    closed spec fn view(&self) -> Map<Seq<char>, bool> {
        Map::new(|p: Seq<char>| self.known@.contains(p), |p: Seq<char>| self.up@.contains(p))
    }
}

/// Whether the link to `peer` is up in `links`.
pub open spec fn link_is_up(links: Map<Seq<char>, bool>, peer: Seq<char>) -> bool {
    links.contains_key(peer) && links[peer]
}

impl PeerLinks {
    #[verifier::type_invariant]
    closed spec fn well_formed(&self) -> bool {
        self.up@.subset_of(self.known@)
    }

    /// No peer heard of yet.
    pub fn new() -> (l: PeerLinks)
        ensures
            l@ == Map::<Seq<char>, bool>::empty(),
    {
        let l = PeerLinks { known: NameSet::new(), up: NameSet::new() };
        assert(l@ =~= Map::<Seq<char>, bool>::empty());
        l
    }

    /// Records the link to `peer` as up or down.
    pub fn set(&mut self, peer: &str, state: bool)
        ensures
            final(self)@ == old(self)@.insert(peer@, state),
    {
        proof {
            use_type_invariant(&*self);
        }
        let mut taken = PeerLinks::new();
        std::mem::swap(&mut taken, self);
        proof {
            use_type_invariant(&taken);
        }
        let PeerLinks { mut known, mut up } = taken;
        known.insert(text_string(peer));
        if state {
            up.insert(text_string(peer));
        } else {
            up.remove(peer);
        }
        *self = PeerLinks { known, up };
        assert(self@ =~= old(self)@.insert(peer@, state));
    }

    /// Whether the link to `peer` is up.
    pub fn is_up(&self, peer: &str) -> (b: bool)
        ensures
            b == link_is_up(self@, peer@),
    {
        proof {
            use_type_invariant(self);
        }
        self.up.contains(peer)
    }

    /// The peers whose link is up, in increasing order.
    pub fn up_peers(&self) -> (v: Vec<String>)
        ensures
            lists_sorted(names_of(v@), Set::new(|p: Seq<char>| link_is_up(self@, p))),
    {
        proof {
            use_type_invariant(self);
        }
        let v = self.up.to_vec();
        assert(names_of(v@).to_set() =~= Set::new(|p: Seq<char>| link_is_up(self@, p)));
        v
    }
}

/// One node's local, mutable view: its own node data plus its links.
pub struct NodeShared {
    pub node: Node,
    pub links: PeerLinks,
}

/// The content of a `NodeShared`.
pub struct NodeSharedView {
    pub node: NodeView,
    pub links: Map<Seq<char>, bool>,
}

impl View for NodeShared {
    type V = NodeSharedView;

    open spec fn view(&self) -> NodeSharedView {
        NodeSharedView { node: self.node@, links: self.links@ }
    }
}

/// The LinkUp merge `(ledger ∪ peer_ledger) \ (spent ∪ peer_spent)`: what
/// both sides hold, minus anything either side knows was spent.
pub open spec fn merged_ledger(
    ledger: Set<Seq<char>>,
    spent: Set<Seq<char>>,
    peer_ledger: Set<Seq<char>>,
    peer_spent: Set<Seq<char>>,
) -> Set<Seq<char>> {
    ledger.union(peer_ledger).difference(spent.union(peer_spent))
}

/// The Propagate filter: the peer's bearers this node neither has spent
/// nor already holds.
pub open spec fn deliverable_from(
    ledger: Set<Seq<char>>,
    spent: Set<Seq<char>>,
    peer_ledger: Set<Seq<char>>,
) -> Set<Seq<char>> {
    peer_ledger.difference(spent).difference(ledger)
}

/// The text of the error for spending a bearer that is not held.
pub open spec fn not_held_text(node_id: Seq<char>, bearer: Seq<char>) -> Seq<char> {
    node_id + " does not hold "@ + bearer + ", cannot spend"@
}

impl NodeShared {
    /// A fresh node with no holdings and no links.
    pub fn new(node_id: &str) -> (s: NodeShared)
        ensures
            s@.node.id == node_id@,
            s@.node.ledger == Set::<Seq<char>>::empty(),
            s@.node.spent == Set::<Seq<char>>::empty(),
            s@.links == Map::<Seq<char>, bool>::empty(),
    {
        NodeShared { node: Node::new(node_id), links: PeerLinks::new() }
    }

    /// Whether the link to `peer` is up; unknown peers are not linked.
    pub fn is_linked(&self, peer: &str) -> (b: bool)
        ensures
            b == link_is_up(self@.links, peer@),
    {
        self.links.is_up(peer)
    }

    /// Records the link to `peer` as up or down.
    pub fn set_link(&mut self, peer: &str, up: bool)
        ensures
            final(self)@.links == old(self)@.links.insert(peer@, up),
            final(self)@.node == old(self)@.node,
    {
        self.links.set(peer, up);
    }

    /// The peers whose link is up, in increasing order.
    pub fn connected_peers(&self) -> (v: Vec<String>)
        ensures
            lists_sorted(names_of(v@), Set::new(|p: Seq<char>| link_is_up(self@.links, p))),
    {
        self.links.up_peers()
    }

    /// The LinkUp merge of this node's state with a peer's raw ledger and
    /// spent set. Changes nothing.
    pub fn compute_link_up_merge(&self, peer_ledger: &NameSet, peer_spent: &NameSet) -> (m: NameSet)
        ensures
            m@ == merged_ledger(self@.node.ledger, self@.node.spent, peer_ledger@, peer_spent@),
    {
        let mut known_spent = self.node.spent.clone();
        known_spent.extend(peer_spent);
        let mut merged = self.node.ledger.clone();
        merged.extend(peer_ledger);
        merged.remove_all(&known_spent);
        merged
    }

    /// Installs a computed merge: the ledger becomes `merged` and the link to
    /// `peer` is up. The spent set is unchanged.
    pub fn apply_link_up(&mut self, peer: &str, merged: NameSet)
        ensures
            final(self)@.node.ledger == merged@,
            final(self)@.node.spent == old(self)@.node.spent,
            final(self)@.node.id == old(self)@.node.id,
            final(self)@.links == old(self)@.links.insert(peer@, true),
    {
        self.node.ledger = merged;
        self.set_link(peer, true);
    }

    /// Marks the link to `peer` down.
    pub fn apply_link_down(&mut self, peer: &str)
        ensures
            final(self)@.node == old(self)@.node,
            final(self)@.links == old(self)@.links.insert(peer@, false),
    {
        self.set_link(peer, false);
    }

    /// The Propagate filter against a peer's raw ledger. Changes nothing.
    pub fn compute_propagate_deliverable(&self, peer_ledger: &NameSet) -> (d: NameSet)
        ensures
            d@ == deliverable_from(self@.node.ledger, self@.node.spent, peer_ledger@),
    {
        let mut d = peer_ledger.clone();
        d.remove_all(&self.node.spent);
        d.remove_all(&self.node.ledger);
        d
    }

    /// Adds the delivered bearers to the ledger.
    pub fn apply_propagate_deliverable(&mut self, deliverable: NameSet)
        ensures
            final(self)@.node.ledger == old(self)@.node.ledger.union(deliverable@),
            final(self)@.node.spent == old(self)@.node.spent,
            final(self)@.node.id == old(self)@.node.id,
            final(self)@.links == old(self)@.links,
    {
        self.node.ledger.extend(&deliverable);
    }

    /// A peer reported spending `bearer`: stop holding it. This node's own
    /// spent set is untouched (the peer spent it, not this node).
    pub fn apply_spent_notify(&mut self, bearer: &str)
        ensures
            final(self)@.node.ledger == old(self)@.node.ledger.remove(bearer@),
            final(self)@.node.spent == old(self)@.node.spent,
            final(self)@.node.id == old(self)@.node.id,
            final(self)@.links == old(self)@.links,
    {
        self.node.ledger.remove(bearer);
    }

    /// Spends a held bearer locally: it is added to the spent set and
    /// leaves the ledger. Broadcasting the spend is the caller's job.
    pub fn local_spend(&mut self, bearer: &str) -> (r: Result<(), StateError>)
        ensures
            old(self)@.node.ledger.contains(bearer@) ==> {
                &&& r is Ok
                &&& final(self)@.node.spent == old(self)@.node.spent.insert(bearer@)
                &&& final(self)@.node.ledger == old(self)@.node.ledger.remove(bearer@)
                &&& final(self)@.node.id == old(self)@.node.id
                &&& final(self)@.links == old(self)@.links
            },
            !old(self)@.node.ledger.contains(bearer@) ==> {
                &&& r is Err
                &&& r->Err_0.0@ == not_held_text(old(self)@.node.id, bearer@)
                &&& final(self)@ == old(self)@
            },
    {
        if !self.node.ledger.contains(bearer) {
            let mut text = self.node.node_id.clone();
            push_text(&mut text, " does not hold ");
            push_text(&mut text, bearer);
            push_text(&mut text, ", cannot spend");
            return Err(StateError(text));
        }
        self.node.spent.insert(text_string(bearer));
        self.node.ledger.remove(bearer);
        Ok(())
    }

    /// The ledger in increasing order.
    pub fn ledger_sorted(&self) -> (v: Vec<String>)
        ensures
            lists_sorted(names_of(v@), self@.node.ledger),
    {
        self.node.ledger.to_vec()
    }

    /// The spent set in increasing order.
    pub fn spent_sorted(&self) -> (v: Vec<String>)
        ensures
            lists_sorted(names_of(v@), self@.node.spent),
    {
        self.node.spent.to_vec()
    }
}

} // verus!
