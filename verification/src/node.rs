//! One node's holdings: the bearers in its ledger and the bearers it has
//! itself spent.
use vstd::prelude::*;

use crate::names::NameSet;
use crate::text::text_string;

verus! {

#[derive(Debug)]
pub struct Node {
    pub node_id: String,
    /// Bearers this node currently holds.
    pub ledger: NameSet,
    /// Bearers this node has spent.
    pub spent: NameSet,
}

/// The content of a `Node`.
pub struct NodeView {
    pub id: Seq<char>,
    pub ledger: Set<Seq<char>>,
    pub spent: Set<Seq<char>>,
}

impl View for Node {
    type V = NodeView;

    open spec fn view(&self) -> NodeView {
        NodeView { id: self.node_id@, ledger: self.ledger@, spent: self.spent@ }
    }
}

impl Node {
    /// A node holding nothing and having spent nothing.
    pub fn new(node_id: &str) -> (n: Node)
        ensures
            n@.id == node_id@,
            n@.ledger == Set::<Seq<char>>::empty(),
            n@.spent == Set::<Seq<char>>::empty(),
    {
        Node { node_id: text_string(node_id), ledger: NameSet::new(), spent: NameSet::new() }
    }

    /// Whether the node currently holds `bearer`.
    pub fn holds(&self, bearer: &str) -> (b: bool)
        ensures
            b == self@.ledger.contains(bearer@),
    {
        self.ledger.contains(bearer)
    }
}

impl Clone for Node {
    fn clone(&self) -> (n: Self)
        ensures
            n@ == self@,
    {
        Node { node_id: self.node_id.clone(), ledger: self.ledger.clone(), spent: self.spent.clone() }
    }
}

} // verus!
