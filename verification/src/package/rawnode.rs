//! The raw graph of packages: who requires whom, before any resolution.

use crate::package::ident::Ident;
use vstd::prelude::*;

verus! {

/// A node of a raw graph: an identity, and the places in the graph of the
/// nodes that it depends on, in the order in which they were added.
#[derive(Clone, Debug, PartialEq, Eq)]
pub struct RawNode<Id: Ident> {
    pub id: Id,
    pub deps: Vec<usize>,
}

impl<Id: Ident> RawNode<Id> {
    /// A node that depends on nothing yet.
    pub fn new(id: Id) -> (r: Self)
        ensures
            r.id == id,
            r.deps@ == Seq::<usize>::empty(),
    {
        RawNode { id, deps: Vec::new() }
    }

    /// Adds the node at place `other` as the last dependency.
    pub fn add_dependency(&mut self, other: usize)
        ensures
            final(self).id == old(self).id,
            final(self).deps@ == old(self).deps@.push(other),
    {
        self.deps.push(other);
    }
}

/// A raw graph: its nodes, each at a place, and the place of its root.
#[derive(Clone, Debug, PartialEq, Eq)]
pub struct RawGraph<Id: Ident> {
    pub nodes: Vec<RawNode<Id>>,
    pub root: usize,
}

impl<Id: Ident> RawGraph<Id> {
    /// The key of each node, place by place.
    pub open spec fn keys(&self) -> Seq<Id::V> {
        Seq::new(self.nodes.len() as nat, |i: int| self.nodes[i].id@)
    }

    /// The root and every dependency are places of the graph.
    pub open spec fn well_formed(&self) -> bool {
        &&& self.root < self.nodes.len()
        &&& forall|i: int, j: int|
            0 <= i < self.nodes.len() && 0 <= j < self.nodes[i].deps.len()
                ==> #[trigger] self.nodes[i].deps[j] < self.nodes.len()
    }

    /// The keys of the nodes that the node at place `i` depends on, in order.
    pub open spec fn dep_keys(&self, i: int) -> Seq<Id::V> {
        Seq::new(self.nodes[i].deps.len() as nat, |j: int| self.keys()[self.nodes[i].deps[j] as int])
    }
}

} // verus!
