//! Nodes of a requirement graph, and how one is solved.

pub mod cause;
pub mod laws;
pub mod model;
pub mod resolvable;
pub mod resolved;
pub mod solvability;

use crate::node::cause::Cause;
use crate::node::model::consistent;
use crate::node::model::NodeView;
use crate::node::model::solve_spec;
use crate::node::resolvable::Resolvable;
use crate::node::resolved::Resolved;
use crate::node::solvability::Solvability;
use crate::package::ident::Ident;
use crate::path::Path;
use vstd::prelude::*;
use vstd::std_specs::cmp::PartialEqSpecImpl;

verus! {

/// A node of the graph: an identity, and what must resolve for the node to
/// be usable.
#[derive(Debug, Hash)]
pub struct Node<Id: Ident> {
    pub id: Id,
    pub dependency: Option<Resolvable<Id>>,
}

impl<Id: Ident> Node<Id> {
    /// The model of the node: its key, and the model of what it requires.
    pub open spec fn model(&self) -> NodeView<Id::V>
        decreases self,
    {
        NodeView {
            id: self.id@,
            dependency: match self.dependency {
                Some(requirement) => Some(requirement.model()),
                None => None,
            },
        }
    }

    /// How `path` stands: in conflict when an identity occurs twice on it.
    pub fn solvability(path: &Path<'_, Id>) -> (r: Solvability)
        ensures
            r == if consistent(path@) {
                Solvability::Solvable
            } else {
                Solvability::Conflict
            },
    {
        if path.conflict() {
            Solvability::Conflict
        } else {
            Solvability::Solvable
        }
    }

    /// Solves this node at the end of `path`: finds every path that starts
    /// with `path` and this node and satisfies what the node requires.
    ///
    /// The node joins the path. If an identity then occurs twice on it, the
    /// node fails, and blames itself if it is on the path twice. Else a node
    /// that requires nothing succeeds with the path, and a node that requires
    /// something has the outcome of that, without the blame on itself.
    pub fn solve<'a>(&'a self, path: Path<'a, Id>) -> (r: Resolved<'a, Id>)
        ensures
            r@ == solve_spec(self@, path@),
        decreases self,
    {
        let trail = path.append(self);
        match Self::solvability(&trail) {
            Solvability::Conflict => {
                let cause = if trail.unique(self) {
                    Cause::empty()
                } else {
                    Cause::from(self)
                };
                Resolved::failure(cause)
            },
            Solvability::Solvable => match &self.dependency {
                None => Resolved::success(trail),
                Some(requirement) => {
                    let sub = requirement.resolve(trail);
                    Self::promoted(sub, self)
                },
            },
        }
    }

    /// The outcome `sub` of what `node` requires, as the outcome of `node`:
    /// the same paths, and the same blame but for `node` itself.
    pub fn promoted<'a>(sub: Resolved<'a, Id>, node: &'a Node<Id>) -> (r: Resolved<'a, Id>)
        ensures
            r@ == crate::node::model::promoted(sub@, node@),
    {
        Resolved::new(sub.paths, sub.cause.above(node))
    }

    /// A copy of the node and of all that it requires.
    pub fn duplicate(&self) -> (r: Self)
        ensures
            r@ == self@,
        decreases self,
    {
        proof {
            Id::lemma_clone_keeps_key();
        }
        let id = self.id.clone();
        assert(cloned::<Id>(self.id, id));
        Node {
            id,
            dependency: match &self.dependency {
                Some(requirement) => Some(requirement.duplicate()),
                None => None,
            },
        }
    }

    /// Whether the two nodes have the same key and require the same.
    pub fn same(&self, other: &Self) -> (r: bool)
        ensures
            r == (self@ == other@),
        decreases self,
    {
        proof {
            Id::lemma_eq_compares_keys();
        }
        if self.id != other.id {
            return false;
        }
        match (&self.dependency, &other.dependency) {
            (None, None) => true,
            (Some(mine), Some(theirs)) => mine.same(theirs),
            _ => false,
        }
    }
}

impl<Id: Ident> View for Node<Id> {
    type V = NodeView<Id::V>;

    open spec fn view(&self) -> NodeView<Id::V> {
        self.model()
    }
}

/// The model of each node, position by position.
pub open spec fn node_views<Id: Ident>(nodes: Seq<Node<Id>>) -> Seq<NodeView<Id::V>>
    decreases nodes,
{
    Seq::new(
        nodes.len(),
        |i: int|
            if 0 <= i < nodes.len() {
                nodes[i].model()
            } else {
                arbitrary()
            },
    )
}

impl<Id: Ident> Clone for Node<Id> {
    fn clone(&self) -> (r: Self)
        ensures
            r@ == self@,
    {
        self.duplicate()
    }
}

impl<Id: Ident> PartialEq for Node<Id> {
    fn eq(&self, other: &Self) -> (r: bool) {
        self.same(other)
    }
}

impl<Id: Ident + Eq> Eq for Node<Id> {

}

impl<Id: Ident> PartialEqSpecImpl for Node<Id> {
    open spec fn obeys_eq_spec() -> bool {
        true
    }

    open spec fn eq_spec(&self, other: &Self) -> bool {
        self@ == other@
    }
}

} // verus!
