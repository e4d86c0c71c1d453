//! The trail of nodes visited on one branch of the search.

use crate::node::model::consistent;
use crate::node::model::occurrences;
use crate::node::model::path_keys;
use crate::node::model::PathView;
use crate::node::Node;
use crate::package::ident::Ident;
use crate::package::ident::keys_of;
use vstd::prelude::*;
use vstd::std_specs::cmp::PartialEqSpecImpl;

verus! {

/// The nodes visited on one branch, first to last. A branch that forks
/// clones its path: no two branches share one.
#[derive(Debug)]
pub struct Path<'a, Id: Ident> {
    pub nodes: Vec<&'a Node<Id>>,
}

/// The model of each node referred to, position by position.
pub open spec fn ref_views<Id: Ident>(nodes: Seq<&Node<Id>>) -> PathView<Id::V> {
    Seq::new(nodes.len(), |i: int| nodes[i]@)
}

/// The model of each path, position by position.
pub open spec fn path_views<'a, Id: Ident>(paths: Seq<Path<'a, Id>>) -> Seq<PathView<Id::V>> {
    Seq::new(paths.len(), |i: int| paths[i]@)
}

impl<'a, Id: Ident> View for Path<'a, Id> {
    type V = PathView<Id::V>;

    open spec fn view(&self) -> PathView<Id::V> {
        ref_views(self.nodes@)
    }
}

impl<'a, Id: Ident> Path<'a, Id> {
    /// The path over `nodes`.
    pub fn new(nodes: Vec<&'a Node<Id>>) -> (r: Self)
        ensures
            r.nodes == nodes,
    {
        Path { nodes: nodes }
    }

    /// The path with `node` added at its end.
    pub fn append(self, node: &'a Node<Id>) -> (r: Self)
        ensures
            r@ == self@.push(node@),
    {
        let mut nodes = self.nodes;
        nodes.push(node);
        Path { nodes }
    }

    /// The paths of `elements` one after another, as one path.
    pub fn chain(elements: Vec<Self>) -> (r: Self)
        ensures
            r@ == path_views(elements@).flatten(),
    {
        let ghost parts = path_views(elements@);
        let mut nodes: Vec<&'a Node<Id>> = Vec::new();
        let mut i: usize = 0;
        while i < elements.len()
            invariant
                i <= elements.len(),
                parts == path_views(elements@),
                ref_views(nodes@) == parts.take(i as int).flatten(),
            decreases elements.len() - i,
        {
            let part = &elements[i].nodes;
            let ghost before = ref_views(nodes@);
            let mut j: usize = 0;
            while j < part.len()
                invariant
                    j <= part.len(),
                    ref_views(nodes@) == before + ref_views(part@).take(j as int),
                decreases part.len() - j,
            {
                let ghost so_far = nodes@;
                nodes.push(part[j]);
                assert(ref_views(nodes@) =~= ref_views(so_far).push(part[j as int]@));
                j += 1;
            }
            proof {
                assert(parts.take(i + 1) =~= parts.take(i as int).push(parts[i as int]));
                parts.take(i as int).lemma_flatten_push(parts[i as int]);
            }
            i += 1;
        }
        assert(parts.take(i as int) =~= parts);
        Path { nodes }
    }

    /// Whether this path begins with the nodes of `prefix`, in their order.
    pub fn starts_with(&self, prefix: &Self) -> (b: bool)
        ensures
            b == prefix@.is_prefix_of(self@),
    {
        if prefix.nodes.len() > self.nodes.len() {
            return false;
        }
        let mut i: usize = 0;
        while i < prefix.nodes.len()
            invariant
                i <= prefix.nodes.len() <= self.nodes.len(),
                forall|j: int| 0 <= j < i ==> self@[j] == prefix@[j],
            decreases prefix.nodes.len() - i,
        {
            if !self.nodes[i].same(prefix.nodes[i]) {
                assert(self@.subrange(0, prefix@.len() as int)[i as int] != prefix@[i as int]);
                return false;
            }
            i += 1;
        }
        true
    }

    /// What this path has after `prefix`, with which it must begin.
    pub fn suffix(&self, prefix: &Self) -> (r: Self)
        requires
            prefix@.is_prefix_of(self@),
        ensures
            r@ == self@.skip(prefix@.len() as int),
    {
        let mut nodes: Vec<&'a Node<Id>> = Vec::new();
        let start = prefix.nodes.len();
        let mut i: usize = start;
        while i < self.nodes.len()
            invariant
                start <= i <= self.nodes.len(),
                ref_views(nodes@) == self@.subrange(start as int, i as int),
            decreases self.nodes.len() - i,
        {
            nodes.push(self.nodes[i]);
            assert(self@.subrange(start as int, i + 1) =~= self@.subrange(
                start as int,
                i as int,
            ).push(self@[i as int]));
            i += 1;
        }
        Path { nodes }
    }

    /// Whether `el` occurs exactly once on this path.
    pub fn unique(&self, el: &Node<Id>) -> (b: bool)
        ensures
            b == (occurrences(self@, el@) == 1),
    {
        let mut count: usize = 0;
        let mut i: usize = 0;
        while i < self.nodes.len()
            invariant
                i <= self.nodes.len(),
                count <= i,
                count == occurrences(self@.take(i as int), el@),
            decreases self.nodes.len() - i,
        {
            proof {
                assert(self@.take(i + 1).drop_last() =~= self@.take(i as int));
            }
            if self.nodes[i].same(el) {
                count += 1;
            }
            i += 1;
        }
        assert(self@.take(i as int) =~= self@);
        count == 1
    }

    /// The identities of the nodes on this path, position by position.
    pub fn idents(&self) -> (r: Vec<Id>)
        ensures
            keys_of(r@) == path_keys(self@),
    {
        proof {
            Id::lemma_clone_keeps_key();
        }
        let mut ids: Vec<Id> = Vec::new();
        let mut i: usize = 0;
        while i < self.nodes.len()
            invariant
                i <= self.nodes.len(),
                ids.len() == i,
                forall|a: Id, b: Id| #[trigger] cloned::<Id>(a, b) ==> (a@ == b@),
                forall|j: int| 0 <= j < i ==> ids[j]@ == self.nodes[j].id@,
            decreases self.nodes.len() - i,
        {
            let id = self.nodes[i].id.clone();
            assert(cloned::<Id>(self.nodes[i as int].id, id));
            ids.push(id);
            i += 1;
        }
        ids
    }

    /// Whether some identity occurs twice on this path.
    pub fn conflict(&self) -> (b: bool)
        ensures
            b == !consistent(self@),
    {
        Id::are_conflicting(&self.idents())
    }
}

impl<'a, Id: Ident> Clone for Path<'a, Id> {
    fn clone(&self) -> (r: Self)
        ensures
            r.nodes@ == self.nodes@,
    {
        let mut nodes: Vec<&'a Node<Id>> = Vec::new();
        let mut i: usize = 0;
        while i < self.nodes.len()
            invariant
                i <= self.nodes.len(),
                nodes@ == self.nodes@.take(i as int),
            decreases self.nodes.len() - i,
        {
            nodes.push(self.nodes[i]);
            i += 1;
        }
        Path { nodes }
    }
}

impl<'a, Id: Ident> PartialEq for Path<'a, Id> {
    fn eq(&self, other: &Self) -> (r: bool) {
        if self.nodes.len() != other.nodes.len() {
            return false;
        }
        let same = self.starts_with(other);
        assert(other@.is_prefix_of(self@) <==> self@ =~= other@);
        same
    }
}

impl<'a, Id: Ident + Eq> Eq for Path<'a, Id> {

}

impl<'a, Id: Ident> PartialEqSpecImpl for Path<'a, Id> {
    open spec fn obeys_eq_spec() -> bool {
        true
    }

    open spec fn eq_spec(&self, other: &Self) -> bool {
        self@ == other@
    }
}

} // verus!
