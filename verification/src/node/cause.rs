//! The nodes to blame when a branch cannot be resolved.

use crate::node::model::NodeView;
use crate::node::Node;
use crate::package::ident::Ident;
use crate::path::ref_views;
use vstd::prelude::*;
use vstd::std_specs::cmp::PartialEqSpecImpl;

verus! {

/// A set of nodes. Two nodes are the same member when they have the same key
/// and require the same; the order in which members were added does not
/// count. The empty cause blames no node.
#[derive(Debug)]
pub struct Cause<'a, Id: Ident> {
    nodes: Vec<&'a Node<Id>>,
}

impl<'a, Id: Ident> View for Cause<'a, Id> {
    type V = Set<NodeView<Id::V>>;

    closed spec fn view(&self) -> Set<NodeView<Id::V>> {
        ref_views(self.nodes@).to_set()
    }
}

impl<'a, Id: Ident> Cause<'a, Id> {
    /// No member is held twice.
    #[verifier::type_invariant]
    spec fn distinct(self) -> bool {
        ref_views(self.nodes@).no_duplicates()
    }

    /// The cause that blames no node.
    pub fn empty() -> (r: Self)
        ensures
            r@ == Set::<NodeView<Id::V>>::empty(),
    {
        let nodes: Vec<&'a Node<Id>> = Vec::new();
        Cause { nodes }
    }

    /// The cause that blames each of `nodes`.
    pub fn new(nodes: Vec<&'a Node<Id>>) -> (r: Self)
        ensures
            r@ == ref_views(nodes@).to_set(),
    {
        let mut cause = Self::empty();
        let mut i: usize = 0;
        while i < nodes.len()
            invariant
                i <= nodes.len(),
                cause@ == ref_views(nodes@).take(i as int).to_set(),
            decreases nodes.len() - i,
        {
            proof {
                let seen = ref_views(nodes@).take(i as int);
                assert(ref_views(nodes@).take(i + 1) =~= seen.push(nodes[i as int]@));
                seen.lemma_push_to_set_commute(nodes[i as int]@);
            }
            cause = cause.add(nodes[i]);
            i += 1;
        }
        assert(ref_views(nodes@).take(i as int) =~= ref_views(nodes@));
        cause
    }

    /// The cause that blames `node` alone.
    pub fn from(node: &'a Node<Id>) -> (r: Self)
        ensures
            r@ == set![node@],
    {
        Self::empty().add(node)
    }

    /// Whether `node` is blamed.
    pub fn has(&self, node: &Node<Id>) -> (b: bool)
        ensures
            b == self@.contains(node@),
    {
        let mut i: usize = 0;
        while i < self.nodes.len()
            invariant
                i <= self.nodes.len(),
                forall|j: int| 0 <= j < i ==> self.nodes[j]@ != node@,
            decreases self.nodes.len() - i,
        {
            if self.nodes[i].same(node) {
                assert(ref_views(self.nodes@)[i as int] == node@);
                return true;
            }
            i += 1;
        }
        false
    }

    /// This cause, and `node` with it.
    pub fn add(self, node: &'a Node<Id>) -> (r: Self)
        ensures
            r@ == self@.insert(node@),
    {
        proof {
            use_type_invariant(&self);
        }
        if self.has(node) {
            self
        } else {
            let ghost before = ref_views(self.nodes@);
            let mut nodes = self.nodes;
            nodes.push(node);
            proof {
                assert(ref_views(nodes@) =~= before.push(node@));
                before.lemma_push_to_set_commute(node@);
            }
            Cause { nodes }
        }
    }

    /// This cause without `node`: the blame as seen from above `node`.
    pub fn above(self, node: &'a Node<Id>) -> (r: Self)
        ensures
            r@ == self@.remove(node@),
    {
        proof {
            use_type_invariant(&self);
        }
        let ghost all = ref_views(self.nodes@);
        let mut nodes: Vec<&'a Node<Id>> = Vec::new();
        let mut i: usize = 0;
        while i < self.nodes.len()
            invariant
                i <= self.nodes.len(),
                all == ref_views(self.nodes@),
                all.no_duplicates(),
                ref_views(nodes@).no_duplicates(),
                forall|x: NodeView<Id::V>|
                    ref_views(nodes@).contains(x) <==> all.take(i as int).contains(x) && x
                        != node@,
            decreases self.nodes.len() - i,
        {
            broadcast use vstd::seq_lib::lemma_seq_contains_after_push;

            let ghost kept = ref_views(nodes@);
            let ghost seen = all.take(i as int);
            proof {
                assert(all.take(i + 1) =~= seen.push(all[i as int]));
                if seen.contains(all[i as int]) {
                    let k = choose|k: int| 0 <= k < seen.len() && seen[k] == all[i as int];
                    assert(all[k] == all[i as int]);
                }
            }
            if !self.nodes[i].same(node) {
                nodes.push(self.nodes[i]);
                assert(ref_views(nodes@) =~= kept.push(all[i as int]));
            }
            i += 1;
        }
        assert(all.take(i as int) =~= all);
        Cause { nodes }
    }

    /// The nodes that this cause or `other` blames.
    pub fn merge(self, other: Self) -> (r: Self)
        ensures
            r@ == self@.union(other@),
    {
        let ghost mine = self@;
        let ghost theirs = ref_views(other.nodes@);
        let mut cause = self;
        let mut i: usize = 0;
        while i < other.nodes.len()
            invariant
                i <= other.nodes.len(),
                theirs == ref_views(other.nodes@),
                cause@ == mine.union(theirs.take(i as int).to_set()),
            decreases other.nodes.len() - i,
        {
            proof {
                let seen = theirs.take(i as int);
                assert(theirs.take(i + 1) =~= seen.push(theirs[i as int]));
                seen.lemma_push_to_set_commute(theirs[i as int]);
            }
            cause = cause.add(other.nodes[i]);
            i += 1;
        }
        assert(theirs.take(i as int) =~= theirs);
        cause
    }

    /// The nodes blamed, each once, in no particular order.
    pub fn nodes(&self) -> (r: &Vec<&'a Node<Id>>)
        ensures
            ref_views(r@).to_set() == self@,
            ref_views(r@).no_duplicates(),
    {
        proof {
            use_type_invariant(self);
        }
        &self.nodes
    }

    /// Whether every node that this cause blames is blamed by `other`.
    pub fn within(&self, other: &Self) -> (b: bool)
        ensures
            b == self@.subset_of(other@),
    {
        let mut i: usize = 0;
        while i < self.nodes.len()
            invariant
                i <= self.nodes.len(),
                forall|j: int| 0 <= j < i ==> other@.contains(self.nodes[j]@),
            decreases self.nodes.len() - i,
        {
            if !other.has(self.nodes[i]) {
                assert(ref_views(self.nodes@)[i as int] == self.nodes[i as int]@);
                return false;
            }
            i += 1;
        }
        true
    }
}

impl<'a, Id: Ident> Clone for Cause<'a, Id> {
    fn clone(&self) -> (r: Self)
        ensures
            r@ == self@,
    {
        proof {
            use_type_invariant(self);
        }
        let mut nodes: Vec<&'a Node<Id>> = Vec::new();
        let mut i: usize = 0;
        while i < self.nodes.len()
            invariant
                i <= self.nodes.len(),
                nodes@ == self.nodes@.take(i as int),
            decreases self.nodes.len() - i,
        {
            nodes.push(self.nodes[i]);
            i += 1;
        }
        assert(self.nodes@.take(i as int) =~= self.nodes@);
        Cause { nodes }
    }
}

impl<'a, Id: Ident> PartialEq for Cause<'a, Id> {
    fn eq(&self, other: &Self) -> (r: bool) {
        let same = self.within(other) && other.within(self);
        assert(same <==> self@ =~= other@);
        same
    }
}

impl<'a, Id: Ident + Eq> Eq for Cause<'a, Id> {

}

impl<'a, Id: Ident> PartialEqSpecImpl for Cause<'a, Id> {
    open spec fn obeys_eq_spec() -> bool {
        true
    }

    open spec fn eq_spec(&self, other: &Self) -> bool {
        self@ == other@
    }
}

} // verus!
