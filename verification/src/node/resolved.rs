//! The outcome of resolving a requirement along a path.

use crate::node::cause::Cause;
use crate::node::laws::lemma_merged_none;
use crate::node::laws::lemma_merged_push;
use crate::node::model::failure;
use crate::node::model::merged;
use crate::node::model::ResolvedView;
use crate::node::model::success;
use crate::package::ident::Ident;
use crate::path::Path;
use crate::path::path_views;
use vstd::prelude::*;
use vstd::std_specs::cmp::PartialEqSpecImpl;

verus! {

/// The paths that were found, and the nodes to blame. An outcome is a
/// success when it has a path; what a success blames means nothing.
#[derive(Debug)]
pub struct Resolved<'a, Id: Ident> {
    pub paths: Vec<Path<'a, Id>>,
    pub cause: Cause<'a, Id>,
}

impl<'a, Id: Ident> View for Resolved<'a, Id> {
    type V = ResolvedView<Id::V>;

    open spec fn view(&self) -> ResolvedView<Id::V> {
        ResolvedView { paths: path_views(self.paths@), cause: self.cause@ }
    }
}

/// The model of each outcome, position by position.
pub open spec fn resolved_views<'a, Id: Ident>(outcomes: Seq<Resolved<'a, Id>>) -> Seq<
    ResolvedView<Id::V>,
> {
    Seq::new(outcomes.len(), |i: int| outcomes[i]@)
}

impl<'a, Id: Ident> Resolved<'a, Id> {
    /// The outcome with these paths and this cause.
    pub fn new(paths: Vec<Path<'a, Id>>, cause: Cause<'a, Id>) -> (r: Self)
        ensures
            r.paths == paths,
            r.cause == cause,
    {
        Resolved { paths, cause }
    }

    /// The outcome with `path` alone and nobody to blame.
    pub fn success(path: Path<'a, Id>) -> (r: Self)
        ensures
            r@ == success(path@),
    {
        let mut paths: Vec<Path<'a, Id>> = Vec::new();
        paths.push(path);
        assert(path_views(paths@) =~= seq![path@]);
        Resolved { paths, cause: Cause::empty() }
    }

    /// The outcome without a path, which blames `cause`.
    pub fn failure(cause: Cause<'a, Id>) -> (r: Self)
        ensures
            r@ == failure(cause@),
    {
        let paths: Vec<Path<'a, Id>> = Vec::new();
        assert(path_views(paths@) =~= Seq::empty());
        Resolved { paths, cause }
    }

    /// Whether a path was found.
    pub fn is_success(&self) -> (b: bool)
        ensures
            b == (self@.paths.len() != 0),
    {
        self.paths.len() != 0
    }

    /// The outcomes of several branches as one: their paths in the order of
    /// the branches, and every node that one of them blames.
    pub fn merge(elements: Vec<Resolved<'a, Id>>) -> (r: Self)
        ensures
            r@ == merged(resolved_views(elements@)),
    {
        let ghost all = resolved_views(elements@);
        let mut acc = Self::failure(Cause::empty());
        proof {
            lemma_merged_none::<Id::V>();
            assert(all.take(0) =~= Seq::empty());
        }
        for element in it: elements
            invariant
                all == resolved_views(it.seq()),
                acc@ == merged(all.take(it.index() as int)),
        {
            proof {
                let done = it.index() as int;
                assert(all.take(done + 1) =~= all.take(done).push(element@));
                lemma_merged_push(all.take(done), element@);
            }
            acc = Self::merge_two(acc, element);
        }
        assert(all.take(all.len() as int) =~= all);
        acc
    }

    /// Two outcomes as one: the paths of `left`, then those of `right`, and
    /// the nodes that either blames.
    pub fn merge_two(left: Self, right: Self) -> (r: Self)
        ensures
            r@.paths == left@.paths + right@.paths,
            r@.cause == left@.cause.union(right@.cause),
    {
        let mut paths = left.paths;
        let mut more = right.paths;
        paths.append(&mut more);
        Resolved { paths, cause: left.cause.merge(right.cause) }
    }
}

impl<'a, Id: Ident> PartialEq for Resolved<'a, Id> {
    fn eq(&self, other: &Self) -> (r: bool) {
        if self.paths.len() != other.paths.len() {
            assert(self@.paths.len() != other@.paths.len());
            return false;
        }
        let mut i: usize = 0;
        while i < self.paths.len()
            invariant
                i <= self.paths.len(),
                self.paths.len() == other.paths.len(),
                forall|j: int| 0 <= j < i ==> self.paths[j]@ == other.paths[j]@,
            decreases self.paths.len() - i,
        {
            if !(self.paths[i] == other.paths[i]) {
                assert(self@.paths[i as int] != other@.paths[i as int]);
                return false;
            }
            i += 1;
        }
        assert(self@.paths =~= other@.paths);
        self.cause == other.cause
    }
}

impl<'a, Id: Ident + Eq> Eq for Resolved<'a, Id> {

}

impl<'a, Id: Ident> PartialEqSpecImpl for Resolved<'a, Id> {
    open spec fn obeys_eq_spec() -> bool {
        true
    }

    open spec fn eq_spec(&self, other: &Self) -> bool {
        self@ == other@
    }
}

} // verus!
