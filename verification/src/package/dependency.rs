//! What a package requires, before any resolution.

use crate::package::ident::Ident;
use crate::package::ident::keys_of;
use vstd::prelude::*;
use vstd::std_specs::cmp::PartialEqSpecImpl;

verus! {

/// One requirement of a package.
#[derive(Debug, Hash)]
pub enum Dependency<Id: Ident> {
    /// Any one of these identities satisfies it.
    Choice(Vec<Id>),
}

impl<Id: Ident> View for Dependency<Id> {
    type V = Seq<Id::V>;

    open spec fn view(&self) -> Seq<Id::V> {
        match self {
            Dependency::Choice(ids) => keys_of(ids@),
        }
    }
}

/// The keys that each dependency accepts, position by position.
pub open spec fn dependency_views<Id: Ident>(deps: Seq<Dependency<Id>>) -> Seq<Seq<Id::V>> {
    Seq::new(deps.len(), |i: int| deps[i]@)
}

impl<Id: Ident> Dependency<Id> {
    /// The identities that satisfy the dependency, in its order.
    pub fn ids(&self) -> (r: Vec<Id>)
        ensures
            keys_of(r@) == self@,
    {
        proof {
            Id::lemma_clone_keeps_key();
        }
        match self {
            Dependency::Choice(ids) => {
                let mut copies: Vec<Id> = Vec::new();
                let mut i: usize = 0;
                while i < ids.len()
                    invariant
                        i <= ids.len(),
                        copies.len() == i,
                        forall|a: Id, b: Id| #[trigger] cloned::<Id>(a, b) ==> (a@ == b@),
                        forall|j: int| 0 <= j < i ==> copies[j]@ == ids[j]@,
                    decreases ids.len() - i,
                {
                    let id = ids[i].clone();
                    assert(cloned::<Id>(ids[i as int], id));
                    copies.push(id);
                    i += 1;
                }
                copies
            },
        }
    }
}

impl<Id: Ident> Clone for Dependency<Id> {
    fn clone(&self) -> (r: Self)
        ensures
            r@ == self@,
    {
        Dependency::Choice(self.ids())
    }
}

impl<Id: Ident> PartialEq for Dependency<Id> {
    fn eq(&self, other: &Self) -> (r: bool) {
        match (self, other) {
            (Dependency::Choice(mine), Dependency::Choice(theirs)) => {
                if mine.len() != theirs.len() {
                    assert(self@.len() != other@.len());
                    return false;
                }
                let mut i: usize = 0;
                while i < mine.len()
                    invariant
                        i <= mine.len(),
                        mine.len() == theirs.len(),
                        self@ == keys_of(mine@),
                        other@ == keys_of(theirs@),
                        forall|j: int| 0 <= j < i ==> mine[j]@ == theirs[j]@,
                    decreases mine.len() - i,
                {
                    proof {
                        Id::lemma_eq_compares_keys();
                    }
                    if mine[i] != theirs[i] {
                        assert(keys_of(mine@)[i as int] != keys_of(theirs@)[i as int]);
                        return false;
                    }
                    i += 1;
                }
                assert(keys_of(mine@) =~= keys_of(theirs@));
                true
            },
        }
    }
}

impl<Id: Ident + Eq> Eq for Dependency<Id> {

}

impl<Id: Ident> PartialEqSpecImpl for Dependency<Id> {
    open spec fn obeys_eq_spec() -> bool {
        true
    }

    open spec fn eq_spec(&self, other: &Self) -> bool {
        self@ == other@
    }
}

} // verus!
