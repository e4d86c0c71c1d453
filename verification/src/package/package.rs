//! What a repository asks of a package.

use crate::package::dependency::Dependency;
use crate::package::dependency::dependency_views;
use crate::package::ident::Ident;
use vstd::prelude::*;
use vstd::std_specs::cmp::PartialEqSpecImpl;

verus! {

/// A package: a component that a repository can hold. Its key and what it
/// requires are values of the package alone: asking twice gives the same.
pub trait Package: Sized {
    type Id: Ident;

    /// The key of the package's identity.
    spec fn key(&self) -> <Self::Id as View>::V;

    /// What the package requires: for each requirement, the keys that
    /// satisfy it.
    spec fn requirements(&self) -> Seq<Seq<<Self::Id as View>::V>>;

    /// The identity of the package.
    fn id(&self) -> (r: Self::Id)
        ensures
            r@ == self.key(),
    ;

    /// The requirements of the package, in their order.
    fn dependencies(&self) -> (r: Vec<Dependency<Self::Id>>)
        ensures
            dependency_views(r@) == self.requirements(),
    ;
}

/// A package that is no more than an identity and a list of requirements.
#[derive(Debug, Hash)]
pub struct SimplePackage<Id: Ident> {
    pub id: Id,
    pub dependencies: Vec<Dependency<Id>>,
}

impl<Id: Ident> SimplePackage<Id> {
    /// The package `id` that requires `dependencies`.
    pub fn new(id: Id, dependencies: Vec<Dependency<Id>>) -> (r: Self)
        ensures
            r.id == id,
            r.dependencies == dependencies,
    {
        SimplePackage { id, dependencies }
    }
}

impl<Id: Ident> Package for SimplePackage<Id> {
    type Id = Id;

    open spec fn key(&self) -> Id::V {
        self.id@
    }

    open spec fn requirements(&self) -> Seq<Seq<Id::V>> {
        dependency_views(self.dependencies@)
    }

    fn id(&self) -> (r: Id) {
        proof {
            Id::lemma_clone_keeps_key();
        }
        let id = self.id.clone();
        assert(cloned::<Id>(self.id, id));
        id
    }

    fn dependencies(&self) -> (r: Vec<Dependency<Id>>) {
        let mut copies: Vec<Dependency<Id>> = Vec::new();
        let mut i: usize = 0;
        while i < self.dependencies.len()
            invariant
                i <= self.dependencies.len(),
                copies.len() == i,
                forall|j: int| 0 <= j < i ==> copies[j]@ == self.dependencies[j]@,
            decreases self.dependencies.len() - i,
        {
            copies.push(self.dependencies[i].clone());
            i += 1;
        }
        copies
    }
}

impl<Id: Ident> Clone for SimplePackage<Id> {
    fn clone(&self) -> (r: Self)
        ensures
            r.key() == self.key(),
            r.requirements() == self.requirements(),
    {
        SimplePackage { id: self.id(), dependencies: self.dependencies() }
    }
}

impl<Id: Ident> PartialEq for SimplePackage<Id> {
    fn eq(&self, other: &Self) -> (r: bool) {
        proof {
            Id::lemma_eq_compares_keys();
        }
        if self.id != other.id {
            return false;
        }
        if self.dependencies.len() != other.dependencies.len() {
            assert(self.requirements().len() != other.requirements().len());
            return false;
        }
        let mut i: usize = 0;
        while i < self.dependencies.len()
            invariant
                i <= self.dependencies.len(),
                self.dependencies.len() == other.dependencies.len(),
                forall|j: int| 0 <= j < i ==> self.dependencies[j]@ == other.dependencies[j]@,
            decreases self.dependencies.len() - i,
        {
            if self.dependencies[i] != other.dependencies[i] {
                assert(self.requirements()[i as int] != other.requirements()[i as int]);
                return false;
            }
            i += 1;
        }
        assert(self.requirements() =~= other.requirements());
        true
    }
}

impl<Id: Ident + Eq> Eq for SimplePackage<Id> {

}

impl<Id: Ident> PartialEqSpecImpl for SimplePackage<Id> {
    open spec fn obeys_eq_spec() -> bool {
        true
    }

    open spec fn eq_spec(&self, other: &Self) -> bool {
        self.key() == other.key() && self.requirements() == other.requirements()
    }
}

} // verus!
