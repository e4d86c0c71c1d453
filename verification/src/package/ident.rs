//! Identities: the values that tell one component from another.

use vstd::prelude::*;
use vstd::std_specs::cmp::PartialEqSpec;
use vstd::std_specs::cmp::PartialEqSpecImpl;

verus! {

/// A sequence of keys is conflicting when one key stands at two positions.
pub open spec fn conflicting<K>(keys: Seq<K>) -> bool {
    exists|i: int, j: int| 0 <= i < j < keys.len() && keys[i] == keys[j]
}

/// The keys of a sequence of identities, position by position.
pub open spec fn keys_of<Id: View>(ids: Seq<Id>) -> Seq<Id::V> {
    Seq::new(ids.len(), |i: int| ids[i]@)
}

/// An identity names a component. Its view is its key: two identities are the
/// same component exactly when their keys are equal.
pub trait Ident: View + Clone + PartialEq + Sized {
    /// `==` compares keys.
    proof fn lemma_eq_compares_keys()
        ensures
            Self::obeys_eq_spec(),
            forall|a: Self, b: Self| #[trigger] a.eq_spec(&b) <==> (a@ == b@),
    ;

    /// A clone has the key of what it was cloned from.
    proof fn lemma_clone_keeps_key()
        ensures
            forall|a: Self, b: Self| #[trigger] cloned::<Self>(a, b) ==> (a@ == b@),
    ;

    /// Whether some key occurs twice among `instances`.
    fn are_conflicting(instances: &Vec<Self>) -> (b: bool)
        ensures
            b == conflicting(keys_of(instances@)),
    ;
}

/// An identity that is a name: each name is one component.
#[derive(Debug, Eq, Hash)]
pub struct SimpleUnique {
    pub id: &'static str,
}

impl View for SimpleUnique {
    type V = Seq<char>;

    open spec fn view(&self) -> Seq<char> {
        self.id@
    }
}

impl Clone for SimpleUnique {
    fn clone(&self) -> (r: Self)
        ensures
            r == *self,
    {
        SimpleUnique { id: self.id }
    }
}

impl PartialEq for SimpleUnique {
    fn eq(&self, other: &Self) -> (r: bool) {
        self.id.to_owned() == other.id.to_owned()
    }
}

impl PartialEqSpecImpl for SimpleUnique {
    open spec fn obeys_eq_spec() -> bool {
        true
    }

    open spec fn eq_spec(&self, other: &Self) -> bool {
        self.id@ == other.id@
    }
}

impl SimpleUnique {
    pub fn new(id: &'static str) -> (r: Self)
        ensures
            r.id == id,
    {
        SimpleUnique { id: id }
    }
}

impl Ident for SimpleUnique {
    proof fn lemma_eq_compares_keys() {
    }

    proof fn lemma_clone_keeps_key() {
    }

    fn are_conflicting(instances: &Vec<Self>) -> (b: bool) {
        let n = instances.len();
        let mut j: usize = 0;
        while j < n
            invariant
                n == instances.len(),
                j <= n,
                forall|a: int, c: int| 0 <= a < c < j ==> instances[a]@ != instances[c]@,
            decreases n - j,
        {
            let mut i: usize = 0;
            while i < j
                invariant
                    n == instances.len(),
                    j < n,
                    i <= j,
                    forall|a: int| 0 <= a < i ==> instances[a]@ != instances[j as int]@,
                decreases j - i,
            {
                if instances[i] == instances[j] {
                    assert(keys_of(instances@)[i as int] == keys_of(instances@)[j as int]);
                    return true;
                }
                i += 1;
            }
            j += 1;
        }
        false
    }
}

} // verus!
