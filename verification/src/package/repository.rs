//! A repository of packages, and the raw graph of what one of them needs.

use crate::package::dependency::Dependency;
use crate::package::dependency::dependency_views;
use crate::package::ident::Ident;
use crate::package::ident::keys_of;
use crate::package::package::Package;
use crate::package::rawnode::RawGraph;
use crate::package::rawnode::RawNode;
use vstd::prelude::*;

verus! {

/// The key of a package of type `P`.
pub type KeyOf<P> = <<P as Package>::Id as View>::V;

/// Whether one of `packages` has the key `key`.
pub open spec fn holds_key<P: Package>(packages: Seq<P>, key: KeyOf<P>) -> bool {
    exists|i: int| 0 <= i < packages.len() && (#[trigger] packages[i]).key() == key
}

/// A place in `packages` of a package with the key `key`.
pub open spec fn place_of<P: Package>(packages: Seq<P>, key: KeyOf<P>) -> int {
    choose|i: int| 0 <= i < packages.len() && (#[trigger] packages[i]).key() == key
}

/// Whether no two of `packages` have the same key.
pub open spec fn distinct_keys<P: Package>(packages: Seq<P>) -> bool {
    forall|i: int, j: int|
        0 <= i < j < packages.len() ==> (#[trigger] packages[i]).key() != (
        #[trigger] packages[j]).key()
}

/// The packages by their keys.
pub open spec fn by_key<P: Package>(packages: Seq<P>) -> Map<KeyOf<P>, P> {
    Map::new(|key: KeyOf<P>| holds_key(packages, key), |key: KeyOf<P>| packages[place_of(packages, key)])
}

/// The map that holds each of `packages` under its key, a later package in
/// place of an earlier one with the same key.
pub open spec fn collected<P: Package>(packages: Seq<P>) -> Map<KeyOf<P>, P>
    decreases packages.len(),
{
    if packages.len() == 0 {
        Map::empty()
    } else {
        collected(packages.drop_last()).insert(packages.last().key(), packages.last())
    }
}

/// The packages that `keys` name in `repository`, in the order of `keys`; a
/// key that names none is passed over.
pub open spec fn matched<P: Package>(repository: Map<KeyOf<P>, P>, keys: Seq<KeyOf<P>>) -> Seq<P>
    decreases keys.len(),
{
    if keys.len() == 0 {
        Seq::empty()
    } else if repository.contains_key(keys.last()) {
        matched(repository, keys.drop_last()).push(repository[keys.last()])
    } else {
        matched(repository, keys.drop_last())
    }
}

/// Those of `keys` that name a package in `repository`, in their order.
pub open spec fn matched_keys<P: Package>(repository: Map<KeyOf<P>, P>, keys: Seq<KeyOf<P>>) -> Seq<
    KeyOf<P>,
>
    decreases keys.len(),
{
    if keys.len() == 0 {
        Seq::empty()
    } else if repository.contains_key(keys.last()) {
        matched_keys(repository, keys.drop_last()).push(keys.last())
    } else {
        matched_keys(repository, keys.drop_last())
    }
}

/// The keys of the packages that satisfy `requirements`: for each
/// requirement in order, those of its keys that name a package.
pub open spec fn targets<P: Package>(
    repository: Map<KeyOf<P>, P>,
    requirements: Seq<Seq<KeyOf<P>>>,
) -> Seq<KeyOf<P>>
    decreases requirements.len(),
{
    if requirements.len() == 0 {
        Seq::empty()
    } else {
        targets(repository, requirements.drop_last()) + matched_keys(
            repository,
            requirements.last(),
        )
    }
}

/// Whether the package of `via` has a requirement that `key` satisfies.
pub open spec fn needs<P: Package>(
    repository: Map<KeyOf<P>, P>,
    via: KeyOf<P>,
    key: KeyOf<P>,
) -> bool {
    repository.contains_key(via) && targets(repository, repository[via].requirements()).contains(
        key,
    )
}

/// Whether `key` names a package that `root` needs, `steps` requirements
/// away.
pub open spec fn reachable_in<P: Package>(
    repository: Map<KeyOf<P>, P>,
    root: KeyOf<P>,
    key: KeyOf<P>,
    steps: nat,
) -> bool
    decreases steps,
{
    if steps == 0 {
        key == root && repository.contains_key(root)
    } else {
        exists|via: KeyOf<P>|
            reachable_in(repository, root, via, (steps - 1) as nat) && #[trigger] needs(
                repository,
                via,
                key,
            )
    }
}

/// Whether `key` names `root` or a package that `root` needs, directly or
/// through others.
pub open spec fn reachable<P: Package>(
    repository: Map<KeyOf<P>, P>,
    root: KeyOf<P>,
    key: KeyOf<P>,
) -> bool {
    exists|steps: nat| reachable_in(repository, root, key, steps)
}

/// Whether `graph` is the raw graph of `root` in `repository`: it has one
/// node for `root` and for each package that `root` needs, and no other; its
/// root is the node of `root`; and each node depends on the nodes of the
/// packages that satisfy the requirements of its package, in their order.
pub open spec fn raw_graph_of<P: Package>(
    graph: RawGraph<P::Id>,
    repository: Map<KeyOf<P>, P>,
    root: KeyOf<P>,
) -> bool {
    &&& graph.well_formed()
    &&& graph.keys()[graph.root as int] == root
    &&& graph.keys().no_duplicates()
    &&& forall|key: KeyOf<P>| graph.keys().contains(key) <==> reachable(repository, root, key)
    &&& forall|i: int|
        0 <= i < graph.nodes.len() ==> repository.contains_key(#[trigger] graph.keys()[i])
            && graph.dep_keys(i) == targets(repository, repository[graph.keys()[i]].requirements())
}

/// How many of `slots` are empty.
pub open spec fn vacant(slots: Seq<Option<usize>>) -> nat
    decreases slots.len(),
{
    if slots.len() == 0 {
        0
    } else {
        vacant(slots.drop_last()) + if slots.last() is None {
            1nat
        } else {
            0nat
        }
    }
}

/// Filling an empty slot leaves one empty slot less.
pub proof fn lemma_vacant_fill(slots: Seq<Option<usize>>, at: int, with: usize)
    requires
        0 <= at < slots.len(),
        slots[at] is None,
    ensures
        vacant(slots.update(at, Some(with))) + 1 == vacant(slots),
    decreases slots.len(),
{
    let filled = slots.update(at, Some(with));
    if at == slots.len() - 1 {
        assert(filled.drop_last() =~= slots.drop_last());
    } else {
        assert(filled.drop_last() =~= slots.drop_last().update(at, Some(with)));
        lemma_vacant_fill(slots.drop_last(), at, with);
    }
}

/// Where no two packages have one key, each is the package of its key.
pub proof fn lemma_by_key_at<P: Package>(packages: Seq<P>, at: int)
    requires
        distinct_keys(packages),
        0 <= at < packages.len(),
    ensures
        by_key(packages).contains_key(packages[at].key()),
        by_key(packages)[packages[at].key()] == packages[at],
{
    let key = packages[at].key();
    assert(holds_key(packages, key));
    let i = place_of(packages, key);
    assert(i == at);
}

/// A set of keys that holds `root` and, with each key, the keys that its
/// package needs, holds every key that `root` can reach.
pub proof fn lemma_closed_holds_reachable<P: Package>(
    repository: Map<KeyOf<P>, P>,
    root: KeyOf<P>,
    keys: Seq<KeyOf<P>>,
    key: KeyOf<P>,
    steps: nat,
)
    requires
        keys.contains(root),
        forall|i: int, next: KeyOf<P>|
            0 <= i < keys.len() && repository.contains_key(#[trigger] keys[i]) && targets(
                repository,
                repository[keys[i]].requirements(),
            ).contains(next) ==> #[trigger] keys.contains(next),
        reachable_in(repository, root, key, steps),
    ensures
        keys.contains(key),
    decreases steps,
{
    if steps > 0 {
        let via = choose|via: KeyOf<P>|
            reachable_in(repository, root, via, (steps - 1) as nat) && #[trigger] needs(
                repository,
                via,
                key,
            );
        lemma_closed_holds_reachable(repository, root, keys, via, (steps - 1) as nat);
        let i = choose|i: int| 0 <= i < keys.len() && keys[i] == via;
        assert(keys[i] == via);
    }
}

/// What the references point at, position by position.
pub open spec fn referents<P>(refs: Seq<&P>) -> Seq<P> {
    Seq::new(refs.len(), |i: int| *refs[i])
}

/// The packages that are known, each under the key of its identity.
#[derive(Debug)]
pub struct Repository<P: Package> {
    packages: Vec<P>,
}

impl<P: Package> View for Repository<P> {
    type V = Map<KeyOf<P>, P>;

    closed spec fn view(&self) -> Map<KeyOf<P>, P> {
        by_key(self.packages@)
    }
}

impl<P: Package> Repository<P> {
    /// No key is held twice.
    #[verifier::type_invariant]
    spec fn distinct(self) -> bool {
        distinct_keys(self.packages@)
    }

    /// The repository of `packages`. Of two packages with one key, the later
    /// one stays.
    pub fn new(packages: Vec<P>) -> (r: Self)
        ensures
            r@ == collected(packages@),
    {
        let mut repository = Repository { packages: Vec::new() };
        assert(repository@ =~= Map::empty());
        assert(packages@.take(0) =~= Seq::empty());
        for package in it: packages
            invariant
                it.seq() == packages@,
                repository@ == collected(packages@.take(it.index() as int)),
        {
            proof {
                let done = it.index() as int;
                assert(packages@.take(done + 1).drop_last() =~= packages@.take(done));
            }
            repository.add(package);
        }
        assert(packages@.take(packages@.len() as int) =~= packages@);
        repository
    }

    /// Puts `pkg` under its key, in place of the package that was there.
    pub fn add(&mut self, pkg: P)
        ensures
            final(self)@ == old(self)@.insert(pkg.key(), pkg),
    {
        proof {
            use_type_invariant(&*self);
        }
        let id = pkg.id();
        let found = self.position(&id);
        let ghost before = self.packages@;
        let mut packages: Vec<P> = Vec::new();
        core::mem::swap(&mut packages, &mut self.packages);
        match found {
            Some(i) => {
                packages.set(i, pkg);
            },
            None => {
                packages.push(pkg);
            },
        }
        proof {
            let after = packages@;
            assert(distinct_keys(after));
            assert forall|key: KeyOf<P>| holds_key(after, key) <==> holds_key(before, key) || key
                == pkg.key() by {
                if holds_key(before, key) {
                    let i = place_of(before, key);
                    assert(after[i].key() == key);
                }
                if key == pkg.key() {
                    match found {
                        Some(i) => {
                            assert(after[i as int].key() == key);
                        },
                        None => {
                            assert(after[before.len() as int].key() == key);
                        },
                    }
                }
                if holds_key(after, key) {
                    let i = place_of(after, key);
                    if key != pkg.key() {
                        assert(before[i].key() == key);
                    }
                }
            }
            assert forall|key: KeyOf<P>| holds_key(after, key) implies by_key(after)[key]
                == by_key(before).insert(pkg.key(), pkg)[key] by {
                let i = place_of(after, key);
                if key != pkg.key() {
                    let j = place_of(before, key);
                    assert(before[j].key() == key);
                    assert(after[j].key() == key);
                    assert(i == j);
                } else {
                    match found {
                        Some(k) => {
                            assert(after[k as int].key() == key);
                            assert(i == k);
                        },
                        None => {
                            assert(after[before.len() as int].key() == key);
                            assert(i == before.len());
                        },
                    }
                }
            }
            assert(by_key(after) =~= by_key(before).insert(pkg.key(), pkg));
        }
        self.packages = packages;
    }

    /// The place of the package with the identity `id`, if there is one.
    fn position(&self, id: &P::Id) -> (r: Option<usize>)
        ensures
            match r {
                Some(i) => i < self.packages.len() && self.packages[i as int].key() == id@,
                None => !holds_key(self.packages@, id@),
            },
    {
        let mut i: usize = 0;
        while i < self.packages.len()
            invariant
                i <= self.packages.len(),
                forall|j: int| 0 <= j < i ==> self.packages[j].key() != id@,
            decreases self.packages.len() - i,
        {
            proof {
                P::Id::lemma_eq_compares_keys();
            }
            if self.packages[i].id() == *id {
                return Some(i);
            }
            i += 1;
        }
        None
    }

    /// The package with the identity `id`, if there is one.
    pub fn get(&self, id: &P::Id) -> (r: Option<&P>)
        ensures
            match r {
                Some(package) => self@.contains_key(id@) && *package == self@[id@],
                None => !self@.contains_key(id@),
            },
    {
        proof {
            use_type_invariant(self);
        }
        match self.position(id) {
            Some(i) => {
                assert(place_of(self.packages@, id@) == i) by {
                    let j = place_of(self.packages@, id@);
                    assert(self.packages[j].key() == id@);
                }
                Some(&self.packages[i])
            },
            None => None,
        }
    }

    /// The packages that satisfy `dep`, in the order in which `dep` names
    /// them.
    pub fn dependency_matches(&self, dep: &Dependency<P::Id>) -> (r: Vec<&P>)
        ensures
            referents(r@) == matched(self@, dep@),
    {
        let ids = dep.ids();
        let ghost keys = dep@;
        let mut found: Vec<&P> = Vec::new();
        let mut i: usize = 0;
        assert(keys.take(0) =~= Seq::empty());
        while i < ids.len()
            invariant
                i <= ids.len(),
                keys == dep@,
                keys == keys_of(ids@),
                referents(found@) == matched(self@, keys.take(i as int)),
            decreases ids.len() - i,
        {
            proof {
                assert(keys.take(i + 1).drop_last() =~= keys.take(i as int));
                assert(keys.take(i + 1).last() == ids[i as int]@);
            }
            let ghost before = found@;
            match self.get(&ids[i]) {
                Some(package) => {
                    found.push(package);
                    assert(referents(found@) =~= referents(before).push(*package));
                },
                None => {},
            }
            i += 1;
        }
        assert(keys.take(i as int) =~= keys);
        found
    }

    /// The raw graph of the package with the identity `root_id`, which the
    /// repository must hold: a node for it and for every package that it
    /// needs, directly or through others, each depending on the nodes of the
    /// packages that satisfy its requirements.
    pub fn build_graph(&self, root_id: &P::Id) -> (graph: RawGraph<P::Id>)
        requires
            self@.contains_key(root_id@),
        ensures
            raw_graph_of::<P>(graph, self@, root_id@),
    {
        let root = self.position(root_id).unwrap();
        let (order, slots) = self.collect(root);
        let ghost packages = self.packages@;
        let mut nodes: Vec<RawNode<P::Id>> = Vec::new();
        let mut i: usize = 0;
        while i < order.len()
            invariant
                i <= order.len(),
                packages == self.packages@,
                self.numbered(order@, slots@),
                self.closed(slots@, Seq::empty()),
                nodes.len() == i,
                forall|k: int| 0 <= k < i ==> (#[trigger] nodes[k]).id@ == packages[order[k] as int].key(),
                forall|k: int, j: int|
                    0 <= k < i && 0 <= j < nodes[k].deps.len() ==> (#[trigger] nodes[k].deps[j])
                        < order.len(),
                forall|k: int|
                    0 <= k < i ==> self.keys_at(
                        Seq::new(
                            (#[trigger] nodes[k]).deps.len() as nat,
                            |j: int| order[nodes[k].deps[j] as int],
                        ),
                    ) == targets(self@, packages[order[k] as int].requirements()),
            decreases order.len() - i,
        {
            let at = order[i];
            let mut node = RawNode::new(self.packages[at].id());
            let found = self.target_places(at);
            let ghost wanted = targets(self@, packages[at as int].requirements());
            let mut j: usize = 0;
            while j < found.len()
                invariant
                    j <= found.len(),
                    at < packages.len(),
                    slots@[at as int] is Some,
                    packages == self.packages@,
                    self.numbered(order@, slots@),
                    self.closed(slots@, Seq::empty()),
                    forall|m: int| 0 <= m < found.len() ==> (#[trigger] found[m]) < packages.len(),
                    self.keys_at(found@) == wanted,
                    wanted == targets(self@, packages[at as int].requirements()),
                    node.id@ == packages[at as int].key(),
                    node.deps.len() == j,
                    forall|m: int|
                        0 <= m < j ==> (#[trigger] node.deps[m]) < order.len()
                            && order[node.deps[m] as int] == found[m],
                decreases found.len() - j,
            {
                let to = found[j];
                proof {
                    use_type_invariant(self);
                    lemma_by_key_at(packages, at as int);
                    let key = packages[to as int].key();
                    assert(self.keys_at(found@)[j as int] == key);
                    assert(needs(self@, packages[at as int].key(), key));
                    let u = choose|u: int|
                        0 <= u < packages.len() && packages[u].key() == key
                            && #[trigger] Self::awaited(slots@, Seq::empty(), u);
                    assert(u == to);
                }
                node.add_dependency(slots[to].unwrap());
                j += 1;
            }
            proof {
                let places = Seq::new(node.deps.len() as nat, |j: int| order[node.deps[j] as int]);
                assert(places =~= found@);
            }
            let ghost before = nodes@;
            nodes.push(node);
            proof {
                assert forall|k: int| 0 <= k < i + 1 implies self.keys_at(
                    Seq::new(
                        (#[trigger] nodes[k]).deps.len() as nat,
                        |j: int| order[nodes[k].deps[j] as int],
                    ),
                ) == targets(self@, packages[order[k] as int].requirements()) by {
                    if k < i {
                        assert(nodes[k] == before[k]);
                    }
                }
            }
            i += 1;
        }
        let graph = RawGraph { nodes, root: slots[root].unwrap() };
        proof {
            use_type_invariant(self);
            let keys = graph.keys();
            let repository = self@;
            assert(forall|k: int|
                0 <= k < keys.len() ==> #[trigger] keys[k] == packages[order[k] as int].key());
            assert forall|a: int, b: int| 0 <= a < keys.len() && 0 <= b < keys.len() && a != b implies keys[a]
                != keys[b] by {
                if keys[a] == keys[b] {
                    let x = order[a] as int;
                    let y = order[b] as int;
                    if x < y {
                        assert(packages[x].key() != packages[y].key());
                    } else if y < x {
                        assert(packages[y].key() != packages[x].key());
                    }
                    assert(slots@[x] == Some(a as usize));
                    assert(slots@[y] == Some(b as usize));
                }
            }
            assert forall|k: int| 0 <= k < graph.nodes.len() implies repository.contains_key(
                #[trigger] graph.keys()[k],
            ) && graph.dep_keys(k) == targets(
                repository,
                repository[graph.keys()[k]].requirements(),
            ) by {
                lemma_by_key_at(packages, order[k] as int);
                let places = Seq::new(
                    graph.nodes[k].deps.len() as nat,
                    |j: int| order[graph.nodes[k].deps[j] as int],
                );
                assert(graph.dep_keys(k) =~= self.keys_at(places));
            }
            assert forall|key: KeyOf<P>| keys.contains(key) implies reachable(
                repository,
                root_id@,
                key,
            ) by {
                let k = choose|k: int| 0 <= k < keys.len() && keys[k] == key;
                assert(Self::awaited(slots@, Seq::empty(), order[k] as int));
            }
            assert(keys[graph.root as int] == root_id@);
            assert forall|k: int, next: KeyOf<P>|
                0 <= k < keys.len() && repository.contains_key(#[trigger] keys[k]) && targets(
                    repository,
                    repository[keys[k]].requirements(),
                ).contains(next) implies #[trigger] keys.contains(next) by {
                lemma_by_key_at(packages, order[k] as int);
                assert(needs(repository, packages[order[k] as int].key(), next));
                let u = choose|u: int|
                    0 <= u < packages.len() && packages[u].key() == next && #[trigger] Self::awaited(
                        slots@,
                        Seq::empty(),
                        u,
                    );
                assert(keys[slots@[u].unwrap() as int] == next);
            }
            assert forall|key: KeyOf<P>| reachable(repository, root_id@, key) implies keys.contains(
                key,
            ) by {
                let steps = choose|steps: nat| reachable_in(repository, root_id@, key, steps);
                lemma_closed_holds_reachable::<P>(repository, root_id@, keys, key, steps);
            }
        }
        graph
    }

    /// The keys of the packages at `places`, position by position.
    spec fn keys_at(&self, places: Seq<usize>) -> Seq<KeyOf<P>> {
        Seq::new(places.len(), |j: int| self.packages[places[j] as int].key())
    }

    /// `order` lists the places that have a slot, and each slot holds where
    /// its place stands in `order`.
    spec fn numbered(&self, order: Seq<usize>, slots: Seq<Option<usize>>) -> bool {
        &&& slots.len() == self.packages.len()
        &&& forall|i: int|
            0 <= i < order.len() ==> (#[trigger] order[i]) < slots.len() && slots[order[i] as int]
                == Some(i as usize)
        &&& forall|t: int|
            0 <= t < slots.len() && (#[trigger] slots[t]) is Some ==> slots[t].unwrap()
                < order.len() && order[slots[t].unwrap() as int] == t
    }

    /// The place `t` has a slot or waits for one.
    spec fn awaited(slots: Seq<Option<usize>>, pending: Seq<usize>, t: int) -> bool {
        slots[t] is Some || pending.contains(t as usize)
    }

    /// What a package with a slot needs has a slot or waits for one.
    spec fn closed(&self, slots: Seq<Option<usize>>, pending: Seq<usize>) -> bool {
        forall|t: int, key: KeyOf<P>|
            0 <= t < self.packages.len() && slots[t] is Some && #[trigger] needs(
                self@,
                self.packages[t].key(),
                key,
            ) ==> exists|u: int|
                0 <= u < self.packages.len() && self.packages[u].key() == key
                    && #[trigger] Self::awaited(slots, pending, u)
    }

    /// What has a slot or waits for one can be reached from `root`.
    spec fn sound(&self, root: KeyOf<P>, slots: Seq<Option<usize>>, pending: Seq<usize>) -> bool {
        forall|t: int|
            0 <= t < self.packages.len() && #[trigger] Self::awaited(slots, pending, t)
                ==> reachable(self@, root, self.packages[t].key())
    }

    /// The places of the packages that satisfy the requirements of the
    /// package at `at`, in the order of the requirements.
    fn target_places(&self, at: usize) -> (r: Vec<usize>)
        requires
            at < self.packages.len(),
        ensures
            forall|j: int| 0 <= j < r.len() ==> (#[trigger] r[j]) < self.packages.len(),
            self.keys_at(r@) == targets(self@, self.packages[at as int].requirements()),
    {
        let deps = self.packages[at].dependencies();
        let ghost reqs = self.packages[at as int].requirements();
        let mut found: Vec<usize> = Vec::new();
        let mut d: usize = 0;
        assert(reqs.take(0) =~= Seq::empty());
        assert(self.keys_at(found@) =~= Seq::empty());
        while d < deps.len()
            invariant
                d <= deps.len(),
                dependency_views(deps@) == reqs,
                forall|j: int| 0 <= j < found.len() ==> (#[trigger] found[j]) < self.packages.len(),
                self.keys_at(found@) == targets(self@, reqs.take(d as int)),
            decreases deps.len() - d,
        {
            let ids = deps[d].ids();
            let ghost wanted = reqs[d as int];
            let ghost base = self.keys_at(found@);
            let mut i: usize = 0;
            assert(wanted.take(0) =~= Seq::empty());
            assert(base + Seq::<KeyOf<P>>::empty() =~= base);
            while i < ids.len()
                invariant
                    i <= ids.len(),
                    keys_of(ids@) == wanted,
                    forall|j: int|
                        0 <= j < found.len() ==> (#[trigger] found[j]) < self.packages.len(),
                    self.keys_at(found@) == base + matched_keys(self@, wanted.take(i as int)),
                decreases ids.len() - i,
            {
                let ghost before = found@;
                let place = self.position(&ids[i]);
                proof {
                    use_type_invariant(self);
                    assert(wanted.take(i + 1).drop_last() =~= wanted.take(i as int));
                    assert(wanted.take(i + 1).last() == ids[i as int]@);
                }
                match place {
                    Some(t) => {
                        found.push(t);
                        proof {
                            lemma_by_key_at(self.packages@, t as int);
                            assert(self.keys_at(found@) =~= self.keys_at(before).push(
                                ids[i as int]@,
                            ));
                        }
                    },
                    None => {},
                }
                i += 1;
            }
            proof {
                assert(wanted.take(i as int) =~= wanted);
                assert(reqs.take(d + 1).drop_last() =~= reqs.take(d as int));
                assert(reqs.take(d + 1).last() == wanted);
            }
            d += 1;
        }
        assert(reqs.take(d as int) =~= reqs);
        found
    }

    /// Numbers the packages that the package at `root` needs, itself first:
    /// gives their places in the order of their numbers, and for each place
    /// of the repository its number, if it has one.
    fn collect(&self, root: usize) -> (r: (Vec<usize>, Vec<Option<usize>>))
        requires
            root < self.packages.len(),
        ensures
            self.numbered(r.0@, r.1@),
            r.1[root as int] is Some,
            self.closed(r.1@, Seq::empty()),
            self.sound(self.packages[root as int].key(), r.1@, Seq::empty()),
    {
        let ghost root_key = self.packages[root as int].key();
        let mut slots: Vec<Option<usize>> = Vec::new();
        while slots.len() < self.packages.len()
            invariant
                slots.len() <= self.packages.len(),
                forall|t: int| 0 <= t < slots.len() ==> slots[t] is None,
            decreases self.packages.len() - slots.len(),
        {
            slots.push(None);
        }
        let mut order: Vec<usize> = Vec::new();
        let mut pending: Vec<usize> = Vec::new();
        pending.push(root);
        proof {
            use_type_invariant(self);
            lemma_by_key_at(self.packages@, root as int);
            assert forall|t: int|
                0 <= t < self.packages.len() && #[trigger] Self::awaited(
                    slots@,
                    pending@,
                    t,
                ) implies reachable(self@, root_key, self.packages[t].key()) by {
                assert(pending@[0] == root);
                assert(t == root);
                assert(reachable_in(self@, root_key, root_key, 0));
            }
            assert(pending@[0] == root);
        }
        while pending.len() > 0
            invariant
                root < self.packages.len(),
                root_key == self.packages[root as int].key(),
                self.numbered(order@, slots@),
                forall|j: int| 0 <= j < pending.len() ==> (#[trigger] pending[j]) < self.packages.len(),
                Self::awaited(slots@, pending@, root as int),
                self.closed(slots@, pending@),
                self.sound(root_key, slots@, pending@),
            decreases vacant(slots@), pending.len(),
        {
            let ghost old_slots = slots@;
            let ghost old_pending = pending@;
            let ghost old_order = order@;
            let at = pending.pop().unwrap();
            let ghost rest = pending@;
            proof {
                use_type_invariant(self);
                assert(rest =~= old_pending.drop_last());
                assert(old_pending[old_pending.len() - 1] == at);
            }
            if slots[at].is_none() {
                let number = order.len();
                slots.set(at, Some(number));
                order.push(at);
                let mut found = self.target_places(at);
                let ghost found_places = found@;
                pending.append(&mut found);
                proof {
                    lemma_vacant_fill(old_slots, at as int, number);
                    lemma_by_key_at(self.packages@, at as int);
                    assert(pending@ =~= rest + found_places);
                    assert forall|t: int|
                        0 <= t < self.packages.len() && Self::awaited(
                            old_slots,
                            old_pending,
                            t,
                        ) implies Self::awaited(slots@, pending@, t) by {
                        if old_slots[t] is None {
                            let j = choose|j: int|
                                0 <= j < old_pending.len() && old_pending[j] == t as usize;
                            if j < rest.len() {
                                assert(pending@[j] == t as usize);
                            }
                        }
                    }
                    assert forall|j: int| 0 <= j < pending.len() implies (#[trigger] pending[j])
                        < self.packages.len() by {
                        if j >= rest.len() {
                            assert(pending[j] == found_places[j - rest.len()]);
                        }
                    }
                    assert(self.numbered(order@, slots@)) by {
                        assert forall|i: int| 0 <= i < order@.len() implies (#[trigger] order@[i])
                            < slots@.len() && slots@[order@[i] as int] == Some(i as usize) by {
                            if i < old_order.len() {
                                assert(old_order[i] == order@[i]);
                                assert(old_slots[old_order[i] as int] == Some(i as usize));
                            }
                        }
                        assert forall|t: int|
                            0 <= t < slots@.len() && (#[trigger] slots@[t]) is Some implies slots@[t].unwrap()
                                < order@.len() && order@[slots@[t].unwrap() as int] == t by {
                            if t != at {
                                assert(old_slots[t] is Some);
                                assert(order@[old_slots[t].unwrap() as int]
                                    == old_order[old_slots[t].unwrap() as int]);
                            }
                        }
                    }
                    assert(self.closed(slots@, pending@)) by {
                        assert forall|t: int, key: KeyOf<P>|
                            0 <= t < self.packages.len() && slots@[t] is Some && #[trigger] needs(
                                self@,
                                self.packages[t].key(),
                                key,
                            ) implies exists|u: int|
                            0 <= u < self.packages.len() && self.packages[u].key() == key
                                && #[trigger] Self::awaited(slots@, pending@, u) by {
                            if t == at {
                                let wanted = targets(self@, self.packages[at as int].requirements());
                                let j = choose|j: int| 0 <= j < wanted.len() && wanted[j] == key;
                                assert(self.keys_at(found_places)[j] == key);
                                let u = found_places[j] as int;
                                assert(pending@[rest.len() + j] == found_places[j]);
                                assert(Self::awaited(slots@, pending@, u));
                            } else {
                                assert(old_slots[t] is Some);
                                let u = choose|u: int|
                                    0 <= u < self.packages.len() && self.packages[u].key() == key
                                        && #[trigger] Self::awaited(old_slots, old_pending, u);
                                assert(Self::awaited(slots@, pending@, u));
                            }
                        }
                    }
                    assert(self.sound(root_key, slots@, pending@)) by {
                        assert(Self::awaited(old_slots, old_pending, at as int));
                        let here = self.packages[at as int].key();
                        let steps = choose|steps: nat| reachable_in(self@, root_key, here, steps);
                        assert forall|t: int|
                            0 <= t < self.packages.len() && #[trigger] Self::awaited(
                                slots@,
                                pending@,
                                t,
                            ) implies reachable(self@, root_key, self.packages[t].key()) by {
                            if t == at {
                                // the package itself: reached already
                            } else if slots@[t] is Some {
                                assert(Self::awaited(old_slots, old_pending, t));
                            } else {
                                let j = choose|j: int|
                                    0 <= j < pending@.len() && pending@[j] == t as usize;
                                if j < rest.len() {
                                    assert(old_pending[j] == t as usize);
                                    assert(Self::awaited(old_slots, old_pending, t));
                                } else {
                                    let m = j - rest.len();
                                    assert(found_places[m] == t as usize);
                                    let key = self.packages[t].key();
                                    assert(self.keys_at(found_places)[m] == key);
                                    assert(needs(self@, here, key));
                                    assert(reachable_in(self@, root_key, key, steps + 1));
                                }
                            }
                        }
                    }
                }
            } else {
                proof {
                    assert forall|t: int|
                        0 <= t < self.packages.len() && Self::awaited(
                            old_slots,
                            old_pending,
                            t,
                        ) implies Self::awaited(slots@, pending@, t) by {
                        if old_slots[t] is None {
                            let j = choose|j: int|
                                0 <= j < old_pending.len() && old_pending[j] == t as usize;
                            assert(j < rest.len());
                            assert(pending@[j] == t as usize);
                        }
                    }
                    assert(self.closed(slots@, pending@)) by {
                        assert forall|t: int, key: KeyOf<P>|
                            0 <= t < self.packages.len() && slots@[t] is Some && #[trigger] needs(
                                self@,
                                self.packages[t].key(),
                                key,
                            ) implies exists|u: int|
                            0 <= u < self.packages.len() && self.packages[u].key() == key
                                && #[trigger] Self::awaited(slots@, pending@, u) by {
                            let u = choose|u: int|
                                0 <= u < self.packages.len() && self.packages[u].key() == key
                                    && #[trigger] Self::awaited(old_slots, old_pending, u);
                            assert(Self::awaited(slots@, pending@, u));
                        }
                    }
                    assert(self.sound(root_key, slots@, pending@)) by {
                        assert forall|t: int|
                            0 <= t < self.packages.len() && #[trigger] Self::awaited(
                                slots@,
                                pending@,
                                t,
                            ) implies reachable(self@, root_key, self.packages[t].key()) by {
                            if slots@[t] is None {
                                let j = choose|j: int|
                                    0 <= j < pending@.len() && pending@[j] == t as usize;
                                assert(old_pending[j] == t as usize);
                            }
                            assert(Self::awaited(old_slots, old_pending, t));
                        }
                    }
                }
            }
        }
        assert(pending@ =~= Seq::empty());
        (order, slots)
    }
}

} // verus!
