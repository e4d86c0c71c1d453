//! What a node may require: another node, one of several, or a boolean form.

use crate::node::cause::Cause;
use crate::node::laws::lemma_extend_shorter;
use crate::node::laws::lemma_merged_none;
use crate::node::laws::lemma_merged_push;
use crate::node::laws::lemma_solve_extends;
use crate::node::model::all_extend;
use crate::node::model::all_succeed;
use crate::node::model::and_each;
use crate::node::model::and_spec;
use crate::node::model::causes_of;
use crate::node::model::consistent_only;
use crate::node::model::joined;
use crate::node::model::megapath;
use crate::node::model::megapaths;
use crate::node::model::merged;
use crate::node::model::NodeView;
use crate::node::model::paths_of;
use crate::node::model::ResolvableView;
use crate::node::model::resolve_spec;
use crate::node::model::solve_each;
use crate::node::model::solve_spec;
use crate::node::model::suffixes;
use crate::node::Node;
use crate::node::node_views;
use crate::node::resolved::Resolved;
use crate::node::resolved::resolved_views;
use crate::node::solvability::Solvability;
use crate::package::ident::Ident;
use crate::path::Path;
use crate::path::path_views;
use crate::path::ref_views;
use crate::utils::lemma_selections_map;
use crate::utils::lemma_selections_rows;
use crate::utils::map_rows;
use crate::utils::rows;
use crate::utils::selections;
use crate::utils::selections_spec;
use vstd::prelude::*;
use vstd::std_specs::cmp::PartialEqSpecImpl;

verus! {

/// What must resolve for a node to be usable.
#[derive(Debug, Hash)]
pub enum Resolvable<Id: Ident> {
    Simple(Simple<Id>),
    Any(Any<Id>),
    OrAnd(OrAnd<Id>),
}

/// The requirement of one node.
#[derive(Debug, Hash)]
pub struct Simple<Id: Ident> {
    pub node: Box<Node<Id>>,
}

/// The requirement of any one of several nodes.
#[derive(Debug, Hash)]
pub struct Any<Id: Ident> {
    pub deps: Vec<Node<Id>>,
}

/// A requirement in boolean form: an OR of ANDs of nodes.
#[derive(Debug, Hash)]
pub struct OrAnd<Id: Ident> {
    pub or_dep: OrDependency<Id>,
}

/// Alternatives: one of the groups must resolve.
#[derive(Debug, Hash)]
pub struct OrDependency<Id: Ident> {
    pub and_deps: Vec<AndDependency<Id>>,
}

/// A group: every node of it must resolve, and their paths must agree.
#[derive(Debug, Hash)]
pub struct AndDependency<Id: Ident> {
    pub deps: Vec<Node<Id>>,
}

/// The model of each group, position by position.
pub open spec fn group_views<Id: Ident>(groups: Seq<AndDependency<Id>>) -> Seq<
    Seq<NodeView<Id::V>>,
>
    decreases groups,
{
    Seq::new(
        groups.len(),
        |i: int|
            if 0 <= i < groups.len() {
                node_views(groups[i].deps@)
            } else {
                arbitrary()
            },
    )
}

impl<Id: Ident> View for Simple<Id> {
    type V = NodeView<Id::V>;

    open spec fn view(&self) -> NodeView<Id::V> {
        self.node.model()
    }
}

impl<Id: Ident> View for Any<Id> {
    type V = Seq<NodeView<Id::V>>;

    open spec fn view(&self) -> Seq<NodeView<Id::V>> {
        node_views(self.deps@)
    }
}

impl<Id: Ident> View for AndDependency<Id> {
    type V = Seq<NodeView<Id::V>>;

    open spec fn view(&self) -> Seq<NodeView<Id::V>> {
        node_views(self.deps@)
    }
}

impl<Id: Ident> View for OrDependency<Id> {
    type V = Seq<Seq<NodeView<Id::V>>>;

    open spec fn view(&self) -> Seq<Seq<NodeView<Id::V>>> {
        group_views(self.and_deps@)
    }
}

impl<Id: Ident> View for OrAnd<Id> {
    type V = Seq<Seq<NodeView<Id::V>>>;

    open spec fn view(&self) -> Seq<Seq<NodeView<Id::V>>> {
        group_views(self.or_dep.and_deps@)
    }
}

impl<Id: Ident> View for Resolvable<Id> {
    type V = ResolvableView<Id::V>;

    open spec fn view(&self) -> ResolvableView<Id::V> {
        self.model()
    }
}

/// A copy of each node.
pub fn duplicate_nodes<Id: Ident>(nodes: &Vec<Node<Id>>) -> (r: Vec<Node<Id>>)
    ensures
        node_views(r@) == node_views(nodes@),
    decreases nodes,
{
    let mut copies: Vec<Node<Id>> = Vec::new();
    let mut i: usize = 0;
    while i < nodes.len()
        invariant
            i <= nodes.len(),
            copies.len() == i,
            forall|j: int| 0 <= j < i ==> copies[j]@ == nodes[j]@,
        decreases nodes.len() - i,
    {
        copies.push(nodes[i].duplicate());
        i += 1;
    }
    copies
}

/// Whether two vectors of nodes hold equal nodes, position by position.
pub fn same_nodes<Id: Ident>(mine: &Vec<Node<Id>>, theirs: &Vec<Node<Id>>) -> (r: bool)
    ensures
        r == (node_views(mine@) == node_views(theirs@)),
    decreases mine,
{
    if mine.len() != theirs.len() {
        return false;
    }
    let mut i: usize = 0;
    while i < mine.len()
        invariant
            i <= mine.len(),
            mine.len() == theirs.len(),
            forall|j: int| 0 <= j < i ==> mine[j]@ == theirs[j]@,
        decreases mine.len() - i,
    {
        if !mine[i].same(&theirs[i]) {
            assert(node_views(mine@)[i as int] != node_views(theirs@)[i as int]);
            return false;
        }
        i += 1;
    }
    assert(node_views(mine@) =~= node_views(theirs@));
    true
}

/// The outcome of solving each of `nodes` at the end of `path`, each on a
/// path of its own.
pub fn solve_nodes<'a, Id: Ident>(nodes: &'a Vec<Node<Id>>, path: &Path<'a, Id>) -> (r: Vec<
    Resolved<'a, Id>,
>)
    ensures
        resolved_views(r@) == solve_each(node_views(nodes@), path@),
    decreases nodes,
{
    let mut outcomes: Vec<Resolved<'a, Id>> = Vec::new();
    let mut i: usize = 0;
    while i < nodes.len()
        invariant
            i <= nodes.len(),
            outcomes.len() == i,
            forall|j: int| 0 <= j < i ==> outcomes[j]@ == solve_spec(nodes[j]@, path@),
        decreases nodes.len() - i,
    {
        outcomes.push(nodes[i].solve(path.clone()));
        i += 1;
    }
    outcomes
}

impl<Id: Ident> Simple<Id> {
    /// The requirement of a copy of `node`.
    pub fn new(node: &Node<Id>) -> (r: Self)
        ensures
            r@ == node@,
    {
        Simple { node: Box::new(node.duplicate()) }
    }

    /// A copy of the requirement and of its node.
    pub fn duplicate(&self) -> (r: Self)
        ensures
            r@ == self@,
        decreases self,
    {
        Simple { node: Box::new(self.node.duplicate()) }
    }

    /// Whether the two require the same node.
    pub fn same(&self, other: &Self) -> (r: bool)
        ensures
            r == (self@ == other@),
        decreases self,
    {
        self.node.same(&other.node)
    }

    /// Resolves the requirement at the end of `path`: solves its node there.
    pub fn resolve<'a>(&'a self, path: Path<'a, Id>) -> (r: Resolved<'a, Id>)
        ensures
            r@ == solve_spec(self@, path@),
        decreases self,
    {
        self.node.solve(path)
    }
}

impl<Id: Ident> Any<Id> {
    /// The requirement of any one of copies of `nodes`.
    pub fn new(nodes: Vec<&Node<Id>>) -> (r: Self)
        ensures
            r@ == ref_views(nodes@),
    {
        let mut deps: Vec<Node<Id>> = Vec::new();
        let mut i: usize = 0;
        while i < nodes.len()
            invariant
                i <= nodes.len(),
                deps.len() == i,
                forall|j: int| 0 <= j < i ==> deps[j]@ == nodes[j]@,
            decreases nodes.len() - i,
        {
            deps.push(nodes[i].duplicate());
            i += 1;
        }
        Any { deps }
    }

    /// A copy of the requirement and of its nodes.
    pub fn duplicate(&self) -> (r: Self)
        ensures
            r@ == self@,
        decreases self,
    {
        Any { deps: duplicate_nodes(&self.deps) }
    }

    /// Whether the two hold the same nodes in the same order.
    pub fn same(&self, other: &Self) -> (r: bool)
        ensures
            r == (self@ == other@),
        decreases self,
    {
        same_nodes(&self.deps, &other.deps)
    }

    /// Resolves the requirement at the end of `path`: solves each node there,
    /// on a path of its own, and merges the outcomes.
    pub fn resolve<'a>(&'a self, path: Path<'a, Id>) -> (r: Resolved<'a, Id>)
        ensures
            r@ == merged(solve_each(self@, path@)),
        decreases self,
    {
        Resolved::merge(solve_nodes(&self.deps, &path))
    }
}

impl<Id: Ident> OrAnd<Id> {
    /// The requirement of `or_dep`.
    pub fn new(or_dep: OrDependency<Id>) -> (r: Self)
        ensures
            r.or_dep == or_dep,
    {
        OrAnd { or_dep }
    }

    /// A copy of the requirement and of every node in it.
    pub fn duplicate(&self) -> (r: Self)
        ensures
            r@ == self@,
        decreases self,
    {
        OrAnd { or_dep: self.or_dep.duplicate() }
    }

    /// Whether the two hold the same groups in the same order.
    pub fn same(&self, other: &Self) -> (r: bool)
        ensures
            r == (self@ == other@),
        decreases self,
    {
        self.or_dep.same(&other.or_dep)
    }

    /// Resolves the requirement at the end of `path`.
    pub fn resolve<'a>(&'a self, path: Path<'a, Id>) -> (r: Resolved<'a, Id>)
        ensures
            r@ == merged(and_each(self@, path@)),
        decreases self,
    {
        self.or_dep.resolve_step(path)
    }
}

impl<Id: Ident> AndDependency<Id> {
    /// The group of `deps`.
    pub fn new(deps: Vec<Node<Id>>) -> (r: Self)
        ensures
            r.deps == deps,
    {
        AndDependency { deps }
    }

    /// The group of `dep` alone.
    pub fn single(dep: Node<Id>) -> (r: Self)
        ensures
            r@ == seq![dep@],
    {
        let mut deps: Vec<Node<Id>> = Vec::new();
        deps.push(dep);
        AndDependency { deps }
    }

    /// Resolves the group at the end of `path`. Each node is solved there, on
    /// a path of its own. The group blames whom a node blames, and fails if
    /// a node fails. Else one path of each node is taken, in every possible
    /// way; each choice is joined into one path; and the joined paths on
    /// which no identity occurs twice are the group's.
    pub fn resolve_step<'a>(&'a self, path: Path<'a, Id>) -> (r: Resolved<'a, Id>)
        ensures
            r@ == and_spec(self@, path@),
        decreases self,
    {
        let subresults = solve_nodes(&self.deps, &path);
        proof {
            assert forall|i: int| 0 <= i < subresults.len() implies all_extend(
                (#[trigger] subresults[i])@.paths,
                path@,
            ) by {
                assert(subresults[i]@ == resolved_views(subresults@)[i]);
                assert(resolved_views(subresults@).len() == self@.len());
                lemma_solve_extends(self@[i], path@);
                lemma_extend_shorter(solve_spec(self@[i], path@).paths, path@, self@[i]);
            }
        }
        Self::join(path, subresults)
    }

    /// The outcome of a group whose nodes, each solved at the end of
    /// `prefix`, gave `subresults`.
    pub fn join<'a>(prefix: Path<'a, Id>, subresults: Vec<Resolved<'a, Id>>) -> (r: Resolved<
        'a,
        Id,
    >)
        requires
            forall|i: int|
                0 <= i < subresults.len() ==> all_extend(
                    (#[trigger] subresults[i])@.paths,
                    prefix@,
                ),
        ensures
            r@ == joined(prefix@, resolved_views(subresults@)),
    {
        let ghost outcomes = resolved_views(subresults@);
        let cause = Self::added_cause(&subresults);
        let mut no_failures = true;
        let mut i: usize = 0;
        while i < subresults.len()
            invariant
                i <= subresults.len(),
                outcomes == resolved_views(subresults@),
                no_failures == all_succeed(outcomes.take(i as int)),
            decreases subresults.len() - i,
        {
            let ghost seen = outcomes.take(i as int);
            let ghost more = outcomes.take(i + 1);
            if !subresults[i].is_success() {
                no_failures = false;
                assert(more[i as int].paths.len() == 0);
            } else {
                proof {
                    if !all_succeed(seen) {
                        let j = choose|j: int| 0 <= j < seen.len() && seen[j].paths.len() == 0;
                        assert(more[j].paths.len() == 0);
                    }
                }
            }
            i += 1;
        }
        assert(outcomes.take(i as int) =~= outcomes);
        if !no_failures {
            return Resolved::failure(cause);
        }
        let mut paths_per_child: Vec<Vec<Path<'a, Id>>> = Vec::new();
        for res in it: subresults
            invariant
                outcomes == resolved_views(it.seq()),
                paths_per_child.len() == it.index(),
                forall|j: int|
                    0 <= j < it.index() ==> path_views((#[trigger] paths_per_child[j])@)
                        == outcomes[j].paths,
        {
            paths_per_child.push(res.paths);
        }
        let ghost sources = rows(paths_per_child@);
        let ghost view = |p: Path<'a, Id>| p@;
        let ghost choices = selections_spec(paths_of(outcomes));
        let chosen = selections(paths_per_child);
        proof {
            assert(map_rows(sources, view) =~~= paths_of(outcomes));
            lemma_selections_map(sources, view);
            assert(map_rows(rows(chosen@), view) =~~= choices);
        }
        let ghost joins = megapaths(prefix@, choices);
        let mut kept: Vec<Path<'a, Id>> = Vec::new();
        for paths in it: chosen
            invariant
                it.seq() == chosen@,
                map_rows(rows(chosen@), view) == choices,
                view == |p: Path<'a, Id>| p@,
                choices == selections_spec(paths_of(outcomes)),
                joins == megapaths(prefix@, choices),
                forall|i: int|
                    0 <= i < outcomes.len() ==> all_extend(
                        (#[trigger] outcomes[i]).paths,
                        prefix@,
                    ),
                path_views(kept@) == consistent_only(joins.take(it.index() as int)),
        {
            let ghost k = it.index() as int;
            proof {
                assert(rows(chosen@)[k].map_values(view) =~= path_views(paths@));
                lemma_selections_rows(paths_of(outcomes), k);
                assert forall|j: int| 0 <= j < paths.len() implies prefix@.is_prefix_of(
                    #[trigger] paths[j]@,
                ) by {
                    let b = choose|b: int|
                        0 <= b < paths_of(outcomes)[j].len() && paths_of(outcomes)[j][b]
                            == choices[k][j];
                    assert(prefix@.is_prefix_of(outcomes[j].paths[b]));
                }
                assert(joins.take(k + 1).drop_last() =~= joins.take(k));
            }
            let mega = Self::megapath(prefix.clone(), paths);
            match Node::solvability(&mega) {
                Solvability::Solvable => {
                    kept.push(mega);
                },
                Solvability::Conflict => {},
            }
        }
        assert(joins.take(joins.len() as int) =~= joins);
        Resolved::new(kept, cause)
    }

    /// The nodes that some outcome blames.
    pub fn added_cause<'a>(causes: &Vec<Resolved<'a, Id>>) -> (r: Cause<'a, Id>)
        ensures
            r@ == causes_of(resolved_views(causes@)),
    {
        let ghost outcomes = resolved_views(causes@);
        let mut acc: Cause<'a, Id> = Cause::empty();
        let mut i: usize = 0;
        proof {
            lemma_merged_none::<Id::V>();
        }
        while i < causes.len()
            invariant
                i <= causes.len(),
                outcomes == resolved_views(causes@),
                acc@ == causes_of(outcomes.take(i as int)),
            decreases causes.len() - i,
        {
            proof {
                assert(outcomes.take(i + 1) =~= outcomes.take(i as int).push(outcomes[i as int]));
                lemma_merged_push(outcomes.take(i as int), outcomes[i as int]);
            }
            acc = acc.merge(causes[i].cause.clone());
            i += 1;
        }
        assert(outcomes.take(i as int) =~= outcomes);
        acc
    }

    /// The path that joins `paths`, all of which begin with `prefix`:
    /// `prefix`, then what the first path adds to it, then what the second
    /// adds, and so on.
    pub fn megapath<'a>(prefix: Path<'a, Id>, paths: Vec<Path<'a, Id>>) -> (r: Path<'a, Id>)
        requires
            forall|i: int| 0 <= i < paths.len() ==> prefix@.is_prefix_of((#[trigger] paths[i])@),
        ensures
            r@ == megapath(prefix@, path_views(paths@)),
    {
        let ghost tails = suffixes(path_views(paths@), prefix@.len() as int);
        let mut parts: Vec<Path<'a, Id>> = Vec::new();
        let mut i: usize = 0;
        while i < paths.len()
            invariant
                i <= paths.len(),
                forall|i: int|
                    0 <= i < paths.len() ==> prefix@.is_prefix_of((#[trigger] paths[i])@),
                tails == suffixes(path_views(paths@), prefix@.len() as int),
                path_views(parts@) == tails.take(i as int),
            decreases paths.len() - i,
        {
            let ghost before = parts@;
            parts.push(paths[i].suffix(&prefix));
            assert(path_views(parts@) =~= path_views(before).push(tails[i as int]));
            i += 1;
        }
        assert(tails.take(i as int) =~= tails);
        let tail = Path::chain(parts);
        let mut both: Vec<Path<'a, Id>> = Vec::new();
        both.push(prefix);
        both.push(tail);
        proof {
            let two = path_views(both@);
            assert(two =~= seq![prefix@].push(tail@));
            seq![prefix@].lemma_flatten_push(tail@);
            seq![prefix@].lemma_flatten_singleton();
        }
        Path::chain(both)
    }

    /// A copy of the group and of every node in it.
    pub fn duplicate(&self) -> (r: Self)
        ensures
            r@ == self@,
        decreases self,
    {
        AndDependency { deps: duplicate_nodes(&self.deps) }
    }

    /// Whether the two groups hold the same nodes in the same order.
    pub fn same(&self, other: &Self) -> (r: bool)
        ensures
            r == (self@ == other@),
        decreases self,
    {
        same_nodes(&self.deps, &other.deps)
    }
}

impl<Id: Ident> OrDependency<Id> {
    /// The alternatives `and_deps`.
    pub fn new(and_deps: Vec<AndDependency<Id>>) -> (r: Self)
        ensures
            r.and_deps == and_deps,
    {
        OrDependency { and_deps }
    }

    /// The one alternative `and_dep`.
    pub fn single(and_dep: AndDependency<Id>) -> (r: Self)
        ensures
            r@ == seq![and_dep@],
    {
        let mut and_deps: Vec<AndDependency<Id>> = Vec::new();
        and_deps.push(and_dep);
        OrDependency { and_deps }
    }

    /// Resolves the alternatives at the end of `path`: each group there, on a
    /// path of its own, and merges the outcomes.
    pub fn resolve_step<'a>(&'a self, path: Path<'a, Id>) -> (r: Resolved<'a, Id>)
        ensures
            r@ == merged(and_each(self@, path@)),
        decreases self,
    {
        let mut results: Vec<Resolved<'a, Id>> = Vec::new();
        let mut i: usize = 0;
        while i < self.and_deps.len()
            invariant
                i <= self.and_deps.len(),
                results.len() == i,
                forall|j: int|
                    0 <= j < i ==> results[j]@ == and_spec(self.and_deps[j]@, path@),
            decreases self.and_deps.len() - i,
        {
            results.push(self.and_deps[i].resolve_step(path.clone()));
            i += 1;
        }
        assert(resolved_views(results@) =~= and_each(self@, path@));
        Resolved::merge(results)
    }
    /// A copy of the alternatives and of every node in them.
    pub fn duplicate(&self) -> (r: Self)
        ensures
            r@ == self@,
        decreases self,
    {
        let mut and_deps: Vec<AndDependency<Id>> = Vec::new();
        let mut i: usize = 0;
        while i < self.and_deps.len()
            invariant
                i <= self.and_deps.len(),
                and_deps.len() == i,
                forall|j: int| 0 <= j < i ==> and_deps[j]@ == self.and_deps[j]@,
            decreases self.and_deps.len() - i,
        {
            and_deps.push(self.and_deps[i].duplicate());
            i += 1;
        }
        OrDependency { and_deps }
    }

    /// Whether the two hold the same groups in the same order.
    pub fn same(&self, other: &Self) -> (r: bool)
        ensures
            r == (self@ == other@),
        decreases self,
    {
        if self.and_deps.len() != other.and_deps.len() {
            assert(self@.len() != other@.len());
            return false;
        }
        let mut i: usize = 0;
        while i < self.and_deps.len()
            invariant
                i <= self.and_deps.len(),
                self.and_deps.len() == other.and_deps.len(),
                forall|j: int| 0 <= j < i ==> self.and_deps[j]@ == other.and_deps[j]@,
            decreases self.and_deps.len() - i,
        {
            if !self.and_deps[i].same(&other.and_deps[i]) {
                assert(self@[i as int] != other@[i as int]);
                return false;
            }
            i += 1;
        }
        assert(self@ =~= other@);
        true
    }
}

impl<Id: Ident> Resolvable<Id> {
    /// Resolves the requirement at the end of `path`.
    pub fn resolve<'a>(&'a self, path: Path<'a, Id>) -> (r: Resolved<'a, Id>)
        ensures
            r@ == resolve_spec(self@, path@),
        decreases self,
    {
        match self {
            Resolvable::Simple(simple) => simple.resolve(path),
            Resolvable::Any(any) => any.resolve(path),
            Resolvable::OrAnd(or_and) => or_and.resolve(path),
        }
    }

    /// The model of the requirement.
    pub open spec fn model(&self) -> ResolvableView<Id::V>
        decreases self,
    {
        match self {
            Resolvable::Simple(simple) => ResolvableView::Simple(Box::new(simple.node.model())),
            Resolvable::Any(any) => ResolvableView::Any(node_views(any.deps@)),
            Resolvable::OrAnd(or_and) => ResolvableView::OrAnd(
                group_views(or_and.or_dep.and_deps@),
            ),
        }
    }

    /// A copy of the requirement and of every node in it.
    pub fn duplicate(&self) -> (r: Self)
        ensures
            r@ == self@,
        decreases self,
    {
        match self {
            Resolvable::Simple(simple) => Resolvable::Simple(simple.duplicate()),
            Resolvable::Any(any) => Resolvable::Any(any.duplicate()),
            Resolvable::OrAnd(or_and) => Resolvable::OrAnd(or_and.duplicate()),
        }
    }

    /// Whether the two requirements have the same shape and hold the same
    /// nodes.
    pub fn same(&self, other: &Self) -> (r: bool)
        ensures
            r == (self@ == other@),
        decreases self,
    {
        match (self, other) {
            (Resolvable::Simple(mine), Resolvable::Simple(theirs)) => mine.same(theirs),
            (Resolvable::Any(mine), Resolvable::Any(theirs)) => mine.same(theirs),
            (Resolvable::OrAnd(mine), Resolvable::OrAnd(theirs)) => mine.same(theirs),
            _ => false,
        }
    }
}

impl<Id: Ident> Clone for Resolvable<Id> {
    fn clone(&self) -> (r: Self)
        ensures
            r@ == self@,
    {
        self.duplicate()
    }
}

impl<Id: Ident> PartialEq for Resolvable<Id> {
    fn eq(&self, other: &Self) -> (r: bool) {
        self.same(other)
    }
}

impl<Id: Ident> PartialEqSpecImpl for Resolvable<Id> {
    open spec fn obeys_eq_spec() -> bool {
        true
    }

    open spec fn eq_spec(&self, other: &Self) -> bool {
        self@ == other@
    }
}

impl<Id: Ident + Eq> Eq for Resolvable<Id> {

}

impl<Id: Ident> Clone for Simple<Id> {
    fn clone(&self) -> (r: Self)
        ensures
            r@ == self@,
    {
        self.duplicate()
    }
}

impl<Id: Ident> PartialEq for Simple<Id> {
    fn eq(&self, other: &Self) -> (r: bool) {
        self.same(other)
    }
}

impl<Id: Ident> PartialEqSpecImpl for Simple<Id> {
    open spec fn obeys_eq_spec() -> bool {
        true
    }

    open spec fn eq_spec(&self, other: &Self) -> bool {
        self@ == other@
    }
}

impl<Id: Ident + Eq> Eq for Simple<Id> {

}

impl<Id: Ident> Clone for Any<Id> {
    fn clone(&self) -> (r: Self)
        ensures
            r@ == self@,
    {
        self.duplicate()
    }
}

impl<Id: Ident> PartialEq for Any<Id> {
    fn eq(&self, other: &Self) -> (r: bool) {
        self.same(other)
    }
}

impl<Id: Ident> PartialEqSpecImpl for Any<Id> {
    open spec fn obeys_eq_spec() -> bool {
        true
    }

    open spec fn eq_spec(&self, other: &Self) -> bool {
        self@ == other@
    }
}

impl<Id: Ident + Eq> Eq for Any<Id> {

}

impl<Id: Ident> Clone for OrAnd<Id> {
    fn clone(&self) -> (r: Self)
        ensures
            r@ == self@,
    {
        self.duplicate()
    }
}

impl<Id: Ident> PartialEq for OrAnd<Id> {
    fn eq(&self, other: &Self) -> (r: bool) {
        self.same(other)
    }
}

impl<Id: Ident> PartialEqSpecImpl for OrAnd<Id> {
    open spec fn obeys_eq_spec() -> bool {
        true
    }

    open spec fn eq_spec(&self, other: &Self) -> bool {
        self@ == other@
    }
}

impl<Id: Ident + Eq> Eq for OrAnd<Id> {

}

impl<Id: Ident> Clone for OrDependency<Id> {
    fn clone(&self) -> (r: Self)
        ensures
            r@ == self@,
    {
        self.duplicate()
    }
}

impl<Id: Ident> PartialEq for OrDependency<Id> {
    fn eq(&self, other: &Self) -> (r: bool) {
        self.same(other)
    }
}

impl<Id: Ident> PartialEqSpecImpl for OrDependency<Id> {
    open spec fn obeys_eq_spec() -> bool {
        true
    }

    open spec fn eq_spec(&self, other: &Self) -> bool {
        self@ == other@
    }
}

impl<Id: Ident + Eq> Eq for OrDependency<Id> {

}

impl<Id: Ident> Clone for AndDependency<Id> {
    fn clone(&self) -> (r: Self)
        ensures
            r@ == self@,
    {
        self.duplicate()
    }
}

impl<Id: Ident> PartialEq for AndDependency<Id> {
    fn eq(&self, other: &Self) -> (r: bool) {
        self.same(other)
    }
}

impl<Id: Ident> PartialEqSpecImpl for AndDependency<Id> {
    open spec fn obeys_eq_spec() -> bool {
        true
    }

    open spec fn eq_spec(&self, other: &Self) -> bool {
        self@ == other@
    }
}

impl<Id: Ident + Eq> Eq for AndDependency<Id> {

}

} // verus!
