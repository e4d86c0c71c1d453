//! The mathematical model of a requirement graph and of its resolution.
//!
//! A node is modelled by its key and the model of what it requires; a path by
//! the sequence of the nodes on it; a cause by a set of nodes. Resolution is
//! defined here as a function of these values, and the executable resolver is
//! proved to compute it.

use crate::package::ident::conflicting;
use crate::utils::selections_spec;
use vstd::prelude::*;

verus! {

/// A node: its key, and what it requires.
pub struct NodeView<K> {
    pub id: K,
    pub dependency: Option<ResolvableView<K>>,
}

/// What a node requires.
pub enum ResolvableView<K> {
    /// One node.
    Simple(Box<NodeView<K>>),
    /// Any one of these nodes.
    Any(Seq<NodeView<K>>),
    /// Any one of these groups, and of that group every node.
    OrAnd(Seq<Seq<NodeView<K>>>),
}

/// A path: the nodes visited, first to last.
pub type PathView<K> = Seq<NodeView<K>>;

/// The outcome of resolving: the paths that were found, and the nodes to blame.
#[verifier::reject_recursive_types(K)]
pub struct ResolvedView<K> {
    pub paths: Seq<PathView<K>>,
    pub cause: Set<NodeView<K>>,
}

/// The keys of the nodes on a path, position by position.
pub open spec fn path_keys<K>(path: PathView<K>) -> Seq<K> {
    Seq::new(path.len(), |i: int| path[i].id)
}

/// A path is consistent when no key occurs twice on it.
pub open spec fn consistent<K>(path: PathView<K>) -> bool {
    !conflicting(path_keys(path))
}

/// How often `node` occurs on `path`.
pub open spec fn occurrences<K>(path: PathView<K>, node: NodeView<K>) -> nat
    decreases path.len(),
{
    if path.len() == 0 {
        0
    } else {
        occurrences(path.drop_last(), node) + if path.last() == node {
            1nat
        } else {
            0nat
        }
    }
}

/// The outcome with one path and nobody to blame.
pub open spec fn success<K>(path: PathView<K>) -> ResolvedView<K> {
    ResolvedView { paths: seq![path], cause: Set::empty() }
}

/// The outcome without a path.
pub open spec fn failure<K>(cause: Set<NodeView<K>>) -> ResolvedView<K> {
    ResolvedView { paths: Seq::empty(), cause }
}

/// The paths of each outcome.
pub open spec fn paths_of<K>(outcomes: Seq<ResolvedView<K>>) -> Seq<Seq<PathView<K>>> {
    Seq::new(outcomes.len(), |i: int| outcomes[i].paths)
}

/// The nodes that some outcome blames.
pub open spec fn causes_of<K>(outcomes: Seq<ResolvedView<K>>) -> Set<NodeView<K>> {
    Set::new(
        |n: NodeView<K>| exists|i: int| 0 <= i < outcomes.len() && outcomes[i].cause.contains(n),
    )
}

/// Several outcomes as one: the paths of the first, then those of the second,
/// and so on; and every node that one of them blames.
pub open spec fn merged<K>(outcomes: Seq<ResolvedView<K>>) -> ResolvedView<K> {
    ResolvedView { paths: paths_of(outcomes).flatten(), cause: causes_of(outcomes) }
}

/// The outcome of `sub` as seen from above `node`: `node` is blamed no more.
pub open spec fn promoted<K>(sub: ResolvedView<K>, node: NodeView<K>) -> ResolvedView<K> {
    ResolvedView { paths: sub.paths, cause: sub.cause.remove(node) }
}

/// What each path has after its first `skip` nodes.
pub open spec fn suffixes<K>(paths: Seq<PathView<K>>, skip: int) -> Seq<PathView<K>> {
    Seq::new(paths.len(), |i: int| paths[i].skip(skip))
}

/// The path that joins `paths`, all of which begin with `prefix`: `prefix`,
/// then what the first path adds to it, then what the second adds, and so on.
pub open spec fn megapath<K>(prefix: PathView<K>, paths: Seq<PathView<K>>) -> PathView<K> {
    prefix + suffixes(paths, prefix.len() as int).flatten()
}

/// The joined path of each choice.
pub open spec fn megapaths<K>(prefix: PathView<K>, choices: Seq<Seq<PathView<K>>>) -> Seq<
    PathView<K>,
> {
    Seq::new(choices.len(), |i: int| megapath(prefix, choices[i]))
}

/// The consistent paths among `paths`, in their order.
pub open spec fn consistent_only<K>(paths: Seq<PathView<K>>) -> Seq<PathView<K>>
    decreases paths.len(),
{
    if paths.len() == 0 {
        Seq::empty()
    } else if consistent(paths.last()) {
        consistent_only(paths.drop_last()).push(paths.last())
    } else {
        consistent_only(paths.drop_last())
    }
}

/// Whether every outcome has a path.
pub open spec fn all_succeed<K>(outcomes: Seq<ResolvedView<K>>) -> bool {
    forall|i: int| 0 <= i < outcomes.len() ==> (#[trigger] outcomes[i]).paths.len() != 0
}

/// The outcome of a group whose members, each resolved from `prefix`, gave
/// `outcomes`. The group blames whom a member blames. It fails if a member
/// failed. Else it takes one path of each member in every possible way, joins
/// each choice into one path, and keeps the joined paths that are consistent.
pub open spec fn joined<K>(prefix: PathView<K>, outcomes: Seq<ResolvedView<K>>) -> ResolvedView<
    K,
> {
    if all_succeed(outcomes) {
        ResolvedView {
            paths: consistent_only(megapaths(prefix, selections_spec(paths_of(outcomes)))),
            cause: causes_of(outcomes),
        }
    } else {
        failure(causes_of(outcomes))
    }
}

/// The outcome of solving `node` at the end of `path`.
///
/// The node joins the path. If the path then holds a key twice, the node
/// fails: it blames itself if it is on the path twice, nobody if another node
/// has its key. Else a node that requires nothing succeeds with the path, and
/// one that requires something has the outcome of that, promoted above itself.
pub open spec fn solve_spec<K>(node: NodeView<K>, path: PathView<K>) -> ResolvedView<K>
    decreases node, 0nat,
{
    let trail = path.push(node);
    if !consistent(trail) {
        failure(
            if occurrences(trail, node) == 1 {
                Set::empty()
            } else {
                set![node]
            },
        )
    } else {
        match node.dependency {
            None => success(trail),
            Some(requirement) => promoted(resolve_spec(requirement, trail), node),
        }
    }
}

/// The outcome of solving each of `nodes` at the end of `path`.
pub open spec fn solve_each<K>(nodes: Seq<NodeView<K>>, path: PathView<K>) -> Seq<ResolvedView<K>>
    decreases nodes, 0nat,
{
    Seq::new(
        nodes.len(),
        |i: int|
            if 0 <= i < nodes.len() {
                solve_spec(nodes[i], path)
            } else {
                arbitrary()
            },
    )
}

/// The outcome of a group: that of its members, joined.
pub open spec fn and_spec<K>(nodes: Seq<NodeView<K>>, path: PathView<K>) -> ResolvedView<K>
    decreases nodes, 1nat,
{
    joined(path, solve_each(nodes, path))
}

/// The outcome of each of `groups` at the end of `path`.
pub open spec fn and_each<K>(groups: Seq<Seq<NodeView<K>>>, path: PathView<K>) -> Seq<
    ResolvedView<K>,
>
    decreases groups, 0nat,
{
    Seq::new(
        groups.len(),
        |i: int|
            if 0 <= i < groups.len() {
                and_spec(groups[i], path)
            } else {
                arbitrary()
            },
    )
}

/// The outcome of resolving `requirement` at the end of `path`.
pub open spec fn resolve_spec<K>(requirement: ResolvableView<K>, path: PathView<K>) -> ResolvedView<
    K,
>
    decreases requirement, 0nat,
{
    match requirement {
        ResolvableView::Simple(node) => solve_spec(*node, path),
        ResolvableView::Any(nodes) => merged(solve_each(nodes, path)),
        ResolvableView::OrAnd(groups) => merged(and_each(groups, path)),
    }
}

/// Whether every one of `paths` begins with `prefix`.
pub open spec fn all_extend<K>(paths: Seq<PathView<K>>, prefix: PathView<K>) -> bool {
    forall|i: int| 0 <= i < paths.len() ==> prefix.is_prefix_of(#[trigger] paths[i])
}

/// Whether every one of `paths` is consistent.
pub open spec fn all_consistent<K>(paths: Seq<PathView<K>>) -> bool {
    forall|i: int| 0 <= i < paths.len() ==> consistent(#[trigger] paths[i])
}

/// Whether every node that `cause` blames is on `path`.
pub open spec fn blames_only<K>(cause: Set<NodeView<K>>, path: PathView<K>) -> bool {
    forall|n: NodeView<K>| cause.contains(n) ==> path.contains(n)
}

} // verus!
