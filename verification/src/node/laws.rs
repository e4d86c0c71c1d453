//! What holds of every resolution.

use crate::node::model::all_consistent;
use crate::node::model::all_extend;
use crate::node::model::all_succeed;
use crate::node::model::and_each;
use crate::node::model::blames_only;
use crate::node::model::causes_of;
use crate::node::model::consistent;
use crate::node::model::consistent_only;
use crate::node::model::joined;
use crate::node::model::megapaths;
use crate::node::model::occurrences;
use crate::node::model::merged;
use crate::node::model::NodeView;
use crate::node::model::paths_of;
use crate::node::model::PathView;
use crate::node::model::ResolvableView;
use crate::node::model::resolve_spec;
use crate::node::model::ResolvedView;
use crate::node::model::solve_each;
use crate::node::model::solve_spec;
use crate::utils::selections_spec;
use vstd::prelude::*;

verus! {

/// Merging no outcome gives a failure that blames nobody.
pub proof fn lemma_merged_none<K>()
    ensures
        merged(Seq::<ResolvedView<K>>::empty()).paths.len() == 0,
        merged(Seq::<ResolvedView<K>>::empty()).cause == Set::<NodeView<K>>::empty(),
{
}

/// Merging one outcome more adds its paths at the end and its blame to the
/// blame: merging is a fold over the outcomes, from the first to the last.
pub proof fn lemma_merged_push<K>(outcomes: Seq<ResolvedView<K>>, next: ResolvedView<K>)
    ensures
        merged(outcomes.push(next)).paths == merged(outcomes).paths + next.paths,
        merged(outcomes.push(next)).cause == merged(outcomes).cause.union(next.cause),
{
    let more = outcomes.push(next);
    assert(paths_of(more) =~= paths_of(outcomes).push(next.paths));
    paths_of(outcomes).lemma_flatten_push(next.paths);
    assert forall|n: NodeView<K>|
        causes_of(more).contains(n) <==> causes_of(outcomes).union(next.cause).contains(n) by {
        if causes_of(outcomes).contains(n) {
            let i = choose|i: int| 0 <= i < outcomes.len() && outcomes[i].cause.contains(n);
            assert(more[i].cause.contains(n));
        }
        if next.cause.contains(n) {
            assert(more[outcomes.len() as int].cause.contains(n));
        }
    }
}

/// Every path of a merged outcome is a path of one of the outcomes.
pub proof fn lemma_merged_paths<K>(outcomes: Seq<ResolvedView<K>>, i: int)
    requires
        0 <= i < merged(outcomes).paths.len(),
    ensures
        exists|a: int, b: int|
            0 <= a < outcomes.len() && 0 <= b < outcomes[a].paths.len() && merged(
                outcomes,
            ).paths[i] == outcomes[a].paths[b],
    decreases outcomes.len(),
{
    if outcomes.len() == 0 {
        lemma_merged_none::<K>();
    } else {
        let front = outcomes.drop_last();
        let last = outcomes.last();
        assert(outcomes =~= front.push(last));
        lemma_merged_push(front, last);
        if i < merged(front).paths.len() {
            lemma_merged_paths(front, i);
        } else {
            let b = i - merged(front).paths.len();
            assert(merged(outcomes).paths[i] == outcomes[outcomes.len() - 1].paths[b]);
        }
    }
}

/// The consistent paths among `paths` are paths of `paths`, and consistent.
pub proof fn lemma_consistent_only<K>(paths: Seq<PathView<K>>, i: int)
    requires
        0 <= i < consistent_only(paths).len(),
    ensures
        paths.contains(consistent_only(paths)[i]),
        consistent(consistent_only(paths)[i]),
    decreases paths.len(),
{
    if paths.len() > 0 {
        let front = paths.drop_last();
        if i < consistent_only(front).len() {
            lemma_consistent_only(front, i);
        }
    }
}

/// A group's paths all begin with the path that its members were resolved
/// from.
pub proof fn lemma_joined_extends<K>(prefix: PathView<K>, outcomes: Seq<ResolvedView<K>>)
    ensures
        all_extend(joined(prefix, outcomes).paths, prefix),
{
    let found = joined(prefix, outcomes).paths;
    if all_succeed(outcomes) {
        let joins = megapaths(prefix, selections_spec(paths_of(outcomes)));
        assert forall|i: int| 0 <= i < found.len() implies prefix.is_prefix_of(
            #[trigger] found[i],
        ) by {
            lemma_consistent_only(joins, i);
        }
    }
}

/// When the paths of every outcome begin with `prefix`, so do those of the
/// merged outcome.
pub proof fn lemma_merged_extends<K>(outcomes: Seq<ResolvedView<K>>, prefix: PathView<K>)
    requires
        forall|i: int| 0 <= i < outcomes.len() ==> all_extend(#[trigger] outcomes[i].paths, prefix),
    ensures
        all_extend(merged(outcomes).paths, prefix),
{
    let found = merged(outcomes).paths;
    assert forall|i: int| 0 <= i < found.len() implies prefix.is_prefix_of(#[trigger] found[i]) by {
        lemma_merged_paths(outcomes, i);
    }
}

/// A path that begins with a longer path begins with each shorter one.
pub proof fn lemma_extend_shorter<K>(paths: Seq<PathView<K>>, path: PathView<K>, node: NodeView<K>)
    requires
        all_extend(paths, path.push(node)),
    ensures
        all_extend(paths, path),
{
}

/// Every path found by solving a node begins with the path that the node was
/// solved at, and then the node: a search only ever adds to its trail.
pub proof fn lemma_solve_extends<K>(node: NodeView<K>, path: PathView<K>)
    ensures
        all_extend(solve_spec(node, path).paths, path.push(node)),
    decreases node, 0nat,
{
    let trail = path.push(node);
    if consistent(trail) {
        match node.dependency {
            None => {},
            Some(requirement) => {
                lemma_resolve_extends(requirement, trail);
            },
        }
    }
}

/// Every path found by resolving a requirement begins with the path that it
/// was resolved at.
pub proof fn lemma_resolve_extends<K>(requirement: ResolvableView<K>, path: PathView<K>)
    ensures
        all_extend(resolve_spec(requirement, path).paths, path),
    decreases requirement, 0nat,
{
    match requirement {
        ResolvableView::Simple(node) => {
            lemma_solve_extends(*node, path);
            lemma_extend_shorter(solve_spec(*node, path).paths, path, *node);
        },
        ResolvableView::Any(nodes) => {
            let outcomes = solve_each(nodes, path);
            assert forall|i: int| 0 <= i < outcomes.len() implies all_extend(
                #[trigger] outcomes[i].paths,
                path,
            ) by {
                lemma_solve_extends(nodes[i], path);
                lemma_extend_shorter(solve_spec(nodes[i], path).paths, path, nodes[i]);
            }
            lemma_merged_extends(outcomes, path);
        },
        ResolvableView::OrAnd(groups) => {
            let outcomes = and_each(groups, path);
            assert forall|i: int| 0 <= i < outcomes.len() implies all_extend(
                #[trigger] outcomes[i].paths,
                path,
            ) by {
                lemma_joined_extends(path, solve_each(groups[i], path));
            }
            lemma_merged_extends(outcomes, path);
        },
    }
}

/// When the paths of every outcome are consistent, so are those of the
/// merged outcome.
pub proof fn lemma_merged_consistent<K>(outcomes: Seq<ResolvedView<K>>)
    requires
        forall|i: int| 0 <= i < outcomes.len() ==> all_consistent(#[trigger] outcomes[i].paths),
    ensures
        all_consistent(merged(outcomes).paths),
{
    let found = merged(outcomes).paths;
    assert forall|i: int| 0 <= i < found.len() implies consistent(#[trigger] found[i]) by {
        lemma_merged_paths(outcomes, i);
    }
}

/// A group's paths are consistent, whatever its members found.
pub proof fn lemma_joined_consistent<K>(prefix: PathView<K>, outcomes: Seq<ResolvedView<K>>)
    ensures
        all_consistent(joined(prefix, outcomes).paths),
{
    let found = joined(prefix, outcomes).paths;
    if all_succeed(outcomes) {
        assert forall|i: int| 0 <= i < found.len() implies consistent(#[trigger] found[i]) by {
            lemma_consistent_only(megapaths(prefix, selections_spec(paths_of(outcomes))), i);
        }
    }
}

/// No path that solving a node finds holds a key twice: every selection that
/// the resolver gives is free of conflict.
pub proof fn lemma_solve_consistent<K>(node: NodeView<K>, path: PathView<K>)
    ensures
        all_consistent(solve_spec(node, path).paths),
    decreases node, 0nat,
{
    let trail = path.push(node);
    if consistent(trail) {
        match node.dependency {
            None => {},
            Some(requirement) => {
                lemma_resolve_consistent(requirement, trail);
            },
        }
    }
}

/// No path that resolving a requirement finds holds a key twice.
pub proof fn lemma_resolve_consistent<K>(requirement: ResolvableView<K>, path: PathView<K>)
    ensures
        all_consistent(resolve_spec(requirement, path).paths),
    decreases requirement, 0nat,
{
    match requirement {
        ResolvableView::Simple(node) => {
            lemma_solve_consistent(*node, path);
        },
        ResolvableView::Any(nodes) => {
            let outcomes = solve_each(nodes, path);
            assert forall|i: int| 0 <= i < outcomes.len() implies all_consistent(
                #[trigger] outcomes[i].paths,
            ) by {
                lemma_solve_consistent(nodes[i], path);
            }
            lemma_merged_consistent(outcomes);
        },
        ResolvableView::OrAnd(groups) => {
            let outcomes = and_each(groups, path);
            assert forall|i: int| 0 <= i < outcomes.len() implies all_consistent(
                #[trigger] outcomes[i].paths,
            ) by {
                lemma_joined_consistent(path, solve_each(groups[i], path));
            }
            lemma_merged_consistent(outcomes);
        },
    }
}

/// A node that joins a path without conflict is not blamed by its own
/// outcome: what blame on it came from below stays below.
pub proof fn lemma_solve_clears_own_blame<K>(node: NodeView<K>, path: PathView<K>)
    requires
        consistent(path.push(node)),
    ensures
        !solve_spec(node, path).cause.contains(node),
{
}

/// Adding a node to the empty cause and taking it away again leaves the
/// empty cause.
pub proof fn lemma_add_then_above<K>(node: NodeView<K>)
    ensures
        Set::<NodeView<K>>::empty().insert(node).remove(node) == Set::<NodeView<K>>::empty(),
{
}

/// Taking away a node that was added to a cause which did not blame it
/// gives the cause back.
pub proof fn lemma_above_undoes_add<K>(cause: Set<NodeView<K>>, node: NodeView<K>)
    requires
        !cause.contains(node),
    ensures
        cause.insert(node).remove(node) == cause,
{
}

/// Merging two runs of outcomes and then the two results gives what merging
/// all of them at once gives.
pub proof fn lemma_merged_concat<K>(first: Seq<ResolvedView<K>>, second: Seq<ResolvedView<K>>)
    ensures
        merged(first + second).paths == merged(first).paths + merged(second).paths,
        merged(first + second).cause == merged(first).cause.union(merged(second).cause),
    decreases second.len(),
{
    if second.len() == 0 {
        lemma_merged_none::<K>();
        assert(first + second =~= first);
        assert(second =~= Seq::empty());
        assert(merged(first).paths + merged(second).paths =~= merged(first).paths);
        assert(merged(first).cause.union(merged(second).cause) =~= merged(first).cause);
    } else {
        let front = second.drop_last();
        let last = second.last();
        assert(second =~= front.push(last));
        assert(first + second =~= (first + front).push(last));
        lemma_merged_concat(first, front);
        lemma_merged_push(first + front, last);
        lemma_merged_push(front, last);
        assert(merged(first + second).paths =~= merged(first).paths + merged(second).paths);
        assert(merged(first + second).cause =~= merged(first).cause.union(merged(second).cause));
    }
}

/// The order of two outcomes matters to the order of the paths only: the
/// same nodes are blamed and the same paths are found, each as often,
/// whichever outcome comes first.
pub proof fn lemma_merged_swap<K>(first: ResolvedView<K>, second: ResolvedView<K>)
    ensures
        merged(seq![first, second]).cause == merged(seq![second, first]).cause,
        merged(seq![first, second]).paths == first.paths + second.paths,
        merged(seq![second, first]).paths == second.paths + first.paths,
        merged(seq![first, second]).paths.to_multiset() == merged(
            seq![second, first],
        ).paths.to_multiset(),
{
    let none = Seq::<ResolvedView<K>>::empty();
    lemma_merged_none::<K>();
    lemma_merged_push(none, first);
    lemma_merged_push(none, second);
    lemma_merged_push(seq![first], second);
    lemma_merged_push(seq![second], first);
    assert(none.push(first) =~= seq![first]);
    assert(none.push(second) =~= seq![second]);
    assert(seq![first].push(second) =~= seq![first, second]);
    assert(seq![second].push(first) =~= seq![second, first]);
    assert(merged(seq![first]).paths =~= first.paths);
    assert(merged(seq![second]).paths =~= second.paths);
    assert(merged(seq![first, second]).cause =~= merged(seq![second, first]).cause);
    vstd::seq_lib::lemma_seq_union_to_multiset_commutative(first.paths, second.paths);
}

/// Resolving is a function of the node and of the path: whoever solves a
/// node at the empty path has the one outcome that `solve_spec` names, so two
/// runs on one graph agree.
pub proof fn lemma_solve_twice<K>(
    node: NodeView<K>,
    first: ResolvedView<K>,
    second: ResolvedView<K>,
)
    requires
        first == solve_spec(node, Seq::empty()),
        second == solve_spec(node, Seq::empty()),
    ensures
        first == second,
{
}

/// A node that occurs on a path is one of its nodes.
pub proof fn lemma_occurs_on_path<K>(path: PathView<K>, node: NodeView<K>)
    requires
        occurrences(path, node) > 0,
    ensures
        path.contains(node),
    decreases path.len(),
{
    if path.last() == node {
        assert(path[path.len() - 1] == node);
    } else {
        lemma_occurs_on_path(path.drop_last(), node);
        let k = choose|k: int| 0 <= k < path.drop_last().len() && path.drop_last()[k] == node;
        assert(path[k] == node);
    }
}

/// When every outcome blames nodes of `path` only, so does the merged
/// outcome, and so does a group of them.
pub proof fn lemma_causes_on_path<K>(outcomes: Seq<ResolvedView<K>>, path: PathView<K>)
    requires
        forall|i: int| 0 <= i < outcomes.len() ==> blames_only(#[trigger] outcomes[i].cause, path),
    ensures
        blames_only(causes_of(outcomes), path),
{
    assert forall|n: NodeView<K>| causes_of(outcomes).contains(n) implies path.contains(n) by {
        let i = choose|i: int| 0 <= i < outcomes.len() && outcomes[i].cause.contains(n);
        assert(blames_only(outcomes[i].cause, path));
    }
}

/// Solving a node blames only nodes of the path that it was solved at: the
/// blame on a node that the search itself added is taken away again when the
/// search returns above it.
pub proof fn lemma_solve_blames_path<K>(node: NodeView<K>, path: PathView<K>)
    ensures
        blames_only(solve_spec(node, path).cause, path),
    decreases node, 0nat,
{
    let trail = path.push(node);
    if !consistent(trail) {
        if occurrences(trail, node) != 1 {
            assert(trail.drop_last() =~= path);
            lemma_occurs_on_path(path, node);
        }
    } else {
        match node.dependency {
            None => {},
            Some(requirement) => {
                lemma_resolve_blames_path(requirement, trail);
                let below = resolve_spec(requirement, trail).cause;
                assert forall|n: NodeView<K>| below.remove(node).contains(n) implies path.contains(
                    n,
                ) by {
                    let k = choose|k: int| 0 <= k < trail.len() && trail[k] == n;
                    assert(path[k] == n);
                }
            },
        }
    }
}

/// Resolving a requirement blames only nodes of the path that it was
/// resolved at.
pub proof fn lemma_resolve_blames_path<K>(requirement: ResolvableView<K>, path: PathView<K>)
    ensures
        blames_only(resolve_spec(requirement, path).cause, path),
    decreases requirement, 0nat,
{
    match requirement {
        ResolvableView::Simple(node) => {
            lemma_solve_blames_path(*node, path);
        },
        ResolvableView::Any(nodes) => {
            let outcomes = solve_each(nodes, path);
            assert forall|i: int| 0 <= i < outcomes.len() implies blames_only(
                #[trigger] outcomes[i].cause,
                path,
            ) by {
                lemma_solve_blames_path(nodes[i], path);
            }
            lemma_causes_on_path(outcomes, path);
        },
        ResolvableView::OrAnd(groups) => {
            let outcomes = and_each(groups, path);
            assert forall|i: int| 0 <= i < outcomes.len() implies blames_only(
                #[trigger] outcomes[i].cause,
                path,
            ) by {
                let members = solve_each(groups[i], path);
                assert forall|j: int| 0 <= j < members.len() implies blames_only(
                    #[trigger] members[j].cause,
                    path,
                ) by {
                    lemma_solve_blames_path(groups[i][j], path);
                }
                lemma_causes_on_path(members, path);
            }
            lemma_causes_on_path(outcomes, path);
        },
    }
}

/// A search that starts at the empty path blames nobody, whether it finds a
/// path or not.
pub proof fn lemma_solve_from_nothing<K>(node: NodeView<K>)
    ensures
        solve_spec(node, Seq::empty()).cause == Set::<NodeView<K>>::empty(),
{
    lemma_solve_blames_path(node, Seq::empty());
    assert(solve_spec(node, Seq::empty()).cause =~= Set::<NodeView<K>>::empty());
}

} // verus!
