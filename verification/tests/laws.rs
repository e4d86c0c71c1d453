use rosol::node::cause::Cause;
use rosol::node::resolvable::{AndDependency, Any, OrAnd, OrDependency, Resolvable, Simple};
use rosol::node::resolved::Resolved;
use rosol::node::solvability::Solvability;
use rosol::node::Node;
use rosol::package::ident::{Ident, SimpleUnique};
use rosol::path::Path;
use rosol::utils::{selections, selections_from};

type N = Node<SimpleUnique>;

fn node(id: &'static str) -> N {
    Node {
        id: SimpleUnique { id },
        dependency: None,
    }
}

fn requiring(id: &'static str, of: &N) -> N {
    Node {
        id: SimpleUnique { id },
        dependency: Some(Resolvable::Simple(Simple::new(of))),
    }
}

fn all_of(nodes: Vec<N>) -> Option<Resolvable<SimpleUnique>> {
    Some(Resolvable::OrAnd(OrAnd::new(OrDependency::single(
        AndDependency::new(nodes),
    ))))
}

fn any_of(nodes: Vec<&N>) -> Option<Resolvable<SimpleUnique>> {
    Some(Resolvable::Any(Any::new(nodes)))
}

#[test]
fn conflict_is_a_repeated_identity_whatever_the_nodes_hold() {
    let plain = node("a");
    let other = node("b");
    let loaded = requiring("a", &other);

    let path = Path::new(vec![&plain, &other, &loaded]);
    assert!(path.conflict());
    assert!(SimpleUnique::are_conflicting(&path.idents()));
    // the two nodes named "a" are different nodes
    assert!(path.unique(&plain));
    assert!(path.unique(&loaded));

    let path = Path::new(vec![&loaded, &other]);
    assert!(!path.conflict());
    assert!(!SimpleUnique::are_conflicting(&path.idents()));

    let empty: Path<SimpleUnique> = Path::new(vec![]);
    assert!(!empty.conflict());
    assert!(!empty.unique(&plain));
}

#[test]
fn add_and_above_undo_each_other() {
    let a = node("a");
    let b = node("b");

    assert_eq!(Cause::empty().add(&a).above(&a), Cause::empty());
    assert_eq!(Cause::from(&b).add(&a).above(&a), Cause::from(&b));
    // taking away what is not there changes nothing
    assert_eq!(Cause::from(&b).above(&a), Cause::from(&b));
    assert_eq!(Cause::<SimpleUnique>::empty().above(&a), Cause::empty());
}

#[test]
fn merging_nothing_fails_and_blames_nobody() {
    let merged: Resolved<SimpleUnique> = Resolved::merge(vec![]);

    assert!(!merged.is_success());
    assert_eq!(merged.paths.len(), 0);
    assert_eq!(merged.cause, Cause::empty());
    assert_eq!(merged, Resolved::failure(Cause::empty()));
}

#[test]
fn merging_keeps_the_order_of_paths_and_unites_the_causes() {
    let a = node("a");
    let b = node("b");
    let c = node("c");

    let first = Resolved::new(
        vec![Path::new(vec![&a]), Path::new(vec![&a, &b])],
        Cause::from(&a),
    );
    let second = Resolved::failure(Cause::from(&b).add(&c));
    let third = Resolved::success(Path::new(vec![&c]));

    let merged = Resolved::merge(vec![first, second, third]);

    assert!(merged.is_success());
    assert_eq!(
        merged.paths,
        vec![
            Path::new(vec![&a]),
            Path::new(vec![&a, &b]),
            Path::new(vec![&c])
        ]
    );
    assert_eq!(merged.cause, Cause::new(vec![&c, &a, &b]));
    assert_eq!(merged.cause.nodes().len(), 3);
}

#[test]
fn merging_two_puts_the_left_paths_first() {
    let a = node("a");
    let b = node("b");

    let left = Resolved::success(Path::new(vec![&a]));
    let right = Resolved::new(vec![Path::new(vec![&b])], Cause::from(&b));

    let both = Resolved::merge_two(left, right);

    assert_eq!(both.paths, vec![Path::new(vec![&a]), Path::new(vec![&b])]);
    assert_eq!(both.cause, Cause::from(&b));
}

#[test]
fn solving_twice_gives_the_same() {
    let d = node("d");
    let e = node("e");
    let c = requiring("c", &d);
    let mut b = node("b");
    b.dependency = all_of(vec![c.clone(), e.clone()]);
    let mut a = node("a");
    a.dependency = any_of(vec![&b, &c, &a]);

    let first = a.solve(Path::new(vec![]));
    let second = a.solve(Path::new(vec![]));

    assert_eq!(first, second);
    assert!(first.is_success());
    assert_eq!(
        first.paths,
        vec![
            Path::new(vec![&a, &b, &c, &d, &e]),
            Path::new(vec![&a, &c, &d])
        ]
    );
    assert_eq!(first.cause, Cause::empty());
}

#[test]
fn every_path_found_is_free_of_conflict_and_starts_where_the_search_did() {
    let d = node("d");
    let e = node("e");
    let c = requiring("c", &d);
    let mut b = node("b");
    b.dependency = all_of(vec![c.clone(), e.clone()]);
    let mut a = node("a");
    a.dependency = any_of(vec![&b, &c]);
    let start = node("start");

    let from = Path::new(vec![&start]);
    let res = a.solve(from.clone());

    assert_eq!(res.paths.len(), 2);
    for path in res.paths.iter() {
        assert!(!path.conflict());
        assert!(path.starts_with(&from.clone().append(&a)));
    }
}

#[test]
fn a_node_whose_identity_another_node_has_blames_nobody() {
    let other = node("x");
    let earlier = requiring("id1", &other);
    let s = node("id1");

    let res = s.solve(Path::new(vec![&earlier]));

    assert_eq!(res, Resolved::failure(Cause::empty()));
}

#[test]
fn a_failure_below_is_blamed_on_the_node_that_repeats() {
    // b requires a, and a is on the path already
    let a = node("a");
    let b = requiring("b", &a);

    let res = b.solve(Path::new(vec![&a]));

    assert!(!res.is_success());
    assert_eq!(res.cause, Cause::from(&a));
}

#[test]
fn promoting_takes_the_node_out_of_the_blame() {
    let a = node("a");
    let b = node("b");

    let sub = Resolved::new(vec![Path::new(vec![&a, &b])], Cause::from(&a).add(&b));
    let res = Node::promoted(sub, &a);

    assert_eq!(res.paths, vec![Path::new(vec![&a, &b])]);
    assert_eq!(res.cause, Cause::from(&b));
}

#[test]
fn solvability_tells_conflict_from_none() {
    let a = node("a");
    let b = node("b");

    assert_eq!(
        Node::solvability(&Path::new(vec![&a, &b])),
        Solvability::Solvable
    );
    assert_eq!(
        Node::solvability(&Path::new(vec![&a, &b, &a])),
        Solvability::Conflict
    );
}

#[test]
fn nodes_are_equal_when_all_they_hold_is() {
    let a = node("a");
    let b = requiring("b", &a);
    let also_b = requiring("b", &a);
    let bare_b = node("b");
    let other_b = requiring("b", &bare_b);

    assert!(b.same(&also_b));
    assert!(b == also_b);
    assert!(!b.same(&bare_b));
    assert!(!b.same(&other_b));
    assert!(b.duplicate().same(&b));
    assert_eq!(b.clone(), b);

    let mut any = node("n");
    any.dependency = any_of(vec![&a, &b]);
    let mut any_reversed = node("n");
    any_reversed.dependency = any_of(vec![&b, &a]);
    let mut all = node("n");
    all.dependency = all_of(vec![a.clone(), b.clone()]);

    assert_eq!(any.clone(), any);
    assert_eq!(all.clone(), all);
    assert!(any != any_reversed);
    assert!(any != all);
}

#[test]
fn any_gives_the_paths_of_each_alternative_in_order() {
    let b = node("b");
    let c = node("c");
    let mut a = node("a");
    a.dependency = any_of(vec![&b, &c]);

    let res = a.solve(Path::new(vec![]));

    assert_eq!(
        res,
        Resolved::new(
            vec![Path::new(vec![&a, &b]), Path::new(vec![&a, &c])],
            Cause::empty()
        )
    );
}

#[test]
fn any_of_nothing_fails() {
    let mut a = node("a");
    a.dependency = any_of(vec![]);

    let res = a.solve(Path::new(vec![]));

    assert_eq!(res, Resolved::failure(Cause::empty()));
}

#[test]
fn a_group_joins_one_path_of_each_member_in_every_way() {
    // a -> (b & c), b -> (x | y)
    let x = node("x");
    let y = node("y");
    let mut b = node("b");
    b.dependency = any_of(vec![&x, &y]);
    let c = node("c");
    let mut a = node("a");
    a.dependency = all_of(vec![b.clone(), c.clone()]);

    let res = a.solve(Path::new(vec![]));

    assert_eq!(
        res,
        Resolved::new(
            vec![
                Path::new(vec![&a, &b, &x, &c]),
                Path::new(vec![&a, &b, &y, &c])
            ],
            Cause::empty()
        )
    );
}

#[test]
fn a_group_drops_the_joined_paths_that_conflict() {
    // b and c each resolve alone, but both bring a node named "d"
    let d = node("d");
    let b = requiring("b", &d);
    let c = requiring("c", &d);
    let mut a = node("a");
    a.dependency = all_of(vec![b.clone(), c.clone()]);

    let res = a.solve(Path::new(vec![]));

    assert_eq!(res, Resolved::failure(Cause::empty()));
}

#[test]
fn a_group_fails_when_a_member_fails_and_blames_whom_the_members_blame() {
    let root = node("root");
    let b = node("b");
    let again = requiring("c", &root);
    let group = AndDependency::new(vec![b.clone(), again.clone()]);

    let res = group.resolve_step(Path::new(vec![&root]));

    assert!(!res.is_success());
    assert_eq!(res.cause, Cause::from(&root));
}

#[test]
fn a_group_of_nothing_keeps_the_path() {
    let root = node("root");
    let group: AndDependency<SimpleUnique> = AndDependency::new(vec![]);

    let res = group.resolve_step(Path::new(vec![&root]));

    assert_eq!(res, Resolved::success(Path::new(vec![&root])));
}

#[test]
fn joining_outcomes_by_hand() {
    let root = node("root");
    let b = node("b");
    let c = node("c");
    let prefix = Path::new(vec![&root]);

    let first = Resolved::new(
        vec![Path::new(vec![&root, &b]), Path::new(vec![&root, &c])],
        Cause::empty(),
    );
    let second = Resolved::new(vec![Path::new(vec![&root, &c])], Cause::from(&b));
    for outcome in [&first, &second] {
        for path in outcome.paths.iter() {
            assert!(path.starts_with(&prefix));
        }
    }

    let res = AndDependency::join(prefix, vec![first, second]);

    // [root, b, c] stays; [root, c, c] holds "c" twice
    assert_eq!(res.paths, vec![Path::new(vec![&root, &b, &c])]);
    assert_eq!(res.cause, Cause::from(&b));
}

#[test]
fn added_cause_unites_the_causes() {
    let a = node("a");
    let b = node("b");

    let outcomes = vec![
        Resolved::failure(Cause::from(&a)),
        Resolved::success(Path::new(vec![&b])),
        Resolved::failure(Cause::from(&b).add(&a)),
    ];

    assert_eq!(
        AndDependency::added_cause(&outcomes),
        Cause::new(vec![&a, &b])
    );
    assert_eq!(
        AndDependency::<SimpleUnique>::added_cause(&vec![]),
        Cause::empty()
    );
}

#[test]
fn megapath_puts_the_suffixes_after_the_prefix() {
    let a = node("a");
    let b = node("b");
    let c = node("c");
    let d = node("d");

    let prefix = Path::new(vec![&a]);
    let paths = vec![
        Path::new(vec![&a, &b, &c]),
        Path::new(vec![&a]),
        Path::new(vec![&a, &d]),
    ];

    assert_eq!(
        AndDependency::megapath(prefix, paths),
        Path::new(vec![&a, &b, &c, &d])
    );
    assert_eq!(
        AndDependency::megapath(Path::new(vec![&a]), vec![]),
        Path::new(vec![&a])
    );
}

#[test]
fn alternatives_of_groups() {
    // a -> (b & c) | d
    let b = node("b");
    let c = node("c");
    let d = node("d");
    let or = OrDependency::new(vec![
        AndDependency::new(vec![b.clone(), c.clone()]),
        AndDependency::single(d.clone()),
    ]);
    let a = node("a");

    let res = or.resolve_step(Path::new(vec![&a]));

    assert_eq!(
        res.paths,
        vec![Path::new(vec![&a, &b, &c]), Path::new(vec![&a, &d])]
    );

    let none: OrDependency<SimpleUnique> = OrDependency::new(vec![]);
    assert_eq!(
        none.resolve_step(Path::new(vec![&a])),
        Resolved::failure(Cause::empty())
    );
}

#[test]
fn requirements_resolve_as_their_kind_does() {
    let a = node("a");
    let b = node("b");
    let start = Path::new(vec![&a]);

    let simple = Resolvable::Simple(Simple::new(&b));
    assert_eq!(simple.resolve(start.clone()), b.solve(start.clone()));

    let any = Any::new(vec![&b, &a]);
    assert_eq!(
        Resolvable::Any(any.clone()).resolve(start.clone()),
        any.resolve(start.clone())
    );
    assert_eq!(
        any.resolve(start.clone()),
        Resolved::new(vec![Path::new(vec![&a, &b])], Cause::from(&a))
    );

    let or_and = OrAnd::new(OrDependency::single(AndDependency::single(b.clone())));
    assert_eq!(
        Resolvable::OrAnd(or_and.clone()).resolve(start.clone()),
        or_and.resolve(start.clone())
    );
    assert_eq!(
        or_and.resolve(start.clone()),
        Resolved::success(Path::new(vec![&a, &b]))
    );
}

#[test]
fn selections_of_an_empty_source_are_none() {
    let none: Vec<Vec<u8>> = vec![];
    assert_eq!(selections(vec![vec![1u8, 2], vec![]]), none);
    assert_eq!(selections(vec![vec![], vec![1u8, 2]]), none);
}

#[test]
fn selections_are_as_many_as_the_product_of_the_lengths() {
    let sources = vec![vec![1, 2, 3], vec![4, 5], vec![6, 7]];
    let all = selections(sources.clone());

    assert_eq!(all.len(), 12);
    assert_eq!(all[0], vec![1, 4, 6]);
    assert_eq!(all[1], vec![1, 4, 7]);
    assert_eq!(all[2], vec![1, 5, 6]);
    assert_eq!(all[11], vec![3, 5, 7]);
    for (k, one) in all.iter().enumerate() {
        assert_eq!(one.len(), sources.len());
        for (j, item) in one.iter().enumerate() {
            assert!(sources[j].contains(item));
        }
        for other in all[k + 1..].iter() {
            assert_ne!(one, other);
        }
    }
}

#[test]
fn selections_from_a_later_source_on() {
    let sources = vec![vec![1, 2], vec![3, 4], vec![5]];

    assert_eq!(
        selections_from(&sources, 1),
        vec![vec![&3, &5], vec![&4, &5]]
    );
    let no_choice: Vec<Vec<&i32>> = vec![vec![]];
    assert_eq!(selections_from(&sources, 3), no_choice);
}

#[test]
fn selections_clone_what_they_choose() {
    let sources = vec![
        vec![String::from("a"), String::from("b")],
        vec![String::from("c")],
    ];

    assert_eq!(
        selections(sources),
        vec![
            vec![String::from("a"), String::from("c")],
            vec![String::from("b"), String::from("c")]
        ]
    );
}

#[test]
fn a_search_from_nothing_blames_nobody() {
    // a -> (b & c), b -> a, c -> (a | c)
    let a = node("a");
    let b = requiring("b", &a);
    let mut c = node("c");
    c.dependency = any_of(vec![&a, &c]);
    let mut root = node("a");
    root.dependency = all_of(vec![b.clone(), c.clone()]);

    let res = root.solve(Path::new(vec![]));

    assert_eq!(res, Resolved::failure(Cause::empty()));
}

#[test]
fn blame_falls_on_nodes_of_the_path_that_the_search_started_from() {
    let x = node("x");
    let y = node("y");
    let again_x = requiring("b", &x);
    let again_y = requiring("c", &y);
    let mut a = node("a");
    a.dependency = any_of(vec![&again_x, &again_y, &x]);

    let res = a.solve(Path::new(vec![&x, &y]));

    assert!(!res.is_success());
    assert_eq!(res.cause, Cause::new(vec![&x, &y]));
    for blamed in res.cause.nodes().iter() {
        assert!(blamed.same(&x) || blamed.same(&y));
    }
}
