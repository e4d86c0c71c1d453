use rosol::node::cause::Cause;
use rosol::node::resolved::Resolved;
use rosol::node::Node;
use rosol::package::ident::{Ident, SimpleUnique};
use rosol::path::Path;

type N = Node<SimpleUnique>;

fn node(id: &'static str) -> N {
    Node {
        id: SimpleUnique { id },
        dependency: None,
    }
}

#[test]
fn identities_compare_by_name() {
    let a = SimpleUnique::new("a");
    let also_a = SimpleUnique {
        id: "a",
    };
    let b = SimpleUnique::new("b");

    assert_eq!(a.id, "a");
    assert!(a == also_a);
    assert!(a != b);
    assert_eq!(a.clone(), a);
}

#[test]
fn no_conflict_among_few() {
    let a = SimpleUnique::new("a");

    assert!(!SimpleUnique::are_conflicting(&vec![]));
    assert!(!SimpleUnique::are_conflicting(&vec![a.clone()]));
    assert!(SimpleUnique::are_conflicting(&vec![a.clone(), a.clone()]));
}

#[test]
fn path_of_nodes() {
    let a = node("a");
    let b = node("b");

    let path = Path::new(vec![&a, &b]);

    assert_eq!(path.nodes.len(), 2);
    assert!(path.nodes[0] == &a);
    assert!(path.nodes[1] == &b);
    assert_eq!(path.clone(), path);
    assert!(path != Path::new(vec![&b, &a]));
    assert!(path != Path::new(vec![&a]));
}

#[test]
fn chain_of_nothing_is_the_empty_path() {
    let a = node("a");
    let empty: Path<SimpleUnique> = Path::new(vec![]);

    assert_eq!(Path::<SimpleUnique>::chain(vec![]), empty);
    assert_eq!(
        Path::chain(vec![Path::new(vec![]), Path::new(vec![&a]), Path::new(vec![])]),
        Path::new(vec![&a])
    );
}

#[test]
fn suffix_after_the_whole_path_is_empty() {
    let a = node("a");
    let b = node("b");
    let path = Path::new(vec![&a, &b]);

    assert_eq!(path.suffix(&path), Path::new(vec![]));
    assert_eq!(path.suffix(&Path::new(vec![])), path);
}

#[test]
fn starts_with_compares_position_by_position() {
    let a = node("a");
    let b = node("b");
    let path = Path::new(vec![&a, &b]);

    assert!(path.starts_with(&Path::new(vec![])));
    assert!(path.starts_with(&Path::new(vec![&a])));
    assert!(path.starts_with(&path));
    assert!(!path.starts_with(&Path::new(vec![&b])));
    assert!(!path.starts_with(&Path::new(vec![&a, &b, &a])));
}

#[test]
fn unique_counts_equal_nodes_not_places() {
    let a = node("a");
    let also_a = node("a");
    let b = node("b");

    let path = Path::new(vec![&a, &b]);
    assert!(path.unique(&also_a));
    assert!(!path.unique(&node("c")));
    assert!(!path.append(&also_a).unique(&a));
}

#[test]
fn a_cause_holds_each_node_once() {
    let a = node("a");
    let also_a = node("a");
    let b = node("b");

    let cause = Cause::new(vec![&a, &b, &also_a, &a]);

    assert_eq!(cause.nodes().len(), 2);
    assert!(cause.has(&a));
    assert!(cause.has(&b));
    assert!(!cause.has(&node("c")));
    assert_eq!(cause, Cause::new(vec![&b, &a]));
    assert_eq!(cause.clone().add(&a).nodes().len(), 2);
}

#[test]
fn from_blames_one_node() {
    let a = node("a");

    let cause = Cause::from(&a);

    assert_eq!(cause.nodes().len(), 1);
    assert!(cause.has(&a));
    assert_eq!(cause, Cause::empty().add(&a));
    assert!(cause != Cause::empty());
}

#[test]
fn merging_causes_unites_them() {
    let a = node("a");
    let b = node("b");
    let c = node("c");

    let left = Cause::new(vec![&a, &b]);
    let right = Cause::new(vec![&b, &c]);

    assert_eq!(left.merge(right), Cause::new(vec![&a, &b, &c]));
    assert_eq!(Cause::from(&a).merge(Cause::empty()), Cause::from(&a));
    assert_eq!(Cause::empty().merge(Cause::from(&a)), Cause::from(&a));
}

#[test]
fn within_is_the_subset_order() {
    let a = node("a");
    let b = node("b");

    let small = Cause::from(&a);
    let large = Cause::new(vec![&b, &a]);

    assert!(small.within(&large));
    assert!(!large.within(&small));
    assert!(Cause::<SimpleUnique>::empty().within(&small));
    assert!(large.within(&large));
}

#[test]
fn outcomes_by_their_parts() {
    let a = node("a");

    let won = Resolved::success(Path::new(vec![&a]));
    assert!(won.is_success());
    assert_eq!(won.paths, vec![Path::new(vec![&a])]);
    assert_eq!(won.cause, Cause::empty());
    assert_eq!(won, Resolved::new(vec![Path::new(vec![&a])], Cause::empty()));

    let lost = Resolved::failure(Cause::from(&a));
    assert!(!lost.is_success());
    assert_eq!(lost.paths.len(), 0);
    assert_eq!(lost.cause, Cause::from(&a));
    assert_eq!(lost, Resolved::new(vec![], Cause::from(&a)));

    assert!(won != lost);
    assert!(lost != Resolved::failure(Cause::empty()));
}
