use rosol::node::cause::Cause;
use rosol::node::resolvable::{AndDependency, Any, OrAnd, OrDependency, Resolvable, Simple};
use rosol::node::resolved::Resolved;
use rosol::node::Node;
use rosol::package::ident::SimpleUnique;
use rosol::path::Path;

type N = Node<SimpleUnique>;

fn leaf(of: &N) -> Option<Resolvable<SimpleUnique>> {
    Some(Resolvable::Simple(Simple::new(of)))
}

fn named(ids: Vec<&'static str>) -> Vec<N> {
    ids.iter()
        .map(|id| SimpleUnique { id })
        .map(|id| Node { id, dependency: None })
        .collect()
}

#[test]
fn single_node() {
    let id = SimpleUnique { id: "id1" };

    let s: N = Node {
        id: id.clone(),
        dependency: None,
    };

    let res = s.solve(Path::new(vec![]));

    let expected = Resolved::new(vec![Path::new(vec![&s])], Cause::empty());

    assert_eq!(res, expected);
}

#[test]
fn duplicate() {
    let id = SimpleUnique { id: "id1" };

    let s: N = Node {
        id: id.clone(),
        dependency: None,
    };

    let path = Path::new(vec![&s]);
    let res = s.solve(path);

    let expected = Resolved::failure(Cause::from(&s));

    assert_eq!(res, expected);
}

#[test]
fn circular() {
    let id = SimpleUnique { id: "id1" };

    let mut circular: N = Node {
        id: id.clone(),
        dependency: None,
    };

    let dep = Simple::new(&circular);
    circular.dependency = Some(Resolvable::Simple(dep));

    let path = Path::new(vec![]);
    let res = circular.solve(path);

    let expected = Resolved::failure(Cause::empty());

    assert_eq!(res, expected);
}

#[test]
fn recursive() {
    // c -> b -> a => c -> b -> a
    let nodes = named(vec!["a", "b", "c"]);

    let (a, mut b, mut c) = (nodes[0].clone(), nodes[1].clone(), nodes[2].clone());

    b.dependency = leaf(&a);
    c.dependency = leaf(&b);

    let path = Path::new(vec![]);
    let res = c.solve(path);

    let expected = Resolved::new(vec![Path::new(vec![&c, &b, &a])], Cause::empty());

    assert_eq!(res, expected);
}

#[test]
fn with_any() {
    // a -> (b | c -> a) => a -> b
    let nodes = named(vec!["a", "b", "c"]);

    let (mut a, b, mut c) = (nodes[0].clone(), nodes[1].clone(), nodes[2].clone());

    // `c` requires `a` as it is here, before `a` requires anything.
    c.dependency = Some(Resolvable::Any(Any::new(vec![&a])));

    a.dependency = Some(Resolvable::Any(Any::new(vec![&b, &c])));

    let path = Path::new(vec![]);
    let res = a.solve(path);

    let expected = Resolved::new(vec![Path::new(vec![&a, &b])], Cause::empty());

    assert_eq!(res, expected);
}

#[test]
fn with_orand() {
    // a -> (b | c -> d) => a -> c -> d
    let nodes = named(vec!["a", "b", "c", "d"]);

    let (mut a, mut b, mut c, d) = (
        nodes[0].clone(),
        nodes[1].clone(),
        nodes[2].clone(),
        nodes[3].clone(),
    );

    // Set the dependencies starting from the bottom
    // d -> None

    // c -> d
    c.dependency = Some(Resolvable::OrAnd(OrAnd::new(OrDependency::single(
        AndDependency::single(d.clone()),
    ))));

    // b -> c & d
    b.dependency = Some(Resolvable::OrAnd(OrAnd::new(OrDependency::single(
        AndDependency::new(vec![c.clone(), d.clone()]),
    ))));

    // a -> b | c
    a.dependency = Some(Resolvable::OrAnd(OrAnd::new(OrDependency::new(vec![
        AndDependency::single(b.clone()),
        AndDependency::single(c.clone()),
    ]))));

    let path = Path::new(vec![]);
    let res = a.solve(path);

    let expected = Resolved::new(vec![Path::new(vec![&a, &c, &d])], Cause::empty());

    assert_eq!(res, expected);
}

#[test]
fn resolves() {
    let id = SimpleUnique { id: "id1" };

    let s: N = Node {
        id: id.clone(),
        dependency: None,
    };

    let res = s.solve(Path::new(vec![]));

    let expected = Resolved::new(vec![Path::new(vec![&s])], Cause::empty());

    assert_eq!(res, expected);
}

#[test]
fn resolves_into_empty_when_duplicated() {
    let id = SimpleUnique { id: "id1" };

    let s: N = Node {
        id: id.clone(),
        dependency: None,
    };

    let path = Path::new(vec![&s]);
    let res = s.solve(path);

    let expected = Resolved::failure(Cause::from(&s));

    assert_eq!(res, expected);
}

#[test]
fn resolves_with_dependencies() {
    let id_a = SimpleUnique { id: "a" };
    let id_b = SimpleUnique { id: "b" };

    let a: N = Node {
        id: id_a.clone(),
        dependency: None,
    };

    let b: N = Node {
        id: id_b.clone(),
        dependency: leaf(&a),
    };

    let path = Path::new(vec![]);
    let res = b.solve(path);

    let expected = Resolved::new(vec![Path::new(vec![&b, &a])], Cause::empty());

    assert_eq!(res, expected);
}

#[test]
fn cleans_internal_causes() {
    let id = SimpleUnique { id: "id1" };

    let mut circular: N = Node {
        id: id.clone(),
        dependency: None,
    };
    circular.dependency = leaf(&circular);

    let path = Path::new(vec![]);
    let res = circular.solve(path);

    let expected = Resolved::failure(Cause::empty());

    assert_eq!(res, expected);
}
