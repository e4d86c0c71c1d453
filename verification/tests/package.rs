use rosol::package::dependency::Dependency;
use rosol::package::ident::SimpleUnique;
use rosol::package::package::{SimplePackage, Package};
use rosol::package::rawnode::{RawGraph, RawNode};
use rosol::package::repository::Repository;
use std::cell::RefCell;
use std::rc::Rc;

type MockPackage = SimplePackage<SimpleUnique>;

fn choices(of: Vec<Vec<SimpleUnique>>) -> Vec<Dependency<SimpleUnique>> {
    of.into_iter().map(Dependency::Choice).collect()
}

/// A node that shares the nodes it depends on.
#[derive(Debug, Eq, PartialEq)]
struct Linked {
    id: SimpleUnique,
    deps: Vec<Rc<RefCell<Linked>>>,
}

fn linked(id: SimpleUnique) -> Rc<RefCell<Linked>> {
    Rc::new(RefCell::new(Linked {
        id,
        deps: Vec::new(),
    }))
}

/// The graph as shared nodes; gives its root.
fn link(graph: &RawGraph<SimpleUnique>) -> Rc<RefCell<Linked>> {
    let nodes: Vec<_> = graph.nodes.iter().map(|n| linked(n.id.clone())).collect();
    for (node, raw) in nodes.iter().zip(graph.nodes.iter()) {
        for dep in raw.deps.iter() {
            node.borrow_mut().deps.push(nodes[*dep].clone());
        }
    }
    nodes[graph.root].clone()
}

#[test]
fn adds_transitive_dependency() {
    let mut nodes: Vec<RawNode<SimpleUnique>> = vec!["a", "b", "c"]
        .iter()
        .map(|id| RawNode::new(SimpleUnique::new(id)))
        .collect();

    let (a, b, c) = (0, 1, 2);

    nodes[a].add_dependency(b);
    nodes[b].add_dependency(c);

    let a_deps: Vec<usize> = nodes[a]
        .deps
        .iter()
        .flat_map(|n| {
            let mut ans = nodes[*n].deps.clone();
            ans.push(*n);
            ans
        })
        .collect();

    assert!(a_deps.contains(&c));
}

#[test]
fn finds_dependency_matches() {
    let ids: Vec<_> = vec!["a", "b", "c", "d"]
        .iter()
        .map(|id| SimpleUnique { id })
        .collect();

    let repo_ids = ids[..3].to_vec();
    let dep_ids = ids[2..].to_vec();
    let overlapping = ids[2..3].to_vec();

    let dep = Dependency::Choice(dep_ids);

    let repo_pkgs: Vec<_> = repo_ids
        .into_iter()
        .map(|id| MockPackage {
            id,
            dependencies: vec![],
        })
        .collect();

    let overlapping_pkgs: Vec<_> = overlapping
        .into_iter()
        .map(|id| MockPackage {
            id,
            dependencies: vec![],
        })
        .collect();

    let repo = Repository::new(repo_pkgs);

    assert_eq!(
        repo.dependency_matches(&dep),
        overlapping_pkgs.iter().collect::<Vec<_>>()
    );
}

#[test]
fn builds_graph() {
    let ids: Vec<_> = vec!["a", "b", "c"]
        .iter()
        .map(|id| SimpleUnique { id })
        .collect();

    let (a, b, c) = (ids[0].clone(), ids[1].clone(), ids[2].clone());
    let root = a.clone();

    let a_ = MockPackage {
        id: a.clone(),
        dependencies: choices(vec![vec![b.clone()], vec![c.clone()]]),
    };

    let b_ = MockPackage {
        id: b.clone(),
        dependencies: choices(vec![vec![c.clone()]]),
    };

    let c_ = MockPackage {
        id: c.clone(),
        dependencies: vec![],
    };

    let raws: Vec<_> = ids.iter().map(|id| linked(id.clone())).collect();

    let (a_r, b_r, c_r) = (raws[0].clone(), raws[1].clone(), raws[2].clone());
    a_r.borrow_mut().deps.push(b_r.clone());
    a_r.borrow_mut().deps.push(c_r.clone());
    b_r.borrow_mut().deps.push(c_r.clone());

    let repo = Repository::new(vec![a_, b_, c_]);
    assert!(repo.get(&root).is_some());
    let root_node = link(&repo.build_graph(&root));

    assert_eq!(root_node, a_r);
}

fn package(id: &'static str, dependencies: Vec<Vec<&'static str>>) -> MockPackage {
    SimplePackage::new(
        SimpleUnique::new(id),
        choices(
            dependencies
                .into_iter()
                .map(|ids| ids.into_iter().map(SimpleUnique::new).collect())
                .collect(),
        ),
    )
}

fn names(graph: &RawGraph<SimpleUnique>) -> Vec<(&'static str, Vec<&'static str>)> {
    let mut all: Vec<_> = graph
        .nodes
        .iter()
        .map(|n| (n.id.id, n.deps.iter().map(|d| graph.nodes[*d].id.id).collect()))
        .collect();
    all.sort();
    all
}

#[test]
fn a_dependency_gives_its_identities() {
    let dep = Dependency::Choice(vec![SimpleUnique::new("a"), SimpleUnique::new("b")]);

    assert_eq!(
        dep.ids(),
        vec![SimpleUnique::new("a"), SimpleUnique::new("b")]
    );
    assert_eq!(dep.clone(), dep);
    assert!(dep != Dependency::Choice(vec![SimpleUnique::new("b"), SimpleUnique::new("a")]));
    assert!(dep != Dependency::Choice(vec![SimpleUnique::new("a")]));
}

#[test]
fn a_simple_package_is_a_package() {
    let p = package("a", vec![vec!["b", "c"], vec![]]);

    assert_eq!(p.id(), SimpleUnique::new("a"));
    assert_eq!(
        p.dependencies(),
        vec![
            Dependency::Choice(vec![SimpleUnique::new("b"), SimpleUnique::new("c")]),
            Dependency::Choice(vec![])
        ]
    );
    assert_eq!(p.clone(), p);
    assert!(p != package("a", vec![vec!["b", "c"]]));
    assert!(p != package("b", vec![vec!["b", "c"], vec![]]));
}

#[test]
fn a_raw_node_keeps_its_dependencies_in_order() {
    let mut node = RawNode::new(SimpleUnique::new("a"));
    assert_eq!(node.id, SimpleUnique::new("a"));
    assert_eq!(node.deps, Vec::<usize>::new());

    node.add_dependency(2);
    node.add_dependency(0);
    node.add_dependency(2);

    assert_eq!(node.id, SimpleUnique::new("a"));
    assert_eq!(node.deps, vec![2, 0, 2]);
}

#[test]
fn the_later_package_of_a_key_stays() {
    let repo = Repository::new(vec![
        package("a", vec![vec!["b"]]),
        package("b", vec![]),
        package("a", vec![]),
    ]);

    assert_eq!(
        repo.get(&SimpleUnique::new("a")),
        Some(&package("a", vec![]))
    );
    assert_eq!(
        repo.get(&SimpleUnique::new("b")),
        Some(&package("b", vec![]))
    );
    assert_eq!(repo.get(&SimpleUnique::new("c")), None);
}

#[test]
fn add_puts_or_replaces() {
    let mut repo = Repository::new(vec![package("a", vec![])]);

    repo.add(package("b", vec![vec!["a"]]));
    assert_eq!(
        repo.get(&SimpleUnique::new("b")),
        Some(&package("b", vec![vec!["a"]]))
    );
    assert_eq!(
        repo.get(&SimpleUnique::new("a")),
        Some(&package("a", vec![]))
    );

    repo.add(package("a", vec![vec!["b"]]));
    assert_eq!(
        repo.get(&SimpleUnique::new("a")),
        Some(&package("a", vec![vec!["b"]]))
    );
    assert_eq!(
        repo.get(&SimpleUnique::new("b")),
        Some(&package("b", vec![vec!["a"]]))
    );
}

#[test]
fn matches_follow_the_dependency_and_pass_over_the_unknown() {
    let repo = Repository::new(vec![
        package("a", vec![]),
        package("b", vec![]),
        package("c", vec![]),
    ]);
    let dep = Dependency::Choice(
        vec!["c", "x", "a", "c"]
            .into_iter()
            .map(SimpleUnique::new)
            .collect(),
    );

    assert_eq!(
        repo.dependency_matches(&dep),
        vec![
            &package("c", vec![]),
            &package("a", vec![]),
            &package("c", vec![])
        ]
    );
    assert_eq!(
        repo.dependency_matches(&Dependency::Choice(vec![])),
        Vec::<&MockPackage>::new()
    );
}

#[test]
fn the_graph_of_a_package_alone() {
    let repo = Repository::new(vec![package("a", vec![vec!["x"]]), package("b", vec![])]);

    let graph = repo.build_graph(&SimpleUnique::new("a"));

    assert_eq!(graph.nodes.len(), 1);
    assert_eq!(graph.root, 0);
    assert_eq!(names(&graph), vec![("a", vec![])]);
}

#[test]
fn the_graph_of_a_cycle_has_each_package_once() {
    let repo = Repository::new(vec![
        package("a", vec![vec!["b"]]),
        package("b", vec![vec!["a", "b"]]),
        package("c", vec![vec!["a"]]),
    ]);

    let graph = repo.build_graph(&SimpleUnique::new("a"));

    assert_eq!(graph.nodes[graph.root].id, SimpleUnique::new("a"));
    assert_eq!(
        names(&graph),
        vec![("a", vec!["b"]), ("b", vec!["a", "b"])]
    );
}

#[test]
fn the_graph_shares_a_node_and_keeps_every_edge() {
    // a -> b | c, then a -> c again; b -> d; c -> d
    let repo = Repository::new(vec![
        package("d", vec![]),
        package("c", vec![vec!["d"]]),
        package("b", vec![vec!["d", "missing"]]),
        package("a", vec![vec!["b", "c"], vec!["c"]]),
        package("unused", vec![vec!["a"]]),
    ]);

    let graph = repo.build_graph(&SimpleUnique::new("a"));

    assert_eq!(graph.nodes[graph.root].id, SimpleUnique::new("a"));
    assert_eq!(
        names(&graph),
        vec![
            ("a", vec!["b", "c", "c"]),
            ("b", vec!["d"]),
            ("c", vec!["d"]),
            ("d", vec![])
        ]
    );
    for node in graph.nodes.iter() {
        for dep in node.deps.iter() {
            assert!(*dep < graph.nodes.len());
        }
    }
}
