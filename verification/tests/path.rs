use rosol::node::Node;
use rosol::package::ident::SimpleUnique;
use rosol::path::Path;

type N = Node<SimpleUnique>;

fn vec_equal<T: Eq>(a: Vec<T>, b: Vec<T>) -> bool {
    (a.len() == b.len()) && a.iter().zip(b.iter()).all(|(a, b)| a == b)
}

fn node(id: &'static str) -> N {
    Node {
        id: SimpleUnique { id },
        dependency: None,
    }
}

#[test]
fn appends() {
    let path = Path::new(vec![]);

    let id_a = SimpleUnique { id: "a" };

    let a: N = Node {
        id: id_a.clone(),
        dependency: None,
    };

    let path = path.append(&a);

    assert!(vec_equal(path.nodes, vec![&a]));
}

#[test]
fn chains() {
    let a = node("a");
    let b = node("b");
    let c = node("c");

    let path_a = Path::new(vec![&a]);
    let path_bc = Path::new(vec![&b, &c]);
    let path_abc = Path::new(vec![&a, &b, &c]);

    assert_eq!(Path::chain(vec![path_a, path_bc]), path_abc);
}

#[test]
fn suffix() {
    let a = node("a");
    let b = node("b");
    let c = node("c");

    let path_a = Path::new(vec![&a]);
    let path_bc = Path::new(vec![&b, &c]);
    let path_abc = Path::new(vec![&a, &b, &c]);

    assert_eq!(path_abc.suffix(&path_a), path_bc);
}

#[test]
fn unique() {
    let a = node("a");

    let path = Path::new(vec![&a]);

    assert!(path.unique(&a));

    let path = path.append(&a);
    assert!(!path.unique(&a));
}

#[test]
fn idents() {
    let id_a = SimpleUnique { id: "a" };
    let id_b = SimpleUnique { id: "b" };

    let a: N = Node {
        id: id_a.clone(),
        dependency: None,
    };

    let b: N = Node {
        id: id_b.clone(),
        dependency: None,
    };

    let path = Path::new(vec![&a, &b]);

    assert_eq!(path.idents(), vec![id_a, id_b]);
}

#[test]
fn conflict() {
    let a = node("a");
    let b = node("b");

    let path = Path::new(vec![&a, &b]);
    assert!(!path.conflict());

    let path = path.append(&a);
    assert!(path.conflict());
}
