use rosol::node::cause::Cause;
use rosol::node::Node;
use rosol::package::ident::SimpleUnique;

type N = Node<SimpleUnique>;

fn node(id: &'static str) -> N {
    Node {
        id: SimpleUnique { id },
        dependency: None,
    }
}

#[test]
fn adds() {
    let a = node("a");
    let b = node("b");

    let mut nodes = Vec::new();

    nodes.push(&a);
    let cause_a = Cause::new(nodes.clone());

    nodes.push(&b);
    let cause_ab = Cause::new(nodes.clone());

    assert_eq!(cause_a.clone().add(&a), cause_a);

    assert_eq!(cause_a.clone().add(&b), cause_ab);
}

#[test]
fn infers_above() {
    let a = node("a");
    let b = node("b");

    let mut nodes = Vec::new();

    let cause_empty = Cause::new(nodes.clone());

    nodes.push(&a);
    let cause_a = Cause::new(nodes.clone());

    nodes.push(&b);
    let cause_ab = Cause::new(nodes.clone());

    assert_eq!(cause_a.clone().above(&a), cause_empty);

    assert_eq!(cause_ab.clone().above(&b), cause_a);
}
