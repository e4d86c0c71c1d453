use rosol::package::ident::{Ident, SimpleUnique};

#[test]
fn it_works() {
    assert_eq!(2 + 2, 4);
}

#[test]
fn tests_conflicts() {
    let a = SimpleUnique::new("A");
    let b = SimpleUnique::new("B");

    assert!(!SimpleUnique::are_conflicting(&vec![a.clone(), b.clone()]));
    assert!(SimpleUnique::are_conflicting(&vec![
        a.clone(),
        b.clone(),
        a.clone()
    ]));
}
