use live_crab::ast::{Expr, Operator};

#[test]
fn test_id_iterator() {
    let got_exp = Box::new(Expr::BinOp(
        Box::new(Expr::Id("a".to_string())),
        Operator::Plus,
        Box::new(Expr::BinOp(
            Box::new(Expr::Id("b".to_string())),
            Operator::Plus,
            Box::new(Expr::Id("c".to_string())),
        )),
    ));

    let mut got_it = got_exp.iter();
    assert_eq!(got_it.next(), Some(String::from("a")));
    assert_eq!(got_it.next(), Some(String::from("b")));
    assert_eq!(got_it.next(), Some(String::from("c")));
    assert_eq!(got_it.next(), None);
}

#[test]
fn id_iterator_skips_literals() {
    let e = Box::new(Expr::BinOp(
        Box::new(Expr::Int(1)),
        Operator::Plus,
        Box::new(Expr::Id("x".to_string())),
    ));
    let mut it = e.iter();
    assert_eq!(it.next(), Some(String::from("x")));
    assert_eq!(it.next(), None);
}

#[test]
fn id_iterator_literal_only() {
    let e = Box::new(Expr::Int(7));
    let mut it = e.iter();
    assert_eq!(it.next(), None);
}
