use lichen::ast::{BinOp, Binding, Expr, Stmt, TypeConst};

#[test]
fn an_expression_starts_at_its_span() {
    let e = Expr::BinOp {
        operator: BinOp::Add,
        left: Box::new(Expr::Int(1, (1, 1))),
        right: Box::new(Expr::TypeConst(TypeConst::Int, (1, 5))),
        span: (1, 1),
    };
    assert_eq!(e.span(), (1, 1));
    assert_eq!(Expr::Name("x".to_string(), (2, 4)).span(), (2, 4));
    assert_eq!(Expr::Error { range: (3, 9), start: (4, 2) }.span(), (4, 2));
    assert_eq!(Expr::Tuple(vec![], (7, 7)).span(), (7, 7));
}

#[test]
fn a_binding_starts_at_its_name() {
    let b = Stmt::Binding(Binding {
        name: "a".to_string(),
        span: (3, 1),
        value: Expr::Int(5, (3, 5)),
        restrictive: false,
    });
    assert_eq!(b.span(), (3, 1));
    assert_eq!(Stmt::Expr(Expr::Placeholder((9, 9))).span(), (9, 9));
}
