use lichen::checker::ApplyEdge;
use lichen::diag::DiagKind;
use lichen::home::LichenHome;
use lichen::ir::ExprId;

#[test]
fn the_cache_root_is_the_home() {
    let home = LichenHome::new("/home/me/.lichen".to_string());
    assert_eq!(home.cache_root(), "/home/me/.lichen");
}

#[test]
fn an_apply_edge_names_both_expressions() {
    let edge = ApplyEdge { argument_expr: ExprId(4), apply_expr: ExprId(2) };
    let copy = edge;
    assert_eq!(copy.argument_expr.0, 4);
    assert_eq!(copy.apply_expr.0, 2);
    assert_ne!(DiagKind::Annotation, DiagKind::Kinding);
    assert_eq!(lichen::diagnostic::DiagKind::TableMiss, lichen::diagnostic::DiagKind::TableMiss);
}
