use lichen::ast::{Binding, Expr, RecordField, Stmt};
use lichen::lsp::{SemanticTokenModifier, SemanticTokenType};
use lichen::names::{class_at, classify_names, index, log_lookup};

fn name(n: &str, line: u32, col: u32) -> Expr {
    Expr::Name(n.to_string(), (line, col))
}

fn lambda(p: &str, span: (u32, u32), body: Expr) -> Expr {
    Expr::Lambda {
        parameter: p.to_string(),
        parameter_span: span,
        parameter_type: None,
        parameter_perspective: None,
        result: Box::new(body),
        span,
    }
}

fn binding(n: &str, span: (u32, u32), value: Expr, restrictive: bool) -> Stmt {
    Stmt::Binding(Binding { name: n.to_string(), span, value, restrictive })
}

#[test]
fn classify_names_marks_declarations_parameters_and_calls() {
    // f = x => x;  f 1
    let stmts = vec![binding("f", (1, 1), lambda("x", (1, 5), name("x", 1, 10)), false)];
    let tail = Expr::Apply {
        function: Box::new(name("f", 2, 1)),
        argument: Box::new(Expr::Int(1, (2, 3))),
        span: (2, 1),
    };
    let classes = classify_names(&stmts, &tail);
    let got: Vec<_> = classes
        .iter()
        .map(|c| (c.span, c.token_type, c.modifiers.clone()))
        .collect();
    assert_eq!(
        got,
        vec![
            ((1, 1), SemanticTokenType::VARIABLE, vec![SemanticTokenModifier::DECLARATION]),
            ((1, 5), SemanticTokenType::PARAMETER, vec![SemanticTokenModifier::DECLARATION]),
            ((2, 1), SemanticTokenType::FUNCTION, vec![]),
        ]
    );
    assert_eq!(class_at(&classes, (2, 1)), Some(2));
    assert_eq!(class_at(&classes, (9, 9)), None);
}

#[test]
fn a_later_classification_of_a_span_wins() {
    // g g: the inner `g` is both a function (in `g g`'s head) and a plain use.
    let tail = Expr::Apply {
        function: Box::new(name("g", 1, 1)),
        argument: Box::new(Expr::Apply {
            function: Box::new(name("g", 1, 1)),
            argument: Box::new(Expr::Int(0, (1, 5))),
            span: (1, 3),
        }),
        span: (1, 1),
    };
    let classes = classify_names(&vec![], &tail);
    assert_eq!(classes.len(), 2);
    assert_eq!(class_at(&classes, (1, 1)), Some(1));
}

#[test]
fn index_resolves_uses_to_their_bindings() {
    // a = 1; b = a; b
    let stmts = vec![
        binding("a", (1, 1), Expr::Int(1, (1, 5)), false),
        binding("b", (2, 1), name("a", 2, 5), false),
    ];
    let (defs, resolve, def_index) = index(&stmts, &name("b", 3, 1), &vec![]);
    let names: Vec<_> = defs.iter().map(|d| (d.name.clone(), d.span)).collect();
    assert_eq!(names, vec![("a".to_string(), (1, 1)), ("b".to_string(), (2, 1))]);
    assert_eq!(log_lookup(&resolve, (2, 5)), Some(0));
    assert_eq!(log_lookup(&resolve, (3, 1)), Some(1));
    assert_eq!(log_lookup(&def_index, (2, 1)), Some(1));
    assert_eq!(log_lookup(&resolve, (7, 7)), None);
}

#[test]
fn block_wide_bindings_see_forward_but_let_does_not() {
    // a = b; b = 1; let c = c; c
    let stmts = vec![
        binding("a", (1, 1), name("b", 1, 5), false),
        binding("b", (2, 1), Expr::Int(1, (2, 5)), false),
        binding("c", (3, 5), name("c", 3, 9), true),
    ];
    let (defs, resolve, _) = index(&stmts, &name("c", 4, 1), &vec![]);
    assert_eq!(defs.len(), 3);
    // `b` is used before its statement, and still resolves.
    assert_eq!(log_lookup(&resolve, (1, 5)), Some(1));
    // `let c = c`: the value's `c` is not yet in scope.
    assert_eq!(log_lookup(&resolve, (3, 9)), None);
    // The later use sees it.
    assert_eq!(log_lookup(&resolve, (4, 1)), Some(2));
}

#[test]
fn lambda_parameters_scope_over_their_body_only() {
    // id = x => x; x
    let stmts = vec![binding("id", (1, 1), lambda("x", (1, 6), name("x", 1, 11)), false)];
    let (defs, resolve, _) = index(&stmts, &name("x", 2, 1), &vec![]);
    assert_eq!(defs[1].name, "x");
    assert_eq!(log_lookup(&resolve, (1, 11)), Some(1));
    assert_eq!(log_lookup(&resolve, (2, 1)), None);
}

#[test]
fn imports_resolve_and_locals_shadow_them() {
    // (import math) math; math = 2; math
    let imports = vec![("math".to_string(), (1, 1)), ("io".to_string(), (2, 1))];
    let (defs, resolve, _) = index(&vec![], &name("io", 3, 1), &imports);
    assert_eq!(defs.len(), 2);
    assert_eq!(log_lookup(&resolve, (3, 1)), Some(1));
    let stmts = vec![binding("math", (3, 1), Expr::Int(2, (3, 8)), false)];
    let (defs, resolve, _) = index(&stmts, &name("math", 4, 1), &imports);
    assert_eq!(defs.len(), 3);
    assert_eq!(log_lookup(&resolve, (4, 1)), Some(2));
}

#[test]
fn record_blocks_scope_their_fields() {
    // { succ = n => n; let k = 1; succ k }
    let block = Expr::RecordBlock {
        fields: vec![
            RecordField {
                name: Some("succ".to_string()),
                value: lambda("n", (1, 10), name("n", 1, 15)),
                public: false,
                field: true,
                span: (1, 3),
            },
            RecordField {
                name: Some("k".to_string()),
                value: Expr::Int(1, (1, 25)),
                public: false,
                field: false,
                span: (1, 21),
            },
            RecordField {
                name: None,
                value: Expr::Apply {
                    function: Box::new(name("succ", 1, 28)),
                    argument: Box::new(name("k", 1, 33)),
                    span: (1, 28),
                },
                public: false,
                field: true,
                span: (1, 28),
            },
        ],
        span: (1, 1),
    };
    let (defs, resolve, def_index) = index(&vec![], &block, &vec![]);
    let names: Vec<_> = defs.iter().map(|d| d.name.clone()).collect();
    assert_eq!(names, vec!["succ", "n", "k"]);
    assert_eq!(log_lookup(&resolve, (1, 28)), Some(0));
    assert_eq!(log_lookup(&resolve, (1, 33)), Some(2));
    assert_eq!(log_lookup(&def_index, (1, 3)), Some(0));
    // Outside the block nothing resolves.
    let (_, resolve, _) = index(&vec![], &name("succ", 9, 1), &vec![]);
    assert_eq!(log_lookup(&resolve, (9, 1)), None);
}
