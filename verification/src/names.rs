//! Name classification over the AST, for semantic highlighting.
//!
//! A `Name` token alone does not say what it names: the AST tells a binding's
//! definition (a declared variable), a lambda parameter (a declared
//! parameter) and a plain name in function position (a function) apart.  The
//! walk records, in source order, one classification per such span; a later
//! record for the same span overrides an earlier one, as an insertion into a
//! map would.

use vstd::prelude::*;

use crate::ast::{Expr, RecordField, Stmt, StructField, StructInstArg};
use crate::ir::Span;
use crate::lsp::{SemanticTokenModifier, SemanticTokenType};

verus! {

/// One classification: a span, its token type and its modifiers.
pub struct NameClassEntry {
    pub span: Span,
    pub token_type: SemanticTokenType,
    pub modifiers: Vec<SemanticTokenModifier>,
}

/// The mathematical content of a classification.
pub type ClassView = (Span, SemanticTokenType, Seq<SemanticTokenModifier>);

/// The content of a classification.
pub open spec fn entry_view(e: NameClassEntry) -> ClassView {
    (e.span, e.token_type, e.modifiers@)
}

/// A declaration of the given type at `span`.
pub open spec fn declared(span: Span, t: SemanticTokenType) -> ClassView {
    (span, t, seq![SemanticTokenModifier::DECLARATION])
}

/// A plain name in function position is a function.
pub open spec fn callee_class(f: Expr) -> Seq<ClassView> {
    match f {
        Expr::Name(_, s) => seq![(s, SemanticTokenType::FUNCTION, Seq::<SemanticTokenModifier>::empty())],
        _ => Seq::empty(),
    }
}

/// The classifications an optional sub-expression records.
pub open spec fn opt_classes(e: Option<Box<Expr>>) -> Seq<ClassView>
    decreases e,
{
    match e {
        Some(x) => classes(*x),
        None => Seq::empty(),
    }
}

/// The classifications a sequence of expressions records, in order.
pub open spec fn seq_classes(es: Seq<Expr>) -> Seq<ClassView>
    decreases es,
{
    if es.len() == 0 {
        Seq::empty()
    } else {
        seq_classes(es.drop_last()) + classes(es.last())
    }
}

/// The classifications the types of struct fields record, in order.
pub open spec fn field_classes(fs: Seq<StructField>) -> Seq<ClassView>
    decreases fs,
{
    if fs.len() == 0 {
        Seq::empty()
    } else {
        field_classes(fs.drop_last()) + classes(fs.last().ty)
    }
}

/// The classifications the values of instantiation arguments record.
pub open spec fn arg_classes(fs: Seq<StructInstArg>) -> Seq<ClassView>
    decreases fs,
{
    if fs.len() == 0 {
        Seq::empty()
    } else {
        arg_classes(fs.drop_last()) + classes(fs.last().value)
    }
}

/// The classifications the keys and values of table entries record.
pub open spec fn entry_classes(es: Seq<(Expr, Expr)>) -> Seq<ClassView>
    decreases es,
{
    if es.len() == 0 {
        Seq::empty()
    } else {
        entry_classes(es.drop_last()) + classes(es.last().0) + classes(es.last().1)
    }
}

/// The classifications the values of record-block fields record.
pub open spec fn record_classes(fs: Seq<RecordField>) -> Seq<ClassView>
    decreases fs,
{
    if fs.len() == 0 {
        Seq::empty()
    } else {
        record_classes(fs.drop_last()) + classes(fs.last().value)
    }
}

/// The classifications a statement records: a binding's name is a declared
/// variable.
pub open spec fn stmt_classes(s: Stmt) -> Seq<ClassView>
    decreases s,
{
    match s {
        Stmt::Binding(b) => seq![declared(b.span, SemanticTokenType::VARIABLE)] + classes(b.value),
        Stmt::Expr(e) => classes(e),
    }
}

/// The classifications a sequence of statements records, in order.
pub open spec fn stmts_classes(ss: Seq<Stmt>) -> Seq<ClassView>
    decreases ss,
{
    if ss.len() == 0 {
        Seq::empty()
    } else {
        stmts_classes(ss.drop_last()) + stmt_classes(ss.last())
    }
}

/// The classifications an expression records, in source order: a lambda's
/// parameter is a declared parameter, a plain name applied as a function is
/// a function, and a block's bindings are declared variables.
pub open spec fn classes(e: Expr) -> Seq<ClassView>
    decreases e,
{
    match e {
        Expr::Lambda { parameter_span, parameter_type, parameter_perspective, result, .. } => seq![
            declared(parameter_span, SemanticTokenType::PARAMETER),
        ] + opt_classes(parameter_type) + opt_classes(parameter_perspective) + classes(*result),
        Expr::Apply { function, argument, .. } => callee_class(*function) + classes(*function)
            + classes(*argument),
        Expr::BinOp { left, right, .. } => classes(*left) + classes(*right),
        Expr::If { condition, then_branch, else_branch, .. } => classes(*condition) + classes(
            *then_branch,
        ) + classes(*else_branch),
        Expr::Assert { value, .. } => classes(*value),
        Expr::NativeCall { args, .. } => seq_classes(args@),
        Expr::Index { array, index, .. } => classes(*array) + classes(*index),
        Expr::FieldRead { container, key, .. } => classes(*container) + classes(*key),
        Expr::NamedFieldRead { container, .. } => classes(*container),
        Expr::TableFind { container, key, .. } => classes(*container) + classes(*key),
        Expr::Annotation { value, annotation, perspective, .. } => classes(*value) + opt_classes(
            annotation,
        ) + opt_classes(perspective),
        Expr::Arrow { parameter, result, .. } => classes(*parameter) + classes(*result),
        Expr::Tuple(elems, _) => seq_classes(elems@),
        Expr::TypeTuple(elems, _) => seq_classes(elems@),
        Expr::Array(elems, _) => seq_classes(elems@),
        Expr::StructType(fields, _) => field_classes(fields@),
        Expr::StructInst { callee, fields, .. } => classes(*callee) + arg_classes(fields@),
        Expr::Table(entries, _) => entry_classes(entries@),
        Expr::Shallow(inner, _, _) => classes(*inner),
        Expr::TypeArray { element_type, length, .. } => classes(*element_type) + classes(*length),
        Expr::Block { statements, expr, .. } => stmts_classes(statements@) + classes(*expr),
        Expr::RecordBlock { fields, .. } => record_classes(fields@),
        _ => Seq::empty(),
    }
}


/// Every classification in `a` is one in `b`.
pub open spec fn included(a: Seq<ClassView>, b: Seq<ClassView>) -> bool {
    forall|x: ClassView| a.contains(x) ==> #[trigger] b.contains(x)
}

/// The sub-expression an optional one holds, as a sequence.
pub open spec fn opt_expr(e: Option<Box<Expr>>) -> Seq<Expr> {
    match e {
        Some(x) => seq![*x],
        None => Seq::empty(),
    }
}

/// The expression a statement holds.
pub open spec fn stmt_expr(s: Stmt) -> Expr {
    match s {
        Stmt::Binding(b) => b.value,
        Stmt::Expr(e) => e,
    }
}

/// The immediate sub-expressions of `e` that hold names: a lambda's type
/// annotations and body, both sides of an application or a binary operator,
/// the condition and both branches of an `if`, every element, field type,
/// argument, table key and value, statement and record field, and so on.
pub open spec fn children(e: Expr) -> Seq<Expr> {
    match e {
        Expr::Lambda { parameter_type, parameter_perspective, result, .. } => opt_expr(parameter_type)
            + opt_expr(parameter_perspective) + seq![*result],
        Expr::Apply { function, argument, .. } => seq![*function, *argument],
        Expr::BinOp { left, right, .. } => seq![*left, *right],
        Expr::If { condition, then_branch, else_branch, .. } => seq![*condition, *then_branch, *else_branch],
        Expr::Assert { value, .. } => seq![*value],
        Expr::NativeCall { args, .. } => args@,
        Expr::Index { array, index, .. } => seq![*array, *index],
        Expr::FieldRead { container, key, .. } => seq![*container, *key],
        Expr::NamedFieldRead { container, .. } => seq![*container],
        Expr::TableFind { container, key, .. } => seq![*container, *key],
        Expr::Annotation { value, annotation, perspective, .. } => seq![*value] + opt_expr(annotation)
            + opt_expr(perspective),
        Expr::Arrow { parameter, result, .. } => seq![*parameter, *result],
        Expr::Tuple(elems, _) => elems@,
        Expr::TypeTuple(elems, _) => elems@,
        Expr::Array(elems, _) => elems@,
        Expr::StructType(fields, _) => fields@.map_values(|f: StructField| f.ty),
        Expr::StructInst { callee, fields, .. } => seq![*callee] + fields@.map_values(
            |f: StructInstArg| f.value,
        ),
        Expr::Table(entries, _) => Seq::new(
            2 * entries@.len(),
            |i: int| if i % 2 == 0 { entries@[i / 2].0 } else { entries@[i / 2].1 },
        ),
        Expr::Shallow(inner, _, _) => seq![*inner],
        Expr::TypeArray { element_type, length, .. } => seq![*element_type, *length],
        Expr::Block { statements, expr, .. } => statements@.map_values(|st: Stmt| stmt_expr(st)) + seq![
            *expr,
        ],
        Expr::RecordBlock { fields, .. } => fields@.map_values(|f: RecordField| f.value),
        _ => Seq::empty(),
    }
}

proof fn lemma_included_concat(a: Seq<ClassView>, b: Seq<ClassView>)
    ensures
        included(a, a + b),
        included(b, a + b),
{
    assert forall|x: ClassView| a.contains(x) implies #[trigger] (a + b).contains(x) by {
        let i = choose|i: int| 0 <= i < a.len() && a[i] == x;
        assert((a + b)[i] == x);
    }
    assert forall|x: ClassView| b.contains(x) implies #[trigger] (a + b).contains(x) by {
        let i = choose|i: int| 0 <= i < b.len() && b[i] == x;
        assert((a + b)[a.len() + i] == x);
    }
}

proof fn lemma_included_trans(a: Seq<ClassView>, b: Seq<ClassView>, c: Seq<ClassView>)
    requires
        included(a, b),
        included(b, c),
    ensures
        included(a, c),
{
    assert forall|x: ClassView| a.contains(x) implies #[trigger] c.contains(x) by {
        assert(b.contains(x));
    }
}

proof fn lemma_seq_classes_has(es: Seq<Expr>, i: int)
    requires
        0 <= i < es.len(),
    ensures
        included(classes(es[i]), seq_classes(es)),
    decreases es.len(),
{
    lemma_included_concat(seq_classes(es.drop_last()), classes(es.last()));
    if i < es.len() - 1 {
        lemma_seq_classes_has(es.drop_last(), i);
        lemma_included_trans(classes(es[i]), seq_classes(es.drop_last()), seq_classes(es));
    }
}

proof fn lemma_field_classes_has(fs: Seq<StructField>, i: int)
    requires
        0 <= i < fs.len(),
    ensures
        included(classes(fs[i].ty), field_classes(fs)),
    decreases fs.len(),
{
    lemma_included_concat(field_classes(fs.drop_last()), classes(fs.last().ty));
    if i < fs.len() - 1 {
        lemma_field_classes_has(fs.drop_last(), i);
        lemma_included_trans(classes(fs[i].ty), field_classes(fs.drop_last()), field_classes(fs));
    }
}

proof fn lemma_arg_classes_has(fs: Seq<StructInstArg>, i: int)
    requires
        0 <= i < fs.len(),
    ensures
        included(classes(fs[i].value), arg_classes(fs)),
    decreases fs.len(),
{
    lemma_included_concat(arg_classes(fs.drop_last()), classes(fs.last().value));
    if i < fs.len() - 1 {
        lemma_arg_classes_has(fs.drop_last(), i);
        lemma_included_trans(classes(fs[i].value), arg_classes(fs.drop_last()), arg_classes(fs));
    }
}

proof fn lemma_record_classes_has(fs: Seq<RecordField>, i: int)
    requires
        0 <= i < fs.len(),
    ensures
        included(classes(fs[i].value), record_classes(fs)),
    decreases fs.len(),
{
    lemma_included_concat(record_classes(fs.drop_last()), classes(fs.last().value));
    if i < fs.len() - 1 {
        lemma_record_classes_has(fs.drop_last(), i);
        lemma_included_trans(classes(fs[i].value), record_classes(fs.drop_last()), record_classes(fs));
    }
}

proof fn lemma_entry_classes_has(es: Seq<(Expr, Expr)>, i: int)
    requires
        0 <= i < es.len(),
    ensures
        included(classes(es[i].0), entry_classes(es)),
        included(classes(es[i].1), entry_classes(es)),
    decreases es.len(),
{
    let init = entry_classes(es.drop_last());
    let a = init + classes(es.last().0);
    lemma_included_concat(init, classes(es.last().0));
    lemma_included_concat(a, classes(es.last().1));
    if i < es.len() - 1 {
        lemma_entry_classes_has(es.drop_last(), i);
        lemma_included_trans(init, a, entry_classes(es));
        lemma_included_trans(classes(es[i].0), init, entry_classes(es));
        lemma_included_trans(classes(es[i].1), init, entry_classes(es));
    } else {
        lemma_included_trans(classes(es[i].0), a, entry_classes(es));
    }
}

proof fn lemma_stmts_classes_has(ss: Seq<Stmt>, i: int)
    requires
        0 <= i < ss.len(),
    ensures
        included(stmt_classes(ss[i]), stmts_classes(ss)),
        included(classes(stmt_expr(ss[i])), stmts_classes(ss)),
    decreases ss.len(),
{
    lemma_included_concat(stmts_classes(ss.drop_last()), stmt_classes(ss.last()));
    match ss[i] {
        Stmt::Binding(b) => {
            lemma_included_concat(seq![declared(b.span, SemanticTokenType::VARIABLE)], classes(b.value));
        },
        Stmt::Expr(x) => {
            assert(included(classes(x), stmt_classes(ss[i])));
        },
    }
    if i < ss.len() - 1 {
        lemma_stmts_classes_has(ss.drop_last(), i);
        lemma_included_trans(stmt_classes(ss[i]), stmts_classes(ss.drop_last()), stmts_classes(ss));
    }
    lemma_included_trans(classes(stmt_expr(ss[i])), stmt_classes(ss[i]), stmts_classes(ss));
}

/// Classification reaches the whole program: every classification of an
/// immediate sub-expression — both sides of an operator, the condition and
/// both branches of an `if`, a lambda's body, every element, field,
/// argument, entry, statement and record field — is one of the whole
/// expression; and the whole adds its own: a lambda's parameter is a
/// declared parameter, a plain name applied as a function is a function,
/// and each binding of a block a declared variable.  By induction, every
/// lambda parameter and every applied plain name anywhere in an expression
/// is classified.
pub proof fn law_classes_reach_everywhere(e: Expr)
    ensures
        forall|i: int|
            0 <= i < children(e).len() ==> included(classes(#[trigger] children(e)[i]), classes(e)),
        e matches Expr::Lambda { parameter_span, .. } ==> classes(e).contains(
            declared(parameter_span, SemanticTokenType::PARAMETER),
        ),
        e matches Expr::Apply { function, .. } ==> (*function matches Expr::Name(_, sp)
            ==> classes(e).contains((sp, SemanticTokenType::FUNCTION, Seq::<SemanticTokenModifier>::empty()))),
        e matches Expr::Block { statements, .. } ==> forall|j: int|
            0 <= j < statements@.len() ==> (#[trigger] statements@[j] matches Stmt::Binding(b)
                ==> classes(e).contains(declared(b.span, SemanticTokenType::VARIABLE))),
{
    match e {
        Expr::Lambda { parameter_span, parameter_type, parameter_perspective, result, .. } => {
            let d = seq![declared(parameter_span, SemanticTokenType::PARAMETER)];
            let a = d + opt_classes(parameter_type);
            let b = a + opt_classes(parameter_perspective);
            lemma_included_concat(d, opt_classes(parameter_type));
            lemma_included_concat(a, opt_classes(parameter_perspective));
            lemma_included_concat(b, classes(*result));
            lemma_included_trans(d, a, b);
            lemma_included_trans(d, b, classes(e));
            lemma_included_trans(a, b, classes(e));
            lemma_included_trans(opt_classes(parameter_type), a, classes(e));
            lemma_included_trans(opt_classes(parameter_perspective), b, classes(e));
            assert(d.contains(declared(parameter_span, SemanticTokenType::PARAMETER))) by {
                assert(d[0] == declared(parameter_span, SemanticTokenType::PARAMETER));
            }
            assert forall|i: int| 0 <= i < children(e).len() implies included(
                classes(#[trigger] children(e)[i]),
                classes(e),
            ) by {
                let o1 = opt_expr(parameter_type);
                let o2 = opt_expr(parameter_perspective);
                if i < o1.len() {
                    assert(children(e)[i] == o1[i]);
                } else if i < o1.len() + o2.len() {
                    assert(children(e)[i] == o2[i - o1.len()]);
                } else {
                    assert(children(e)[i] == *result);
                }
            }
        },
        Expr::Apply { function, argument, .. } => {
            let a = callee_class(*function) + classes(*function);
            lemma_included_concat(callee_class(*function), classes(*function));
            lemma_included_concat(a, classes(*argument));
            lemma_included_trans(classes(*function), a, classes(e));
            lemma_included_trans(callee_class(*function), a, classes(e));
            if let Expr::Name(_, sp) = *function {
                assert(callee_class(*function)[0] == (sp, SemanticTokenType::FUNCTION, Seq::<SemanticTokenModifier>::empty()));
            }
        },
        Expr::BinOp { left, right, .. } => {
            lemma_included_concat(classes(*left), classes(*right));
        },
        Expr::If { condition, then_branch, else_branch, .. } => {
            let a = classes(*condition) + classes(*then_branch);
            lemma_included_concat(classes(*condition), classes(*then_branch));
            lemma_included_concat(a, classes(*else_branch));
            lemma_included_trans(classes(*condition), a, classes(e));
            lemma_included_trans(classes(*then_branch), a, classes(e));
        },
        Expr::Assert { value, .. } => {
            assert(included(classes(*value), classes(e)));
        },
        Expr::NativeCall { args, .. } => {
            assert forall|i: int| 0 <= i < children(e).len() implies included(
                classes(#[trigger] children(e)[i]),
                classes(e),
            ) by {
                lemma_seq_classes_has(args@, i);
            }
        },
        Expr::Index { array, index, .. } => {
            lemma_included_concat(classes(*array), classes(*index));
        },
        Expr::FieldRead { container, key, .. } => {
            lemma_included_concat(classes(*container), classes(*key));
        },
        Expr::NamedFieldRead { container, .. } => {
            assert(included(classes(*container), classes(e)));
        },
        Expr::TableFind { container, key, .. } => {
            lemma_included_concat(classes(*container), classes(*key));
        },
        Expr::Annotation { value, annotation, perspective, .. } => {
            let a = classes(*value) + opt_classes(annotation);
            lemma_included_concat(classes(*value), opt_classes(annotation));
            lemma_included_concat(a, opt_classes(perspective));
            lemma_included_trans(classes(*value), a, classes(e));
            lemma_included_trans(opt_classes(annotation), a, classes(e));
            assert forall|i: int| 0 <= i < children(e).len() implies included(
                classes(#[trigger] children(e)[i]),
                classes(e),
            ) by {
                let o1 = opt_expr(annotation);
                let o2 = opt_expr(perspective);
                if i == 0 {
                    assert(children(e)[i] == *value);
                } else if i < 1 + o1.len() {
                    assert(children(e)[i] == o1[i - 1]);
                } else {
                    assert(children(e)[i] == o2[i - 1 - o1.len()]);
                }
            }
        },
        Expr::Arrow { parameter, result, .. } => {
            lemma_included_concat(classes(*parameter), classes(*result));
        },
        Expr::Tuple(elems, _) => {
            assert forall|i: int| 0 <= i < children(e).len() implies included(
                classes(#[trigger] children(e)[i]),
                classes(e),
            ) by {
                lemma_seq_classes_has(elems@, i);
            }
        },
        Expr::TypeTuple(elems, _) => {
            assert forall|i: int| 0 <= i < children(e).len() implies included(
                classes(#[trigger] children(e)[i]),
                classes(e),
            ) by {
                lemma_seq_classes_has(elems@, i);
            }
        },
        Expr::Array(elems, _) => {
            assert forall|i: int| 0 <= i < children(e).len() implies included(
                classes(#[trigger] children(e)[i]),
                classes(e),
            ) by {
                lemma_seq_classes_has(elems@, i);
            }
        },
        Expr::StructType(fields, _) => {
            assert forall|i: int| 0 <= i < children(e).len() implies included(
                classes(#[trigger] children(e)[i]),
                classes(e),
            ) by {
                lemma_field_classes_has(fields@, i);
            }
        },
        Expr::StructInst { callee, fields, .. } => {
            lemma_included_concat(classes(*callee), arg_classes(fields@));
            assert forall|i: int| 0 <= i < children(e).len() implies included(
                classes(#[trigger] children(e)[i]),
                classes(e),
            ) by {
                if i > 0 {
                    lemma_arg_classes_has(fields@, i - 1);
                    lemma_included_trans(classes(fields@[i - 1].value), arg_classes(fields@), classes(e));
                }
            }
        },
        Expr::Table(entries, _) => {
            assert forall|i: int| 0 <= i < children(e).len() implies included(
                classes(#[trigger] children(e)[i]),
                classes(e),
            ) by {
                lemma_entry_classes_has(entries@, i / 2);
            }
        },
        Expr::Shallow(inner, _, _) => {
            assert(included(classes(*inner), classes(e)));
        },
        Expr::TypeArray { element_type, length, .. } => {
            lemma_included_concat(classes(*element_type), classes(*length));
        },
        Expr::Block { statements, expr, .. } => {
            lemma_included_concat(stmts_classes(statements@), classes(*expr));
            assert forall|i: int| 0 <= i < children(e).len() implies included(
                classes(#[trigger] children(e)[i]),
                classes(e),
            ) by {
                if i < statements@.len() {
                    lemma_stmts_classes_has(statements@, i);
                    lemma_included_trans(
                        classes(stmt_expr(statements@[i])),
                        stmts_classes(statements@),
                        classes(e),
                    );
                } else {
                    assert(children(e)[i] == *expr);
                }
            }
            assert forall|j: int| 0 <= j < statements@.len() implies (#[trigger] statements@[j] matches Stmt::Binding(b)
                ==> classes(e).contains(declared(b.span, SemanticTokenType::VARIABLE))) by {
                if let Stmt::Binding(b) = statements@[j] {
                    lemma_stmts_classes_has(statements@, j);
                    lemma_included_trans(stmt_classes(statements@[j]), stmts_classes(statements@), classes(e));
                    assert(stmt_classes(statements@[j])[0] == declared(b.span, SemanticTokenType::VARIABLE));
                    assert(stmt_classes(statements@[j]).contains(declared(b.span, SemanticTokenType::VARIABLE)));
                }
            }
        },
        Expr::RecordBlock { fields, .. } => {
            assert forall|i: int| 0 <= i < children(e).len() implies included(
                classes(#[trigger] children(e)[i]),
                classes(e),
            ) by {
                lemma_record_classes_has(fields@, i);
            }
        },
        _ => {},
    }
}

/// The classifications recorded by a walk, in order.
pub struct NameClass {
    pub entries: Vec<NameClassEntry>,
}

/// The content of recorded classifications.
pub open spec fn entries_view(entries: Seq<NameClassEntry>) -> Seq<ClassView> {
    entries.map_values(|e: NameClassEntry| entry_view(e))
}

impl NameClass {
    /// Record one classification.
    fn insert(&mut self, span: Span, token_type: SemanticTokenType, declaration: bool)
        ensures
            entries_view(final(self).entries@) == entries_view(old(self).entries@).push(
                (
                    span,
                    token_type,
                    if declaration {
                        seq![SemanticTokenModifier::DECLARATION]
                    } else {
                        Seq::empty()
                    },
                ),
            ),
    {
        let mut modifiers: Vec<SemanticTokenModifier> = Vec::new();
        if declaration {
            modifiers.push(SemanticTokenModifier::DECLARATION);
        }
        self.entries.push(NameClassEntry { span, token_type, modifiers });
        proof {
            assert(modifiers@ =~= if declaration {
                seq![SemanticTokenModifier::DECLARATION]
            } else {
                Seq::empty()
            });
            assert(entries_view(self.entries@) =~= entries_view(old(self).entries@).push(
                entry_view(self.entries@.last()),
            ));
        }
    }

    /// Record the classifications of a statement.
    fn stmt(&mut self, s: &Stmt)
        ensures
            entries_view(final(self).entries@) == entries_view(old(self).entries@) + stmt_classes(*s),
        decreases s,
    {
        match s {
            Stmt::Binding(b) => {
                self.insert(b.span, SemanticTokenType::VARIABLE, true);
                let ghost mid = entries_view(self.entries@);
                self.expr(&b.value);
                assert(entries_view(self.entries@) =~= entries_view(old(self).entries@) + (seq![
                    declared(b.span, SemanticTokenType::VARIABLE),
                ] + classes(b.value)));
            },
            Stmt::Expr(e) => {
                self.expr(e);
            },
        }
    }

    /// Record the classifications of an optional sub-expression.
    fn opt(&mut self, e: &Option<Box<Expr>>)
        ensures
            entries_view(final(self).entries@) == entries_view(old(self).entries@) + opt_classes(*e),
        decreases e,
    {
        match e {
            Some(x) => {
                self.expr(x);
            },
            None => {
                assert(entries_view(self.entries@) =~= entries_view(old(self).entries@) + Seq::empty());
            },
        }
    }

    /// Record the classifications of an expression.
    fn expr(&mut self, e: &Expr)
        ensures
            entries_view(final(self).entries@) == entries_view(old(self).entries@) + classes(*e),
        decreases e,
    {
        let ghost before = entries_view(self.entries@);
        match e {
            Expr::Lambda { parameter_span, parameter_type, parameter_perspective, result, .. } => {
                self.insert(*parameter_span, SemanticTokenType::PARAMETER, true);
                self.opt(parameter_type);
                self.opt(parameter_perspective);
                self.expr(result);
            },
            Expr::Apply { function, argument, .. } => {
                if let Expr::Name(_, span) = &**function {
                    self.insert(*span, SemanticTokenType::FUNCTION, false);
                }
                assert(entries_view(self.entries@) =~= before + callee_class(**function));
                self.expr(function);
                self.expr(argument);
            },
            Expr::BinOp { left, right, .. } => {
                self.expr(left);
                self.expr(right);
            },
            Expr::If { condition, then_branch, else_branch, .. } => {
                self.expr(condition);
                self.expr(then_branch);
                self.expr(else_branch);
            },
            Expr::Assert { value, .. } => {
                self.expr(value);
            },
            Expr::NativeCall { args, .. } => {
                self.exprs(args);
            },
            Expr::Index { array, index, .. } => {
                self.expr(array);
                self.expr(index);
            },
            Expr::FieldRead { container, key, .. } => {
                self.expr(container);
                self.expr(key);
            },
            Expr::NamedFieldRead { container, .. } => {
                self.expr(container);
            },
            Expr::TableFind { container, key, .. } => {
                self.expr(container);
                self.expr(key);
            },
            Expr::Annotation { value, annotation, perspective, .. } => {
                self.expr(value);
                self.opt(annotation);
                self.opt(perspective);
            },
            Expr::Arrow { parameter, result, .. } => {
                self.expr(parameter);
                self.expr(result);
            },
            Expr::Tuple(elems, _) => {
                self.exprs(elems);
            },
            Expr::TypeTuple(elems, _) => {
                self.exprs(elems);
            },
            Expr::Array(elems, _) => {
                self.exprs(elems);
            },
            Expr::StructType(fields, _) => {
                self.fields(fields);
            },
            Expr::StructInst { callee, fields, .. } => {
                self.expr(callee);
                self.args(fields);
            },
            Expr::Table(entries, _) => {
                self.table(entries);
            },
            Expr::Shallow(inner, _, _) => {
                self.expr(inner);
            },
            Expr::TypeArray { element_type, length, .. } => {
                self.expr(element_type);
                self.expr(length);
            },
            Expr::Block { statements, expr, .. } => {
                self.stmts(statements);
                self.expr(expr);
            },
            Expr::RecordBlock { fields, .. } => {
                self.records(fields);
            },
            _ => {},
        }
        assert(entries_view(self.entries@) =~= before + classes(*e));
    }

    /// Record the classifications of a sequence of expressions.
    fn exprs(&mut self, es: &Vec<Expr>)
        ensures
            entries_view(final(self).entries@) == entries_view(old(self).entries@) + seq_classes(es@),
        decreases es,
    {
        let ghost before = entries_view(self.entries@);
        let mut i: usize = 0;
        assert(es@.take(0) =~= Seq::<Expr>::empty());
        assert(decreases_to!(*es => es@));
        while i < es.len()
            invariant
                decreases_to!(*es => es@),
                i <= es@.len(),
                entries_view(self.entries@) == before + seq_classes(es@.take(i as int)),
            decreases es@.len() - i,
        {
            proof {
                assert(decreases_to!(es@ => es@[i as int]));
                assert(es@.take(i + 1).drop_last() =~= es@.take(i as int));
            }
            self.expr(&es[i]);
            assert(entries_view(self.entries@) =~= before + seq_classes(es@.take(i + 1)));
            i += 1;
        }
        assert(es@.take(i as int) =~= es@);
    }

    /// Record the classifications of struct field types.
    fn fields(&mut self, fs: &Vec<StructField>)
        ensures
            entries_view(final(self).entries@) == entries_view(old(self).entries@) + field_classes(fs@),
        decreases fs,
    {
        let ghost before = entries_view(self.entries@);
        let mut i: usize = 0;
        assert(fs@.take(0) =~= Seq::<StructField>::empty());
        assert(decreases_to!(*fs => fs@));
        while i < fs.len()
            invariant
                decreases_to!(*fs => fs@),
                i <= fs@.len(),
                entries_view(self.entries@) == before + field_classes(fs@.take(i as int)),
            decreases fs@.len() - i,
        {
            proof {
                assert(decreases_to!(fs@ => fs@[i as int]));
                assert(decreases_to!(fs@[i as int] => fs@[i as int].ty));
                assert(fs@.take(i + 1).drop_last() =~= fs@.take(i as int));
            }
            self.expr(&fs[i].ty);
            assert(entries_view(self.entries@) =~= before + field_classes(fs@.take(i + 1)));
            i += 1;
        }
        assert(fs@.take(i as int) =~= fs@);
    }

    /// Record the classifications of instantiation argument values.
    fn args(&mut self, fs: &Vec<StructInstArg>)
        ensures
            entries_view(final(self).entries@) == entries_view(old(self).entries@) + arg_classes(fs@),
        decreases fs,
    {
        let ghost before = entries_view(self.entries@);
        let mut i: usize = 0;
        assert(fs@.take(0) =~= Seq::<StructInstArg>::empty());
        assert(decreases_to!(*fs => fs@));
        while i < fs.len()
            invariant
                decreases_to!(*fs => fs@),
                i <= fs@.len(),
                entries_view(self.entries@) == before + arg_classes(fs@.take(i as int)),
            decreases fs@.len() - i,
        {
            proof {
                assert(decreases_to!(fs@ => fs@[i as int]));
                assert(decreases_to!(fs@[i as int] => fs@[i as int].value));
                assert(fs@.take(i + 1).drop_last() =~= fs@.take(i as int));
            }
            self.expr(&fs[i].value);
            assert(entries_view(self.entries@) =~= before + arg_classes(fs@.take(i + 1)));
            i += 1;
        }
        assert(fs@.take(i as int) =~= fs@);
    }

    /// Record the classifications of table entry keys and values.
    fn table(&mut self, es: &Vec<(Expr, Expr)>)
        ensures
            entries_view(final(self).entries@) == entries_view(old(self).entries@) + entry_classes(es@),
        decreases es,
    {
        let ghost before = entries_view(self.entries@);
        let mut i: usize = 0;
        assert(es@.take(0) =~= Seq::<(Expr, Expr)>::empty());
        assert(decreases_to!(*es => es@));
        while i < es.len()
            invariant
                decreases_to!(*es => es@),
                i <= es@.len(),
                entries_view(self.entries@) == before + entry_classes(es@.take(i as int)),
            decreases es@.len() - i,
        {
            proof {
                assert(decreases_to!(es@ => es@[i as int]));
                assert(decreases_to!(es@[i as int] => es@[i as int].0));
                assert(decreases_to!(es@[i as int] => es@[i as int].1));
                assert(es@.take(i + 1).drop_last() =~= es@.take(i as int));
            }
            self.expr(&es[i].0);
            self.expr(&es[i].1);
            assert(entries_view(self.entries@) =~= before + entry_classes(es@.take(i + 1)));
            i += 1;
        }
        assert(es@.take(i as int) =~= es@);
    }

    /// Record the classifications of record-block field values.
    fn records(&mut self, fs: &Vec<RecordField>)
        ensures
            entries_view(final(self).entries@) == entries_view(old(self).entries@) + record_classes(fs@),
        decreases fs,
    {
        let ghost before = entries_view(self.entries@);
        let mut i: usize = 0;
        assert(fs@.take(0) =~= Seq::<RecordField>::empty());
        assert(decreases_to!(*fs => fs@));
        while i < fs.len()
            invariant
                decreases_to!(*fs => fs@),
                i <= fs@.len(),
                entries_view(self.entries@) == before + record_classes(fs@.take(i as int)),
            decreases fs@.len() - i,
        {
            proof {
                assert(decreases_to!(fs@ => fs@[i as int]));
                assert(decreases_to!(fs@[i as int] => fs@[i as int].value));
                assert(fs@.take(i + 1).drop_last() =~= fs@.take(i as int));
            }
            self.expr(&fs[i].value);
            assert(entries_view(self.entries@) =~= before + record_classes(fs@.take(i + 1)));
            i += 1;
        }
        assert(fs@.take(i as int) =~= fs@);
    }

    /// Record the classifications of a sequence of statements.
    fn stmts(&mut self, ss: &Vec<Stmt>)
        ensures
            entries_view(final(self).entries@) == entries_view(old(self).entries@) + stmts_classes(ss@),
        decreases ss,
    {
        let ghost before = entries_view(self.entries@);
        let mut i: usize = 0;
        assert(ss@.take(0) =~= Seq::<Stmt>::empty());
        assert(decreases_to!(*ss => ss@));
        while i < ss.len()
            invariant
                decreases_to!(*ss => ss@),
                i <= ss@.len(),
                entries_view(self.entries@) == before + stmts_classes(ss@.take(i as int)),
            decreases ss@.len() - i,
        {
            proof {
                assert(decreases_to!(ss@ => ss@[i as int]));
                assert(ss@.take(i + 1).drop_last() =~= ss@.take(i as int));
            }
            self.stmt(&ss[i]);
            assert(entries_view(self.entries@) =~= before + stmts_classes(ss@.take(i + 1)));
            i += 1;
        }
        assert(ss@.take(i as int) =~= ss@);
    }
}

/// Classify the names of a program (its statements, then its final
/// expression), in source order.
pub fn classify_names(statements: &Vec<Stmt>, expr: &Expr) -> (r: Vec<NameClassEntry>)
    ensures
        entries_view(r@) == stmts_classes(statements@) + classes(*expr),
{
    let mut w = NameClass { entries: Vec::new() };
    assert(entries_view(w.entries@) =~= Seq::<ClassView>::empty());
    w.stmts(statements);
    w.expr(expr);
    assert(entries_view(w.entries@) =~= stmts_classes(statements@) + classes(*expr));
    w.entries
}


/// The classification in effect for `span`: the last one recorded for it, as
/// a map lookup.
pub fn class_at(entries: &Vec<NameClassEntry>, span: Span) -> (r: Option<usize>)
    ensures
        match r {
            Some(i) => i < entries@.len() && entries@[i as int].span == span && forall|j: int|
                i < j < entries@.len() ==> (#[trigger] entries@[j]).span != span,
            None => forall|j: int| 0 <= j < entries@.len() ==> (#[trigger] entries@[j]).span != span,
        },
{
    let mut j = entries.len();
    while j > 0
        invariant
            j <= entries@.len(),
            forall|q: int| j <= q < entries@.len() ==> (#[trigger] entries@[q]).span != span,
        decreases j,
    {
        if entries[j - 1].span.0 == span.0 && entries[j - 1].span.1 == span.1 {
            return Some(j - 1);
        }
        j -= 1;
    }
    None
}

// ---------------------------------------------------------------------------
// Name resolution, mirroring the compiler's scope rules.
//
// A scope's block-wide (non-`let`) bindings are entered before any value so
// they may forward- and mutually-reference; a restrictive `let` enters after
// its value, in a fresh frame; a lambda enters its parameter for its body; a
// block pushes and pops its own frames.

/// A definition site: a binding name or a lambda parameter.
pub struct Definition {
    pub name: String,
    pub span: Span,
}

/// The state of a resolution walk: the definitions so far, the scope frames
/// (each a log of `(name, definition)` entries where a later entry for a name
/// overrides an earlier one), and the logs of resolved uses and of
/// definition sites.
pub struct WalkState {
    pub defs: Seq<(Seq<char>, Span)>,
    pub scopes: Seq<Seq<(Seq<char>, nat)>>,
    pub resolve: Seq<(Span, nat)>,
    pub def_index: Seq<(Span, nat)>,
}

/// The definition a frame binds `name` to: its last entry for the name.
pub open spec fn frame_get(frame: Seq<(Seq<char>, nat)>, name: Seq<char>) -> Option<nat>
    decreases frame.len(),
{
    if frame.len() == 0 {
        None
    } else if frame.last().0 == name {
        Some(frame.last().1)
    } else {
        frame_get(frame.drop_last(), name)
    }
}

/// The definition `name` resolves to: the innermost frame that binds it.
pub open spec fn scopes_get(scopes: Seq<Seq<(Seq<char>, nat)>>, name: Seq<char>) -> Option<nat>
    decreases scopes.len(),
{
    if scopes.len() == 0 {
        None
    } else {
        match frame_get(scopes.last(), name) {
            Some(i) => Some(i),
            None => scopes_get(scopes.drop_last(), name),
        }
    }
}

/// A fresh, empty innermost frame.
pub open spec fn push_frame(st: WalkState) -> WalkState {
    WalkState { scopes: st.scopes.push(Seq::empty()), ..st }
}

/// The frames above `base` dropped.
pub open spec fn truncate(st: WalkState, base: nat) -> WalkState {
    WalkState { scopes: st.scopes.take(base as int), ..st }
}

/// A new definition of `name` at `span`, bound in the innermost frame.
pub open spec fn enter(st: WalkState, name: Seq<char>, span: Span) -> WalkState {
    let idx = st.defs.len();
    WalkState {
        defs: st.defs.push((name, span)),
        scopes: st.scopes.update(st.scopes.len() - 1, st.scopes.last().push((name, idx))),
        resolve: st.resolve,
        def_index: st.def_index.push((span, idx)),
    }
}

/// A use of `name` at `span`, resolved where a frame binds it.
pub open spec fn use_name(st: WalkState, name: Seq<char>, span: Span) -> WalkState {
    match scopes_get(st.scopes, name) {
        Some(i) => WalkState { resolve: st.resolve.push((span, i)), ..st },
        None => st,
    }
}

/// The block-wide bindings of `stmts` entered, in order.
pub open spec fn pre_enter(st: WalkState, stmts: Seq<Stmt>) -> WalkState
    decreases stmts.len(),
{
    if stmts.len() == 0 {
        st
    } else {
        let s = pre_enter(st, stmts.drop_last());
        match stmts.last() {
            Stmt::Binding(b) => if b.restrictive {
                s
            } else {
                enter(s, b.name@, b.span)
            },
            Stmt::Expr(_) => s,
        }
    }
}

/// The named fields of a record block entered, in order.
pub open spec fn pre_enter_records(st: WalkState, fs: Seq<RecordField>) -> WalkState
    decreases fs.len(),
{
    if fs.len() == 0 {
        st
    } else {
        let s = pre_enter_records(st, fs.drop_last());
        match fs.last().name {
            Some(n) => if fs.last().field {
                enter(s, n@, fs.last().span)
            } else {
                s
            },
            None => s,
        }
    }
}

/// The walk of an optional sub-expression.
pub open spec fn walk_opt(st: WalkState, e: Option<Box<Expr>>) -> WalkState
    decreases e,
{
    match e {
        Some(x) => walk_expr(st, *x),
        None => st,
    }
}

/// The walk of a sequence of expressions, in order.
pub open spec fn walk_seq(st: WalkState, es: Seq<Expr>) -> WalkState
    decreases es,
{
    if es.len() == 0 {
        st
    } else {
        walk_expr(walk_seq(st, es.drop_last()), es.last())
    }
}

/// The walk of struct field types, in order.
pub open spec fn walk_fields(st: WalkState, fs: Seq<StructField>) -> WalkState
    decreases fs,
{
    if fs.len() == 0 {
        st
    } else {
        walk_expr(walk_fields(st, fs.drop_last()), fs.last().ty)
    }
}

/// The walk of instantiation argument values, in order.
pub open spec fn walk_args(st: WalkState, fs: Seq<StructInstArg>) -> WalkState
    decreases fs,
{
    if fs.len() == 0 {
        st
    } else {
        walk_expr(walk_args(st, fs.drop_last()), fs.last().value)
    }
}

/// The walk of table entries, key then value, in order.
pub open spec fn walk_table(st: WalkState, es: Seq<(Expr, Expr)>) -> WalkState
    decreases es,
{
    if es.len() == 0 {
        st
    } else {
        walk_expr(walk_expr(walk_table(st, es.drop_last()), es.last().0), es.last().1)
    }
}

/// The walk of one statement: a restrictive binding enters its name after
/// its value, in a fresh frame.
pub open spec fn walk_stmt(st: WalkState, s: Stmt) -> WalkState
    decreases s,
{
    match s {
        Stmt::Binding(b) => if b.restrictive {
            enter(push_frame(walk_expr(st, b.value)), b.name@, b.span)
        } else {
            walk_expr(st, b.value)
        },
        Stmt::Expr(e) => walk_expr(st, e),
    }
}

/// The walk of a sequence of statements, in order.
pub open spec fn walk_stmts(st: WalkState, ss: Seq<Stmt>) -> WalkState
    decreases ss,
{
    if ss.len() == 0 {
        st
    } else {
        walk_stmt(walk_stmts(st, ss.drop_last()), ss.last())
    }
}

/// The walk of one record-block field, as a statement: a named field is a
/// binding (restrictive when it is no field), an unnamed one an expression.
pub open spec fn walk_record(st: WalkState, f: RecordField) -> WalkState
    decreases f,
{
    match f.name {
        Some(n) => if !f.field {
            enter(push_frame(walk_expr(st, f.value)), n@, f.span)
        } else {
            walk_expr(st, f.value)
        },
        None => walk_expr(st, f.value),
    }
}

/// The walk of record-block fields, in order.
pub open spec fn walk_records(st: WalkState, fs: Seq<RecordField>) -> WalkState
    decreases fs,
{
    if fs.len() == 0 {
        st
    } else {
        walk_record(walk_records(st, fs.drop_last()), fs.last())
    }
}

/// The walk of an expression: uses are resolved against the frames, and
/// lambdas, blocks and record blocks open scopes they close again.
pub open spec fn walk_expr(st: WalkState, e: Expr) -> WalkState
    decreases e,
{
    match e {
        Expr::Name(n, s) => use_name(st, n@, s),
        Expr::Lambda { parameter, parameter_span, parameter_type, parameter_perspective, result, .. } => {
            let base = st.scopes.len();
            let s1 = enter(push_frame(st), parameter@, parameter_span);
            let s2 = walk_opt(walk_opt(s1, parameter_type), parameter_perspective);
            truncate(walk_expr(s2, *result), base)
        },
        Expr::Apply { function, argument, .. } => walk_expr(walk_expr(st, *function), *argument),
        Expr::BinOp { left, right, .. } => walk_expr(walk_expr(st, *left), *right),
        Expr::If { condition, then_branch, else_branch, .. } => walk_expr(
            walk_expr(walk_expr(st, *condition), *then_branch),
            *else_branch,
        ),
        Expr::Assert { value, .. } => walk_expr(st, *value),
        Expr::NativeCall { args, .. } => walk_seq(st, args@),
        Expr::Index { array, index, .. } => walk_expr(walk_expr(st, *array), *index),
        Expr::FieldRead { container, key, .. } => walk_expr(walk_expr(st, *container), *key),
        Expr::NamedFieldRead { container, .. } => walk_expr(st, *container),
        Expr::TableFind { container, key, .. } => walk_expr(walk_expr(st, *container), *key),
        Expr::Annotation { value, annotation, perspective, .. } => walk_opt(
            walk_opt(walk_expr(st, *value), annotation),
            perspective,
        ),
        Expr::Arrow { parameter, result, .. } => walk_expr(walk_expr(st, *parameter), *result),
        Expr::Tuple(elems, _) => walk_seq(st, elems@),
        Expr::TypeTuple(elems, _) => walk_seq(st, elems@),
        Expr::Array(elems, _) => walk_seq(st, elems@),
        Expr::StructType(fields, _) => walk_fields(st, fields@),
        Expr::StructInst { callee, fields, .. } => walk_args(walk_expr(st, *callee), fields@),
        Expr::Table(entries, _) => walk_table(st, entries@),
        Expr::Shallow(inner, _, _) => walk_expr(st, *inner),
        Expr::TypeArray { element_type, length, .. } => walk_expr(
            walk_expr(st, *element_type),
            *length,
        ),
        Expr::Block { statements, expr, .. } => {
            let base = st.scopes.len();
            let s1 = pre_enter(push_frame(st), statements@);
            truncate(walk_expr(walk_stmts(s1, statements@), *expr), base)
        },
        Expr::RecordBlock { fields, .. } => {
            let base = st.scopes.len();
            let s1 = pre_enter_records(push_frame(st), fields@);
            truncate(walk_records(s1, fields@), base)
        },
        _ => st,
    }
}


/// The entries of a frame, as a log.
pub open spec fn frame_view(f: Vec<(String, usize)>) -> Seq<(Seq<char>, nat)> {
    f@.map_values(|p: (String, usize)| (p.0@, p.1 as nat))
}

/// A log of span entries, as a log of naturals.
pub open spec fn log_view(l: Seq<(Span, usize)>) -> Seq<(Span, nat)> {
    l.map_values(|p: (Span, usize)| (p.0, p.1 as nat))
}

/// A resolution walk in progress.
pub struct Walk {
    pub defs: Vec<Definition>,
    pub scopes: Vec<Vec<(String, usize)>>,
    pub resolve: Vec<(Span, usize)>,
    pub def_index: Vec<(Span, usize)>,
}

impl View for Walk {
    type V = WalkState;

    open spec fn view(&self) -> WalkState {
        WalkState {
            defs: self.defs@.map_values(|d: Definition| (d.name@, d.span)),
            scopes: self.scopes@.map_values(|f: Vec<(String, usize)>| frame_view(f)),
            resolve: log_view(self.resolve@),
            def_index: log_view(self.def_index@),
        }
    }
}

/// The definition a frame binds `name` to, scanning from its last entry.
fn frame_lookup(frame: &Vec<(String, usize)>, name: &String) -> (r: Option<usize>)
    ensures
        match r {
            Some(i) => frame_get(frame_view(*frame), name@) == Some(i as nat),
            None => frame_get(frame_view(*frame), name@) is None,
        },
{
    let ghost fv = frame_view(*frame);
    let mut j = frame.len();
    assert(fv.take(j as int) =~= fv);
    while j > 0
        invariant
            j <= frame@.len(),
            fv == frame_view(*frame),
            frame_get(fv, name@) == frame_get(fv.take(j as int), name@),
        decreases j,
    {
        assert(fv.take(j as int).last() == fv[j - 1]);
        if frame[j - 1].0 == *name {
            return Some(frame[j - 1].1);
        }
        assert(fv.take(j as int).drop_last() =~= fv.take(j - 1));
        j -= 1;
    }
    None
}

impl Walk {
    /// The definition `name` resolves to: the innermost frame binding it.
    fn lookup(&self, name: &String) -> (r: Option<usize>)
        ensures
            match r {
                Some(i) => scopes_get(self@.scopes, name@) == Some(i as nat),
                None => scopes_get(self@.scopes, name@) is None,
            },
    {
        let ghost sv = self@.scopes;
        let mut k = self.scopes.len();
        assert(sv.take(k as int) =~= sv);
        while k > 0
            invariant
                k <= self.scopes@.len(),
                sv == self@.scopes,
                scopes_get(sv, name@) == scopes_get(sv.take(k as int), name@),
            decreases k,
        {
            assert(sv.take(k as int).last() == frame_view(self.scopes@[k - 1]));
            match frame_lookup(&self.scopes[k - 1], name) {
                Some(i) => {
                    return Some(i);
                },
                None => {},
            }
            assert(sv.take(k as int).drop_last() =~= sv.take(k - 1));
            k -= 1;
        }
        None
    }

    /// Open a fresh innermost frame.
    fn push_frame(&mut self)
        ensures
            final(self)@ == push_frame(old(self)@),
            final(self).scopes@.len() == old(self).scopes@.len() + 1,
    {
        let f: Vec<(String, usize)> = Vec::new();
        assert(frame_view(f) =~= Seq::<(Seq<char>, nat)>::empty());
        self.scopes.push(f);
        assert(self@.scopes =~= old(self)@.scopes.push(Seq::empty()));
    }

    /// Close the frames above `base`.
    fn truncate(&mut self, base: usize)
        requires
            base <= old(self).scopes@.len(),
        ensures
            final(self)@ == truncate(old(self)@, base as nat),
            final(self).scopes@.len() == base,
    {
        self.scopes.truncate(base);
        assert(self@.scopes =~= old(self)@.scopes.take(base as int));
    }

    /// Define `name` at `span` in the innermost frame.
    fn enter(&mut self, name: &String, span: Span) -> (idx: usize)
        requires
            old(self).scopes@.len() > 0,
        ensures
            final(self)@ == enter(old(self)@, name@, span),
            final(self).scopes@.len() == old(self).scopes@.len(),
            idx == old(self).defs@.len(),
    {
        let idx = self.defs.len();
        self.defs.push(Definition { name: name.clone(), span });
        self.def_index.push((span, idx));
        let mut frame = self.scopes.pop().unwrap();
        frame.push((name.clone(), idx));
        self.scopes.push(frame);
        proof {
            let o = old(self)@;
            assert(self@.defs =~= o.defs.push((name@, span)));
            assert(self@.def_index =~= o.def_index.push((span, idx as nat)));
            assert(frame_view(frame) =~= o.scopes.last().push((name@, idx as nat)));
            assert(self@.scopes =~= o.scopes.update(o.scopes.len() - 1, o.scopes.last().push((name@, idx as nat))));
        }
        idx
    }
}


impl Walk {
    /// Enter the block-wide bindings of `stmts`.
    fn pre_enter(&mut self, stmts: &Vec<Stmt>)
        requires
            old(self).scopes@.len() > 0,
        ensures
            final(self)@ == pre_enter(old(self)@, stmts@),
            final(self).scopes@.len() == old(self).scopes@.len(),
    {
        let mut i: usize = 0;
        assert(stmts@.take(0) =~= Seq::<Stmt>::empty());
        while i < stmts.len()
            invariant
                i <= stmts@.len(),
                self.scopes@.len() == old(self).scopes@.len() > 0,
                self@ == pre_enter(old(self)@, stmts@.take(i as int)),
            decreases stmts@.len() - i,
        {
            assert(stmts@.take(i + 1).drop_last() =~= stmts@.take(i as int));
            assert(stmts@.take(i + 1).last() == stmts@[i as int]);
            match &stmts[i] {
                Stmt::Binding(b) => {
                    if !b.restrictive {
                        self.enter(&b.name, b.span);
                    }
                },
                Stmt::Expr(_) => {},
            }
            i += 1;
        }
        assert(stmts@.take(i as int) =~= stmts@);
    }

    /// Enter the named fields of a record block.
    fn pre_enter_records(&mut self, fs: &Vec<RecordField>)
        requires
            old(self).scopes@.len() > 0,
        ensures
            final(self)@ == pre_enter_records(old(self)@, fs@),
            final(self).scopes@.len() == old(self).scopes@.len(),
    {
        let mut i: usize = 0;
        assert(fs@.take(0) =~= Seq::<RecordField>::empty());
        while i < fs.len()
            invariant
                i <= fs@.len(),
                self.scopes@.len() == old(self).scopes@.len() > 0,
                self@ == pre_enter_records(old(self)@, fs@.take(i as int)),
            decreases fs@.len() - i,
        {
            assert(fs@.take(i + 1).drop_last() =~= fs@.take(i as int));
            assert(fs@.take(i + 1).last() == fs@[i as int]);
            match &fs[i].name {
                Some(n) => {
                    if fs[i].field {
                        self.enter(n, fs[i].span);
                    }
                },
                None => {},
            }
            i += 1;
        }
        assert(fs@.take(i as int) =~= fs@);
    }

    /// Walk an optional sub-expression.
    fn walk_opt(&mut self, e: &Option<Box<Expr>>)
        ensures
            final(self)@ == walk_opt(old(self)@, *e),
            final(self).scopes@.len() == old(self).scopes@.len(),
        decreases e,
    {
        match e {
            Some(x) => {
                self.walk(x);
            },
            None => {},
        }
    }

    /// Walk one statement.
    fn walk_stmt(&mut self, s: &Stmt)
        ensures
            final(self)@ == walk_stmt(old(self)@, *s),
            final(self).scopes@.len() >= old(self).scopes@.len(),
        decreases s,
    {
        match s {
            Stmt::Binding(b) => {
                self.walk(&b.value);
                if b.restrictive {
                    self.push_frame();
                    self.enter(&b.name, b.span);
                }
            },
            Stmt::Expr(e) => {
                self.walk(e);
            },
        }
    }

    /// Walk one record-block field.
    fn walk_record(&mut self, f: &RecordField)
        ensures
            final(self)@ == walk_record(old(self)@, *f),
            final(self).scopes@.len() >= old(self).scopes@.len(),
        decreases f,
    {
        match &f.name {
            Some(n) => {
                self.walk(&f.value);
                if !f.field {
                    self.push_frame();
                    self.enter(n, f.span);
                }
            },
            None => {
                self.walk(&f.value);
            },
        }
    }

    /// Walk a sequence of expressions.
    fn walk_seq(&mut self, es: &Vec<Expr>)
        ensures
            final(self)@ == walk_seq(old(self)@, es@),
            final(self).scopes@.len() == old(self).scopes@.len(),
        decreases es,
    {
        let mut i: usize = 0;
        assert(es@.take(0) =~= Seq::<Expr>::empty());
        assert(decreases_to!(*es => es@));
        while i < es.len()
            invariant
                decreases_to!(*es => es@),
                i <= es@.len(),
                self.scopes@.len() == old(self).scopes@.len(),
                self@ == walk_seq(old(self)@, es@.take(i as int)),
            decreases es@.len() - i,
        {
            proof {
                assert(decreases_to!(es@ => es@[i as int]));
                assert(es@.take(i + 1).drop_last() =~= es@.take(i as int));
            }
            self.walk(&es[i]);
            i += 1;
        }
        assert(es@.take(i as int) =~= es@);
    }

    /// Walk struct field types.
    fn walk_fields(&mut self, fs: &Vec<StructField>)
        ensures
            final(self)@ == walk_fields(old(self)@, fs@),
            final(self).scopes@.len() == old(self).scopes@.len(),
        decreases fs,
    {
        let mut i: usize = 0;
        assert(fs@.take(0) =~= Seq::<StructField>::empty());
        assert(decreases_to!(*fs => fs@));
        while i < fs.len()
            invariant
                decreases_to!(*fs => fs@),
                i <= fs@.len(),
                self.scopes@.len() == old(self).scopes@.len(),
                self@ == walk_fields(old(self)@, fs@.take(i as int)),
            decreases fs@.len() - i,
        {
            proof {
                assert(decreases_to!(fs@ => fs@[i as int]));
                assert(decreases_to!(fs@[i as int] => fs@[i as int].ty));
                assert(fs@.take(i + 1).drop_last() =~= fs@.take(i as int));
            }
            self.walk(&fs[i].ty);
            i += 1;
        }
        assert(fs@.take(i as int) =~= fs@);
    }

    /// Walk instantiation argument values.
    fn walk_args(&mut self, fs: &Vec<StructInstArg>)
        ensures
            final(self)@ == walk_args(old(self)@, fs@),
            final(self).scopes@.len() == old(self).scopes@.len(),
        decreases fs,
    {
        let mut i: usize = 0;
        assert(fs@.take(0) =~= Seq::<StructInstArg>::empty());
        assert(decreases_to!(*fs => fs@));
        while i < fs.len()
            invariant
                decreases_to!(*fs => fs@),
                i <= fs@.len(),
                self.scopes@.len() == old(self).scopes@.len(),
                self@ == walk_args(old(self)@, fs@.take(i as int)),
            decreases fs@.len() - i,
        {
            proof {
                assert(decreases_to!(fs@ => fs@[i as int]));
                assert(decreases_to!(fs@[i as int] => fs@[i as int].value));
                assert(fs@.take(i + 1).drop_last() =~= fs@.take(i as int));
            }
            self.walk(&fs[i].value);
            i += 1;
        }
        assert(fs@.take(i as int) =~= fs@);
    }

    /// Walk table entries.
    fn walk_table(&mut self, es: &Vec<(Expr, Expr)>)
        ensures
            final(self)@ == walk_table(old(self)@, es@),
            final(self).scopes@.len() == old(self).scopes@.len(),
        decreases es,
    {
        let mut i: usize = 0;
        assert(es@.take(0) =~= Seq::<(Expr, Expr)>::empty());
        assert(decreases_to!(*es => es@));
        while i < es.len()
            invariant
                decreases_to!(*es => es@),
                i <= es@.len(),
                self.scopes@.len() == old(self).scopes@.len(),
                self@ == walk_table(old(self)@, es@.take(i as int)),
            decreases es@.len() - i,
        {
            proof {
                assert(decreases_to!(es@ => es@[i as int]));
                assert(decreases_to!(es@[i as int] => es@[i as int].0));
                assert(decreases_to!(es@[i as int] => es@[i as int].1));
                assert(es@.take(i + 1).drop_last() =~= es@.take(i as int));
            }
            self.walk(&es[i].0);
            self.walk(&es[i].1);
            i += 1;
        }
        assert(es@.take(i as int) =~= es@);
    }

    /// Walk a sequence of statements.
    fn walk_stmts(&mut self, ss: &Vec<Stmt>)
        ensures
            final(self)@ == walk_stmts(old(self)@, ss@),
            final(self).scopes@.len() >= old(self).scopes@.len(),
        decreases ss,
    {
        let mut i: usize = 0;
        assert(ss@.take(0) =~= Seq::<Stmt>::empty());
        assert(decreases_to!(*ss => ss@));
        while i < ss.len()
            invariant
                decreases_to!(*ss => ss@),
                i <= ss@.len(),
                self.scopes@.len() >= old(self).scopes@.len(),
                self@ == walk_stmts(old(self)@, ss@.take(i as int)),
            decreases ss@.len() - i,
        {
            proof {
                assert(decreases_to!(ss@ => ss@[i as int]));
                assert(ss@.take(i + 1).drop_last() =~= ss@.take(i as int));
            }
            self.walk_stmt(&ss[i]);
            i += 1;
        }
        assert(ss@.take(i as int) =~= ss@);
    }

    /// Walk record-block fields.
    fn walk_records(&mut self, fs: &Vec<RecordField>)
        ensures
            final(self)@ == walk_records(old(self)@, fs@),
            final(self).scopes@.len() >= old(self).scopes@.len(),
        decreases fs,
    {
        let mut i: usize = 0;
        assert(fs@.take(0) =~= Seq::<RecordField>::empty());
        assert(decreases_to!(*fs => fs@));
        while i < fs.len()
            invariant
                decreases_to!(*fs => fs@),
                i <= fs@.len(),
                self.scopes@.len() >= old(self).scopes@.len(),
                self@ == walk_records(old(self)@, fs@.take(i as int)),
            decreases fs@.len() - i,
        {
            proof {
                assert(decreases_to!(fs@ => fs@[i as int]));
                assert(fs@.take(i + 1).drop_last() =~= fs@.take(i as int));
            }
            self.walk_record(&fs[i]);
            i += 1;
        }
        assert(fs@.take(i as int) =~= fs@);
    }

    /// Walk an expression, resolving its uses.
    fn walk(&mut self, e: &Expr)
        ensures
            final(self)@ == walk_expr(old(self)@, *e),
            final(self).scopes@.len() == old(self).scopes@.len(),
        decreases e,
    {
        match e {
            Expr::Name(name, span) => {
                if let Some(idx) = self.lookup(name) {
                    self.resolve.push((*span, idx));
                    assert(self@.resolve =~= old(self)@.resolve.push((*span, idx as nat)));
                }
            },
            Expr::Lambda { parameter, parameter_span, parameter_type, parameter_perspective, result, .. } => {
                let base = self.scopes.len();
                self.push_frame();
                self.enter(parameter, *parameter_span);
                self.walk_opt(parameter_type);
                self.walk_opt(parameter_perspective);
                self.walk(result);
                self.truncate(base);
            },
            Expr::Apply { function, argument, .. } => {
                self.walk(function);
                self.walk(argument);
            },
            Expr::BinOp { left, right, .. } => {
                self.walk(left);
                self.walk(right);
            },
            Expr::If { condition, then_branch, else_branch, .. } => {
                self.walk(condition);
                self.walk(then_branch);
                self.walk(else_branch);
            },
            Expr::Assert { value, .. } => {
                self.walk(value);
            },
            Expr::NativeCall { args, .. } => {
                self.walk_seq(args);
            },
            Expr::Index { array, index, .. } => {
                self.walk(array);
                self.walk(index);
            },
            Expr::FieldRead { container, key, .. } => {
                self.walk(container);
                self.walk(key);
            },
            Expr::NamedFieldRead { container, .. } => {
                self.walk(container);
            },
            Expr::TableFind { container, key, .. } => {
                self.walk(container);
                self.walk(key);
            },
            Expr::Annotation { value, annotation, perspective, .. } => {
                self.walk(value);
                self.walk_opt(annotation);
                self.walk_opt(perspective);
            },
            Expr::Arrow { parameter, result, .. } => {
                self.walk(parameter);
                self.walk(result);
            },
            Expr::Tuple(elems, _) => {
                self.walk_seq(elems);
            },
            Expr::TypeTuple(elems, _) => {
                self.walk_seq(elems);
            },
            Expr::Array(elems, _) => {
                self.walk_seq(elems);
            },
            Expr::StructType(fields, _) => {
                self.walk_fields(fields);
            },
            Expr::StructInst { callee, fields, .. } => {
                self.walk(callee);
                self.walk_args(fields);
            },
            Expr::Table(entries, _) => {
                self.walk_table(entries);
            },
            Expr::Shallow(inner, _, _) => {
                self.walk(inner);
            },
            Expr::TypeArray { element_type, length, .. } => {
                self.walk(element_type);
                self.walk(length);
            },
            Expr::Block { statements, expr, .. } => {
                let base = self.scopes.len();
                self.push_frame();
                self.pre_enter(statements);
                self.walk_stmts(statements);
                self.walk(expr);
                self.truncate(base);
            },
            Expr::RecordBlock { fields, .. } => {
                let base = self.scopes.len();
                self.push_frame();
                self.pre_enter_records(fields);
                self.walk_records(fields);
                self.truncate(base);
            },
            _ => {},
        }
    }
}


/// The walk state a program's resolution starts from: the imported names
/// in a frame of their own (when there are any).
pub open spec fn import_state(imports: Seq<(Seq<char>, Span)>) -> WalkState {
    let empty = WalkState {
        defs: Seq::empty(),
        scopes: Seq::empty(),
        resolve: Seq::empty(),
        def_index: Seq::empty(),
    };
    if imports.len() == 0 {
        empty
    } else {
        enter_all(push_frame(empty), imports)
    }
}

/// The names `imports` entered in order.
pub open spec fn enter_all(st: WalkState, imports: Seq<(Seq<char>, Span)>) -> WalkState
    decreases imports.len(),
{
    if imports.len() == 0 {
        st
    } else {
        let s = enter_all(st, imports.drop_last());
        enter(s, imports.last().0, imports.last().1)
    }
}

/// The walk of a scope of statements and a final expression, as a block's.
pub open spec fn walk_scope(st: WalkState, stmts: Seq<Stmt>, e: Expr) -> WalkState {
    let base = st.scopes.len();
    truncate(walk_expr(walk_stmts(pre_enter(push_frame(st), stmts), stmts), e), base)
}

/// The resolution of a program: its statements and final expression walked
/// as a block, over the imported names.
pub open spec fn program_index(
    stmts: Seq<Stmt>,
    e: Expr,
    imports: Seq<(Seq<char>, Span)>,
) -> WalkState {
    walk_scope(import_state(imports), stmts, e)
}

/// The entry a log holds for `span`: its last one.
pub open spec fn log_get(log: Seq<(Span, nat)>, span: Span) -> Option<nat>
    decreases log.len(),
{
    if log.len() == 0 {
        None
    } else if log.last().0 == span {
        Some(log.last().1)
    } else {
        log_get(log.drop_last(), span)
    }
}

/// The entry `log` holds for `span` (its last one), as a map lookup.
pub fn log_lookup(log: &Vec<(Span, usize)>, span: Span) -> (r: Option<usize>)
    ensures
        match r {
            Some(i) => log_get(log_view(log@), span) == Some(i as nat),
            None => log_get(log_view(log@), span) is None,
        },
{
    let ghost lv = log_view(log@);
    let mut j = log.len();
    assert(lv.take(j as int) =~= lv);
    while j > 0
        invariant
            j <= log@.len(),
            lv == log_view(log@),
            log_get(lv, span) == log_get(lv.take(j as int), span),
        decreases j,
    {
        assert(lv.take(j as int).last() == lv[j - 1]);
        if log[j - 1].0.0 == span.0 && log[j - 1].0.1 == span.1 {
            return Some(log[j - 1].1);
        }
        assert(lv.take(j as int).drop_last() =~= lv.take(j - 1));
        j -= 1;
    }
    None
}

/// Resolve every name use of a program — its statements, then its final
/// expression, in one block scope over the imported names.  The result is
/// the definitions, the log of resolved uses (span to definition) and the
/// log of definition sites (span to definition); a later log entry for a
/// span overrides an earlier one.
pub fn index(statements: &Vec<Stmt>, expr: &Expr, imports: &Vec<(String, Span)>) -> (r: (
    Vec<Definition>,
    Vec<(Span, usize)>,
    Vec<(Span, usize)>,
))
    ensures
        ({
            let st = program_index(
                statements@,
                *expr,
                imports@.map_values(|p: (String, Span)| (p.0@, p.1)),
            );
            &&& r.0@.map_values(|d: Definition| (d.name@, d.span)) == st.defs
            &&& log_view(r.1@) == st.resolve
            &&& log_view(r.2@) == st.def_index
        }),
{
    let ghost iv = imports@.map_values(|p: (String, Span)| (p.0@, p.1));
    let mut walk = Walk {
        defs: Vec::new(),
        scopes: Vec::new(),
        resolve: Vec::new(),
        def_index: Vec::new(),
    };
    proof {
        assert(walk@.defs =~= Seq::<(Seq<char>, Span)>::empty());
        assert(walk@.scopes =~= Seq::<Seq<(Seq<char>, nat)>>::empty());
        assert(walk@.resolve =~= Seq::<(Span, nat)>::empty());
        assert(walk@.def_index =~= Seq::<(Span, nat)>::empty());
    }
    if imports.len() > 0 {
        walk.push_frame();
        let mut i: usize = 0;
        assert(iv.take(0) =~= Seq::<(Seq<char>, Span)>::empty());
        while i < imports.len()
            invariant
                i <= imports@.len(),
                iv == imports@.map_values(|p: (String, Span)| (p.0@, p.1)),
                walk.scopes@.len() == 1,
                walk@ == enter_all(
                    push_frame(
                        WalkState {
                            defs: Seq::empty(),
                            scopes: Seq::empty(),
                            resolve: Seq::empty(),
                            def_index: Seq::empty(),
                        },
                    ),
                    iv.take(i as int),
                ),
            decreases imports@.len() - i,
        {
            assert(iv.take(i + 1).drop_last() =~= iv.take(i as int));
            assert(iv.take(i + 1).last() == iv[i as int]);
            walk.enter(&imports[i].0, imports[i].1);
            i += 1;
        }
        assert(iv.take(i as int) =~= iv);
    }
    assert(walk@ == import_state(iv));
    let base = walk.scopes.len();
    walk.push_frame();
    walk.pre_enter(statements);
    walk.walk_stmts(statements);
    walk.walk(expr);
    walk.truncate(base);
    (walk.defs, walk.resolve, walk.def_index)
}


// ---------------------------------------------------------------------------
// What every step of a resolution walk keeps

/// A consistent walk state: every frame entry binds its name to a definition
/// of that name, every resolved use points to a definition, and every
/// definition-site entry points to the definition at that site.
pub open spec fn walk_wf(st: WalkState) -> bool {
    &&& forall|f: int, j: int|
        0 <= f < st.scopes.len() && 0 <= j < st.scopes[f].len() ==> (#[trigger] st.scopes[f][j]).1
            < st.defs.len() && st.defs[st.scopes[f][j].1 as int].0 == st.scopes[f][j].0
    &&& forall|j: int| 0 <= j < st.resolve.len() ==> (#[trigger] st.resolve[j]).1 < st.defs.len()
    &&& forall|j: int|
        0 <= j < st.def_index.len() ==> (#[trigger] st.def_index[j]).1 < st.defs.len()
            && st.defs[st.def_index[j].1 as int].1 == st.def_index[j].0
}

/// `b` extends `a`: definitions and both logs are only ever appended to.
pub open spec fn grows(a: WalkState, b: WalkState) -> bool {
    &&& a.defs.len() <= b.defs.len()
    &&& forall|i: int| 0 <= i < a.defs.len() ==> #[trigger] b.defs[i] == a.defs[i]
    &&& a.resolve.len() <= b.resolve.len()
    &&& forall|i: int| 0 <= i < a.resolve.len() ==> #[trigger] b.resolve[i] == a.resolve[i]
    &&& a.def_index.len() <= b.def_index.len()
    &&& forall|i: int| 0 <= i < a.def_index.len() ==> #[trigger] b.def_index[i] == a.def_index[i]
}

/// The frames of `b` start with those of `a`.
pub open spec fn keeps_frames(a: WalkState, b: WalkState) -> bool {
    &&& a.scopes.len() <= b.scopes.len()
    &&& b.scopes.take(a.scopes.len() as int) == a.scopes
}

/// A frame of a consistent state binds a name only to a definition of it.
proof fn lemma_frame_get(st: WalkState, f: int, frame: Seq<(Seq<char>, nat)>, name: Seq<char>)
    requires
        walk_wf(st),
        0 <= f < st.scopes.len(),
        frame.len() <= st.scopes[f].len(),
        frame == st.scopes[f].take(frame.len() as int),
    ensures
        frame_get(frame, name) matches Some(i) ==> i < st.defs.len() && st.defs[i as int].0 == name,
    decreases frame.len(),
{
    if frame.len() > 0 {
        assert(frame.last() == st.scopes[f][frame.len() - 1]);
        assert(frame.drop_last() =~= st.scopes[f].take(frame.len() - 1));
        lemma_frame_get(st, f, frame.drop_last(), name);
    }
}

/// In a consistent state a use resolves only to a definition of the name
/// used.
pub proof fn law_resolution_names(st: WalkState, name: Seq<char>)
    requires
        walk_wf(st),
    ensures
        scopes_get(st.scopes, name) matches Some(i) ==> i < st.defs.len() && st.defs[i as int].0
            == name,
    decreases st.scopes.len(),
{
    if st.scopes.len() > 0 {
        let f = st.scopes.len() - 1;
        assert(st.scopes[f].take(st.scopes[f].len() as int) =~= st.scopes[f]);
        lemma_frame_get(st, f, st.scopes[f], name);
        let rest = WalkState { scopes: st.scopes.drop_last(), ..st };
        assert(walk_wf(rest));
        law_resolution_names(rest, name);
    }
}

/// Entering a definition keeps a state consistent and extends it.
proof fn lemma_enter(st: WalkState, name: Seq<char>, span: Span)
    requires
        walk_wf(st),
        st.scopes.len() > 0,
    ensures
        walk_wf(enter(st, name, span)),
        grows(st, enter(st, name, span)),
        enter(st, name, span).scopes.len() == st.scopes.len(),
        enter(st, name, span).scopes.take(st.scopes.len() - 1) == st.scopes.take(st.scopes.len() - 1),
{
    let s2 = enter(st, name, span);
    assert forall|f: int, j: int|
        0 <= f < s2.scopes.len() && 0 <= j < s2.scopes[f].len() implies (#[trigger] s2.scopes[f][j]).1
        < s2.defs.len() && s2.defs[s2.scopes[f][j].1 as int].0 == s2.scopes[f][j].0 by {
        if f == st.scopes.len() - 1 && j == st.scopes[f].len() {
        } else {
            assert(s2.scopes[f][j] == st.scopes[f][j]);
        }
    }
    assert(s2.scopes.take(st.scopes.len() - 1) =~= st.scopes.take(st.scopes.len() - 1));
}

/// Resolving a use keeps a state consistent and extends it.
proof fn lemma_use(st: WalkState, name: Seq<char>, span: Span)
    requires
        walk_wf(st),
    ensures
        walk_wf(use_name(st, name, span)),
        grows(st, use_name(st, name, span)),
        use_name(st, name, span).scopes == st.scopes,
{
    law_resolution_names(st, name);
}

/// Entering the block-wide bindings keeps a state consistent, extends it
/// and touches only its innermost frame.
proof fn lemma_pre_enter(st: WalkState, stmts: Seq<Stmt>)
    requires
        walk_wf(st),
        st.scopes.len() > 0,
    ensures
        walk_wf(pre_enter(st, stmts)),
        grows(st, pre_enter(st, stmts)),
        pre_enter(st, stmts).scopes.len() == st.scopes.len(),
        pre_enter(st, stmts).scopes.take(st.scopes.len() - 1) == st.scopes.take(st.scopes.len() - 1),
    decreases stmts.len(),
{
    if stmts.len() > 0 {
        lemma_pre_enter(st, stmts.drop_last());
        let s = pre_enter(st, stmts.drop_last());
        if let Stmt::Binding(b) = stmts.last() {
            if !b.restrictive {
                lemma_enter(s, b.name@, b.span);
            }
        }
    }
}

/// Entering the named record fields keeps a state consistent, extends it
/// and touches only its innermost frame.
proof fn lemma_pre_enter_records(st: WalkState, fs: Seq<RecordField>)
    requires
        walk_wf(st),
        st.scopes.len() > 0,
    ensures
        walk_wf(pre_enter_records(st, fs)),
        grows(st, pre_enter_records(st, fs)),
        pre_enter_records(st, fs).scopes.len() == st.scopes.len(),
        pre_enter_records(st, fs).scopes.take(st.scopes.len() - 1) == st.scopes.take(
            st.scopes.len() - 1,
        ),
    decreases fs.len(),
{
    if fs.len() > 0 {
        lemma_pre_enter_records(st, fs.drop_last());
        let s = pre_enter_records(st, fs.drop_last());
        if let Some(n) = fs.last().name {
            if fs.last().field {
                lemma_enter(s, n@, fs.last().span);
            }
        }
    }
}


/// Extension is transitive.
proof fn lemma_grows_trans(a: WalkState, b: WalkState, c: WalkState)
    requires
        grows(a, b),
        grows(b, c),
    ensures
        grows(a, c),
{
    assert forall|i: int| 0 <= i < a.defs.len() implies #[trigger] c.defs[i] == a.defs[i] by {
        assert(c.defs[i] == b.defs[i]);
    }
    assert forall|i: int| 0 <= i < a.resolve.len() implies #[trigger] c.resolve[i] == a.resolve[i] by {
        assert(c.resolve[i] == b.resolve[i]);
    }
    assert forall|i: int| 0 <= i < a.def_index.len() implies #[trigger] c.def_index[i]
        == a.def_index[i] by {
        assert(c.def_index[i] == b.def_index[i]);
    }
}

/// A walk keeps a consistent state consistent, only extends it, and leaves
/// its frames as it found them (`Some` sub-expression or not).
proof fn lemma_walk_opt(st: WalkState, e: Option<Box<Expr>>)
    requires
        walk_wf(st),
    ensures
        walk_wf(walk_opt(st, e)),
        grows(st, walk_opt(st, e)),
        walk_opt(st, e).scopes == st.scopes,
    decreases e,
{
    if let Some(x) = e {
        lemma_walk_expr(st, *x);
    }
}

/// The walk of a sequence of expressions keeps and extends a consistent
/// state and its frames.
proof fn lemma_walk_seq(st: WalkState, es: Seq<Expr>)
    requires
        walk_wf(st),
    ensures
        walk_wf(walk_seq(st, es)),
        grows(st, walk_seq(st, es)),
        walk_seq(st, es).scopes == st.scopes,
    decreases es,
{
    if es.len() > 0 {
        lemma_walk_seq(st, es.drop_last());
        let s = walk_seq(st, es.drop_last());
        lemma_walk_expr(s, es.last());
        lemma_grows_trans(st, s, walk_seq(st, es));
    }
}

/// The walk of struct field types keeps and extends a consistent state and
/// its frames.
proof fn lemma_walk_fields(st: WalkState, fs: Seq<StructField>)
    requires
        walk_wf(st),
    ensures
        walk_wf(walk_fields(st, fs)),
        grows(st, walk_fields(st, fs)),
        walk_fields(st, fs).scopes == st.scopes,
    decreases fs,
{
    if fs.len() > 0 {
        lemma_walk_fields(st, fs.drop_last());
        let s = walk_fields(st, fs.drop_last());
        lemma_walk_expr(s, fs.last().ty);
        lemma_grows_trans(st, s, walk_fields(st, fs));
    }
}

/// The walk of instantiation arguments keeps and extends a consistent state
/// and its frames.
proof fn lemma_walk_args(st: WalkState, fs: Seq<StructInstArg>)
    requires
        walk_wf(st),
    ensures
        walk_wf(walk_args(st, fs)),
        grows(st, walk_args(st, fs)),
        walk_args(st, fs).scopes == st.scopes,
    decreases fs,
{
    if fs.len() > 0 {
        lemma_walk_args(st, fs.drop_last());
        let s = walk_args(st, fs.drop_last());
        lemma_walk_expr(s, fs.last().value);
        lemma_grows_trans(st, s, walk_args(st, fs));
    }
}

/// The walk of table entries keeps and extends a consistent state and its
/// frames.
proof fn lemma_walk_table(st: WalkState, es: Seq<(Expr, Expr)>)
    requires
        walk_wf(st),
    ensures
        walk_wf(walk_table(st, es)),
        grows(st, walk_table(st, es)),
        walk_table(st, es).scopes == st.scopes,
    decreases es,
{
    if es.len() > 0 {
        lemma_walk_table(st, es.drop_last());
        let s = walk_table(st, es.drop_last());
        lemma_walk_expr(s, es.last().0);
        let s2 = walk_expr(s, es.last().0);
        lemma_walk_expr(s2, es.last().1);
        lemma_grows_trans(st, s, s2);
        lemma_grows_trans(st, s2, walk_table(st, es));
    }
}

/// The walk of one statement keeps and extends a consistent state, and
/// keeps its frames (a restrictive binding adds one).
proof fn lemma_walk_stmt(st: WalkState, s: Stmt)
    requires
        walk_wf(st),
    ensures
        walk_wf(walk_stmt(st, s)),
        grows(st, walk_stmt(st, s)),
        keeps_frames(st, walk_stmt(st, s)),
    decreases s,
{
    match s {
        Stmt::Binding(b) => {
            lemma_walk_expr(st, b.value);
            let s1 = walk_expr(st, b.value);
            if b.restrictive {
                let s2 = push_frame(s1);
                lemma_enter(s2, b.name@, b.span);
                lemma_grows_trans(st, s2, enter(s2, b.name@, b.span));
                assert(s2.scopes.take(s2.scopes.len() - 1) =~= st.scopes);
            } else {
                assert(st.scopes.take(st.scopes.len() as int) =~= st.scopes);
            }
        },
        Stmt::Expr(e) => {
            lemma_walk_expr(st, e);
            assert(st.scopes.take(st.scopes.len() as int) =~= st.scopes);
        },
    }
}

/// The walk of statements keeps and extends a consistent state and keeps
/// its frames.
proof fn lemma_walk_stmts(st: WalkState, ss: Seq<Stmt>)
    requires
        walk_wf(st),
    ensures
        walk_wf(walk_stmts(st, ss)),
        grows(st, walk_stmts(st, ss)),
        keeps_frames(st, walk_stmts(st, ss)),
    decreases ss,
{
    if ss.len() == 0 {
        assert(st.scopes.take(st.scopes.len() as int) =~= st.scopes);
    } else {
        lemma_walk_stmts(st, ss.drop_last());
        let s = walk_stmts(st, ss.drop_last());
        lemma_walk_stmt(s, ss.last());
        let s2 = walk_stmts(st, ss);
        lemma_grows_trans(st, s, s2);
        assert(s2.scopes.take(st.scopes.len() as int) =~= s2.scopes.take(s.scopes.len() as int).take(
            st.scopes.len() as int,
        ));
    }
}

/// The walk of one record field keeps and extends a consistent state, and
/// keeps its frames.
proof fn lemma_walk_record(st: WalkState, f: RecordField)
    requires
        walk_wf(st),
    ensures
        walk_wf(walk_record(st, f)),
        grows(st, walk_record(st, f)),
        keeps_frames(st, walk_record(st, f)),
    decreases f,
{
    lemma_walk_expr(st, f.value);
    let s1 = walk_expr(st, f.value);
    match f.name {
        Some(n) => {
            if !f.field {
                let s2 = push_frame(s1);
                lemma_enter(s2, n@, f.span);
                lemma_grows_trans(st, s2, enter(s2, n@, f.span));
                assert(s2.scopes.take(s2.scopes.len() - 1) =~= st.scopes);
            } else {
                assert(st.scopes.take(st.scopes.len() as int) =~= st.scopes);
            }
        },
        None => {
            assert(st.scopes.take(st.scopes.len() as int) =~= st.scopes);
        },
    }
}

/// The walk of record fields keeps and extends a consistent state and keeps
/// its frames.
proof fn lemma_walk_records(st: WalkState, fs: Seq<RecordField>)
    requires
        walk_wf(st),
    ensures
        walk_wf(walk_records(st, fs)),
        grows(st, walk_records(st, fs)),
        keeps_frames(st, walk_records(st, fs)),
    decreases fs,
{
    if fs.len() == 0 {
        assert(st.scopes.take(st.scopes.len() as int) =~= st.scopes);
    } else {
        lemma_walk_records(st, fs.drop_last());
        let s = walk_records(st, fs.drop_last());
        lemma_walk_record(s, fs.last());
        let s2 = walk_records(st, fs);
        lemma_grows_trans(st, s, s2);
        assert(s2.scopes.take(st.scopes.len() as int) =~= s2.scopes.take(s.scopes.len() as int).take(
            st.scopes.len() as int,
        ));
    }
}

/// The walk of an expression keeps and extends a consistent state and leaves
/// its frames as it found them.
proof fn lemma_walk_expr(st: WalkState, e: Expr)
    requires
        walk_wf(st),
    ensures
        walk_wf(walk_expr(st, e)),
        grows(st, walk_expr(st, e)),
        walk_expr(st, e).scopes == st.scopes,
    decreases e,
{
    match e {
        Expr::Name(n, sp) => {
            lemma_use(st, n@, sp);
        },
        Expr::Lambda { parameter, parameter_span, parameter_type, parameter_perspective, result, .. } => {
            let base = st.scopes.len();
            let s0 = push_frame(st);
            lemma_enter(s0, parameter@, parameter_span);
            let s1 = enter(s0, parameter@, parameter_span);
            lemma_walk_opt(s1, parameter_type);
            let s2 = walk_opt(s1, parameter_type);
            lemma_walk_opt(s2, parameter_perspective);
            let s3 = walk_opt(s2, parameter_perspective);
            lemma_walk_expr(s3, *result);
            let s4 = walk_expr(s3, *result);
            lemma_grows_trans(st, s1, s2);
            lemma_grows_trans(st, s2, s3);
            lemma_grows_trans(st, s3, s4);
            assert(s4.scopes.take(base as int) =~= st.scopes);
        },
        Expr::Apply { function, argument, .. } => {
            lemma_walk_expr(st, *function);
            lemma_walk_expr(walk_expr(st, *function), *argument);
            lemma_grows_trans(st, walk_expr(st, *function), walk_expr(st, e));
        },
        Expr::BinOp { left, right, .. } => {
            lemma_walk_expr(st, *left);
            lemma_walk_expr(walk_expr(st, *left), *right);
            lemma_grows_trans(st, walk_expr(st, *left), walk_expr(st, e));
        },
        Expr::If { condition, then_branch, else_branch, .. } => {
            let s1 = walk_expr(st, *condition);
            let s2 = walk_expr(s1, *then_branch);
            lemma_walk_expr(st, *condition);
            lemma_walk_expr(s1, *then_branch);
            lemma_walk_expr(s2, *else_branch);
            lemma_grows_trans(st, s1, s2);
            lemma_grows_trans(st, s2, walk_expr(st, e));
        },
        Expr::Assert { value, .. } => {
            lemma_walk_expr(st, *value);
        },
        Expr::NativeCall { args, .. } => {
            lemma_walk_seq(st, args@);
        },
        Expr::Index { array, index, .. } => {
            lemma_walk_expr(st, *array);
            lemma_walk_expr(walk_expr(st, *array), *index);
            lemma_grows_trans(st, walk_expr(st, *array), walk_expr(st, e));
        },
        Expr::FieldRead { container, key, .. } => {
            lemma_walk_expr(st, *container);
            lemma_walk_expr(walk_expr(st, *container), *key);
            lemma_grows_trans(st, walk_expr(st, *container), walk_expr(st, e));
        },
        Expr::NamedFieldRead { container, .. } => {
            lemma_walk_expr(st, *container);
        },
        Expr::TableFind { container, key, .. } => {
            lemma_walk_expr(st, *container);
            lemma_walk_expr(walk_expr(st, *container), *key);
            lemma_grows_trans(st, walk_expr(st, *container), walk_expr(st, e));
        },
        Expr::Annotation { value, annotation, perspective, .. } => {
            let s1 = walk_expr(st, *value);
            let s2 = walk_opt(s1, annotation);
            lemma_walk_expr(st, *value);
            lemma_walk_opt(s1, annotation);
            lemma_walk_opt(s2, perspective);
            lemma_grows_trans(st, s1, s2);
            lemma_grows_trans(st, s2, walk_expr(st, e));
        },
        Expr::Arrow { parameter, result, .. } => {
            lemma_walk_expr(st, *parameter);
            lemma_walk_expr(walk_expr(st, *parameter), *result);
            lemma_grows_trans(st, walk_expr(st, *parameter), walk_expr(st, e));
        },
        Expr::Tuple(elems, _) => {
            lemma_walk_seq(st, elems@);
        },
        Expr::TypeTuple(elems, _) => {
            lemma_walk_seq(st, elems@);
        },
        Expr::Array(elems, _) => {
            lemma_walk_seq(st, elems@);
        },
        Expr::StructType(fields, _) => {
            lemma_walk_fields(st, fields@);
        },
        Expr::StructInst { callee, fields, .. } => {
            lemma_walk_expr(st, *callee);
            lemma_walk_args(walk_expr(st, *callee), fields@);
            lemma_grows_trans(st, walk_expr(st, *callee), walk_expr(st, e));
        },
        Expr::Table(entries, _) => {
            lemma_walk_table(st, entries@);
        },
        Expr::Shallow(inner, _, _) => {
            lemma_walk_expr(st, *inner);
        },
        Expr::TypeArray { element_type, length, .. } => {
            lemma_walk_expr(st, *element_type);
            lemma_walk_expr(walk_expr(st, *element_type), *length);
            lemma_grows_trans(st, walk_expr(st, *element_type), walk_expr(st, e));
        },
        Expr::Block { statements, expr, .. } => {
            let base = st.scopes.len();
            let s0 = push_frame(st);
            lemma_pre_enter(s0, statements@);
            let s1 = pre_enter(s0, statements@);
            lemma_walk_stmts(s1, statements@);
            let s2 = walk_stmts(s1, statements@);
            lemma_walk_expr(s2, *expr);
            let s3 = walk_expr(s2, *expr);
            lemma_grows_trans(st, s1, s2);
            lemma_grows_trans(st, s2, s3);
            assert(s0.scopes.take(base as int) =~= st.scopes);
            assert(s3.scopes.take(base as int) =~= s2.scopes.take(s1.scopes.len() as int).take(
                base as int,
            ));
            assert(s3.scopes.take(base as int) =~= st.scopes);
        },
        Expr::RecordBlock { fields, .. } => {
            let base = st.scopes.len();
            let s0 = push_frame(st);
            lemma_pre_enter_records(s0, fields@);
            let s1 = pre_enter_records(s0, fields@);
            lemma_walk_records(s1, fields@);
            let s2 = walk_records(s1, fields@);
            lemma_grows_trans(st, s1, s2);
            assert(s0.scopes.take(base as int) =~= st.scopes);
            assert(s2.scopes.take(base as int) =~= s2.scopes.take(s1.scopes.len() as int).take(
                base as int,
            ));
            assert(s2.scopes.take(base as int) =~= st.scopes);
        },
        _ => {},
    }
}

/// A program's resolution starts from a consistent state.
proof fn lemma_import_state(imports: Seq<(Seq<char>, Span)>)
    ensures
        walk_wf(import_state(imports)),
{
    let empty = WalkState {
        defs: Seq::empty(),
        scopes: Seq::empty(),
        resolve: Seq::empty(),
        def_index: Seq::empty(),
    };
    if imports.len() > 0 {
        lemma_enter_all(push_frame(empty), imports);
    }
}

/// Entering names keeps a consistent state consistent.
proof fn lemma_enter_all(st: WalkState, imports: Seq<(Seq<char>, Span)>)
    requires
        walk_wf(st),
        st.scopes.len() > 0,
    ensures
        walk_wf(enter_all(st, imports)),
        enter_all(st, imports).scopes.len() == st.scopes.len(),
    decreases imports.len(),
{
    if imports.len() > 0 {
        lemma_enter_all(st, imports.drop_last());
        lemma_enter(enter_all(st, imports.drop_last()), imports.last().0, imports.last().1);
    }
}

/// Resolution is consistent: in the result of resolving a program, every
/// resolved use points to a definition, and every definition-site entry to
/// the definition at that site; the walk of any expression from a
/// consistent state stays consistent, only adds definitions and log
/// entries, and leaves the scope frames as it found them.
pub proof fn law_walk_consistent(
    st: WalkState,
    e: Expr,
    stmts: Seq<Stmt>,
    tail: Expr,
    imports: Seq<(Seq<char>, Span)>,
)
    requires
        walk_wf(st),
    ensures
        walk_wf(walk_expr(st, e)),
        grows(st, walk_expr(st, e)),
        walk_expr(st, e).scopes == st.scopes,
        walk_wf(program_index(stmts, tail, imports)),
{
    lemma_walk_expr(st, e);
    lemma_import_state(imports);
    let s = import_state(imports);
    let base = s.scopes.len();
    let s0 = push_frame(s);
    lemma_pre_enter(s0, stmts);
    lemma_walk_stmts(pre_enter(s0, stmts), stmts);
    lemma_walk_expr(walk_stmts(pre_enter(s0, stmts), stmts), tail);
    let s3 = walk_expr(walk_stmts(pre_enter(s0, stmts), stmts), tail);
    assert(walk_wf(truncate(s3, base)));
}


// ---------------------------------------------------------------------------
// Every bound use is resolved

/// Whether `scopes` binds `name`.
pub open spec fn binds(scopes: Seq<Seq<(Seq<char>, nat)>>, name: Seq<char>) -> bool {
    scopes_get(scopes, name) is Some
}

/// Whether a log holds an entry at `span`.
pub open spec fn has_entry(log: Seq<(Span, nat)>, span: Span) -> bool {
    exists|k: int| 0 <= k < log.len() && (#[trigger] log[k]).0 == span
}

/// Whether `e` uses `name` at `span` where the walk reads it: every plain
/// name, anywhere in the expression (the names a binder introduces are no
/// uses).
pub open spec fn uses_expr(e: Expr, name: Seq<char>, span: Span) -> bool
    decreases e,
{
    match e {
        Expr::Name(n, s) => n@ == name && s == span,
        Expr::Lambda { parameter_type, parameter_perspective, result, .. } => uses_opt(parameter_type, name, span)
            || uses_opt(parameter_perspective, name, span) || uses_expr(*result, name, span),
        Expr::Apply { function, argument, .. } => uses_expr(*function, name, span) || uses_expr(*argument, name, span),
        Expr::BinOp { left, right, .. } => uses_expr(*left, name, span) || uses_expr(*right, name, span),
        Expr::If { condition, then_branch, else_branch, .. } => uses_expr(*condition, name, span)
            || uses_expr(*then_branch, name, span) || uses_expr(*else_branch, name, span),
        Expr::Assert { value, .. } => uses_expr(*value, name, span),
        Expr::NativeCall { args, .. } => uses_seq(args@, name, span),
        Expr::Index { array, index, .. } => uses_expr(*array, name, span) || uses_expr(*index, name, span),
        Expr::FieldRead { container, key, .. } => uses_expr(*container, name, span) || uses_expr(*key, name, span),
        Expr::NamedFieldRead { container, .. } => uses_expr(*container, name, span),
        Expr::TableFind { container, key, .. } => uses_expr(*container, name, span) || uses_expr(*key, name, span),
        Expr::Annotation { value, annotation, perspective, .. } => uses_expr(*value, name, span)
            || uses_opt(annotation, name, span) || uses_opt(perspective, name, span),
        Expr::Arrow { parameter, result, .. } => uses_expr(*parameter, name, span) || uses_expr(*result, name, span),
        Expr::Tuple(elems, _) => uses_seq(elems@, name, span),
        Expr::TypeTuple(elems, _) => uses_seq(elems@, name, span),
        Expr::Array(elems, _) => uses_seq(elems@, name, span),
        Expr::StructType(fields, _) => uses_fields(fields@, name, span),
        Expr::StructInst { callee, fields, .. } => uses_expr(*callee, name, span) || uses_args(fields@, name, span),
        Expr::Table(entries, _) => uses_table(entries@, name, span),
        Expr::Shallow(inner, _, _) => uses_expr(*inner, name, span),
        Expr::TypeArray { element_type, length, .. } => uses_expr(*element_type, name, span)
            || uses_expr(*length, name, span),
        Expr::Block { statements, expr, .. } => uses_stmts(statements@, name, span) || uses_expr(*expr, name, span),
        Expr::RecordBlock { fields, .. } => uses_records(fields@, name, span),
        _ => false,
    }
}

pub open spec fn uses_opt(e: Option<Box<Expr>>, name: Seq<char>, span: Span) -> bool
    decreases e,
{
    match e {
        Some(x) => uses_expr(*x, name, span),
        None => false,
    }
}

pub open spec fn uses_seq(es: Seq<Expr>, name: Seq<char>, span: Span) -> bool
    decreases es,
{
    if es.len() == 0 {
        false
    } else {
        uses_seq(es.drop_last(), name, span) || uses_expr(es.last(), name, span)
    }
}

pub open spec fn uses_fields(fs: Seq<StructField>, name: Seq<char>, span: Span) -> bool
    decreases fs,
{
    if fs.len() == 0 {
        false
    } else {
        uses_fields(fs.drop_last(), name, span) || uses_expr(fs.last().ty, name, span)
    }
}

pub open spec fn uses_args(fs: Seq<StructInstArg>, name: Seq<char>, span: Span) -> bool
    decreases fs,
{
    if fs.len() == 0 {
        false
    } else {
        uses_args(fs.drop_last(), name, span) || uses_expr(fs.last().value, name, span)
    }
}

pub open spec fn uses_table(es: Seq<(Expr, Expr)>, name: Seq<char>, span: Span) -> bool
    decreases es,
{
    if es.len() == 0 {
        false
    } else {
        uses_table(es.drop_last(), name, span) || uses_expr(es.last().0, name, span)
            || uses_expr(es.last().1, name, span)
    }
}

pub open spec fn uses_stmt(s: Stmt, name: Seq<char>, span: Span) -> bool
    decreases s,
{
    match s {
        Stmt::Binding(b) => uses_expr(b.value, name, span),
        Stmt::Expr(e) => uses_expr(e, name, span),
    }
}

pub open spec fn uses_stmts(ss: Seq<Stmt>, name: Seq<char>, span: Span) -> bool
    decreases ss,
{
    if ss.len() == 0 {
        false
    } else {
        uses_stmts(ss.drop_last(), name, span) || uses_stmt(ss.last(), name, span)
    }
}

pub open spec fn uses_record(f: RecordField, name: Seq<char>, span: Span) -> bool
    decreases f,
{
    uses_expr(f.value, name, span)
}

pub open spec fn uses_records(fs: Seq<RecordField>, name: Seq<char>, span: Span) -> bool
    decreases fs,
{
    if fs.len() == 0 {
        false
    } else {
        uses_records(fs.drop_last(), name, span) || uses_record(fs.last(), name, span)
    }
}

proof fn lemma_frame_push_binds(f: Seq<(Seq<char>, nat)>, x: (Seq<char>, nat), name: Seq<char>)
    requires
        frame_get(f, name) is Some,
    ensures
        frame_get(f.push(x), name) is Some,
{
    assert(f.push(x).drop_last() =~= f);
}

proof fn lemma_binds_take(s: Seq<Seq<(Seq<char>, nat)>>, k: int, name: Seq<char>)
    requires
        0 <= k <= s.len(),
        binds(s.take(k), name),
    ensures
        binds(s, name),
    decreases s.len(),
{
    if k == s.len() {
        assert(s.take(k) =~= s);
    } else {
        assert(s.drop_last().take(k) =~= s.take(k));
        lemma_binds_take(s.drop_last(), k, name);
    }
}

proof fn lemma_binds_enter(st: WalkState, n: Seq<char>, span: Span, name: Seq<char>)
    requires
        st.scopes.len() > 0,
        binds(st.scopes, name),
    ensures
        binds(enter(st, n, span).scopes, name),
        enter(st, n, span).scopes.len() == st.scopes.len(),
        enter(st, n, span).resolve == st.resolve,
{
    let s = st.scopes;
    let t = enter(st, n, span).scopes;
    assert(t.drop_last() =~= s.drop_last());
    assert(t.last() == s.last().push((n, st.defs.len())));
    if frame_get(s.last(), name) is Some {
        lemma_frame_push_binds(s.last(), (n, st.defs.len()), name);
    }
}

proof fn lemma_binds_push_frame(st: WalkState, name: Seq<char>)
    requires
        binds(st.scopes, name),
    ensures
        binds(push_frame(st).scopes, name),
{
    assert(push_frame(st).scopes.take(st.scopes.len() as int) =~= st.scopes);
    lemma_binds_take(push_frame(st).scopes, st.scopes.len() as int, name);
}

proof fn lemma_binds_pre_enter(st: WalkState, stmts: Seq<Stmt>, name: Seq<char>)
    requires
        st.scopes.len() > 0,
        binds(st.scopes, name),
    ensures
        binds(pre_enter(st, stmts).scopes, name),
        pre_enter(st, stmts).scopes.len() == st.scopes.len(),
    decreases stmts.len(),
{
    if stmts.len() > 0 {
        lemma_binds_pre_enter(st, stmts.drop_last(), name);
        let s = pre_enter(st, stmts.drop_last());
        if let Stmt::Binding(b) = stmts.last() {
            if !b.restrictive {
                lemma_binds_enter(s, b.name@, b.span, name);
            }
        }
    }
}

proof fn lemma_binds_pre_enter_records(st: WalkState, fs: Seq<RecordField>, name: Seq<char>)
    requires
        st.scopes.len() > 0,
        binds(st.scopes, name),
    ensures
        binds(pre_enter_records(st, fs).scopes, name),
        pre_enter_records(st, fs).scopes.len() == st.scopes.len(),
    decreases fs.len(),
{
    if fs.len() > 0 {
        lemma_binds_pre_enter_records(st, fs.drop_last(), name);
        let s = pre_enter_records(st, fs.drop_last());
        if let Some(n) = fs.last().name {
            if fs.last().field {
                lemma_binds_enter(s, n@, fs.last().span, name);
            }
        }
    }
}

proof fn lemma_entry_grows(a: WalkState, b: WalkState, span: Span)
    requires
        grows(a, b),
        has_entry(a.resolve, span),
    ensures
        has_entry(b.resolve, span),
{
    let k = choose|k: int| 0 <= k < a.resolve.len() && (#[trigger] a.resolve[k]).0 == span;
    assert(b.resolve[k] == a.resolve[k]);
}

proof fn lemma_binds_kept(a: WalkState, b: WalkState, name: Seq<char>)
    requires
        keeps_frames(a, b),
        binds(a.scopes, name),
    ensures
        binds(b.scopes, name),
{
    lemma_binds_take(b.scopes, a.scopes.len() as int, name);
}



proof fn lemma_cover_opt(st: WalkState, x: Option<Box<Expr>>, n: Seq<char>, sp: Span)
    requires
        walk_wf(st),
        uses_opt(x, n, sp),
        binds(st.scopes, n),
    ensures
        has_entry(walk_opt(st, x).resolve, sp),
    decreases x,
{
    if let Some(y) = x {
        lemma_cover_expr(st, *y, n, sp);
    }
}


proof fn lemma_cover_seq(st: WalkState, x: Seq<Expr>, n: Seq<char>, sp: Span)
    requires
        walk_wf(st),
        uses_seq(x, n, sp),
        binds(st.scopes, n),
    ensures
        has_entry(walk_seq(st, x).resolve, sp),
    decreases x,
{
    lemma_walk_seq(st, x.drop_last());
    let s = walk_seq(st, x.drop_last());
    lemma_walk_expr(s, x.last());
    if uses_seq(x.drop_last(), n, sp) {
        lemma_cover_seq(st, x.drop_last(), n, sp);
        lemma_entry_grows(s, walk_seq(st, x), sp);
    } else {
        
        lemma_cover_expr(s, x.last(), n, sp);
    }
}


proof fn lemma_cover_fields(st: WalkState, x: Seq<StructField>, n: Seq<char>, sp: Span)
    requires
        walk_wf(st),
        uses_fields(x, n, sp),
        binds(st.scopes, n),
    ensures
        has_entry(walk_fields(st, x).resolve, sp),
    decreases x,
{
    lemma_walk_fields(st, x.drop_last());
    let s = walk_fields(st, x.drop_last());
    lemma_walk_expr(s, x.last().ty);
    if uses_fields(x.drop_last(), n, sp) {
        lemma_cover_fields(st, x.drop_last(), n, sp);
        lemma_entry_grows(s, walk_fields(st, x), sp);
    } else {
        
        lemma_cover_expr(s, x.last().ty, n, sp);
    }
}


proof fn lemma_cover_args(st: WalkState, x: Seq<StructInstArg>, n: Seq<char>, sp: Span)
    requires
        walk_wf(st),
        uses_args(x, n, sp),
        binds(st.scopes, n),
    ensures
        has_entry(walk_args(st, x).resolve, sp),
    decreases x,
{
    lemma_walk_args(st, x.drop_last());
    let s = walk_args(st, x.drop_last());
    lemma_walk_expr(s, x.last().value);
    if uses_args(x.drop_last(), n, sp) {
        lemma_cover_args(st, x.drop_last(), n, sp);
        lemma_entry_grows(s, walk_args(st, x), sp);
    } else {
        
        lemma_cover_expr(s, x.last().value, n, sp);
    }
}


proof fn lemma_cover_stmts(st: WalkState, x: Seq<Stmt>, n: Seq<char>, sp: Span)
    requires
        walk_wf(st),
        uses_stmts(x, n, sp),
        binds(st.scopes, n),
    ensures
        has_entry(walk_stmts(st, x).resolve, sp),
    decreases x,
{
    lemma_walk_stmts(st, x.drop_last());
    let s = walk_stmts(st, x.drop_last());
    lemma_walk_stmt(s, x.last());
    if uses_stmts(x.drop_last(), n, sp) {
        lemma_cover_stmts(st, x.drop_last(), n, sp);
        lemma_entry_grows(s, walk_stmts(st, x), sp);
    } else {
        lemma_binds_kept(st, s, n);
        lemma_cover_stmt(s, x.last(), n, sp);
    }
}


proof fn lemma_cover_records(st: WalkState, x: Seq<RecordField>, n: Seq<char>, sp: Span)
    requires
        walk_wf(st),
        uses_records(x, n, sp),
        binds(st.scopes, n),
    ensures
        has_entry(walk_records(st, x).resolve, sp),
    decreases x,
{
    lemma_walk_records(st, x.drop_last());
    let s = walk_records(st, x.drop_last());
    lemma_walk_record(s, x.last());
    if uses_records(x.drop_last(), n, sp) {
        lemma_cover_records(st, x.drop_last(), n, sp);
        lemma_entry_grows(s, walk_records(st, x), sp);
    } else {
        lemma_binds_kept(st, s, n);
        lemma_cover_record(s, x.last(), n, sp);
    }
}


proof fn lemma_cover_table(st: WalkState, x: Seq<(Expr, Expr)>, n: Seq<char>, sp: Span)
    requires
        walk_wf(st),
        uses_table(x, n, sp),
        binds(st.scopes, n),
    ensures
        has_entry(walk_table(st, x).resolve, sp),
    decreases x,
{
    lemma_walk_table(st, x.drop_last());
    let s = walk_table(st, x.drop_last());
    lemma_walk_expr(s, x.last().0);
    let s2 = walk_expr(s, x.last().0);
    lemma_walk_expr(s2, x.last().1);
    if uses_table(x.drop_last(), n, sp) {
        lemma_cover_table(st, x.drop_last(), n, sp);
        lemma_entry_grows(s, s2, sp);
        lemma_entry_grows(s2, walk_table(st, x), sp);
    } else if uses_expr(x.last().0, n, sp) {
        lemma_cover_expr(s, x.last().0, n, sp);
        lemma_entry_grows(s2, walk_table(st, x), sp);
    } else {
        lemma_cover_expr(s2, x.last().1, n, sp);
    }
}


proof fn lemma_cover_stmt(st: WalkState, x: Stmt, n: Seq<char>, sp: Span)
    requires
        walk_wf(st),
        uses_stmt(x, n, sp),
        binds(st.scopes, n),
    ensures
        has_entry(walk_stmt(st, x).resolve, sp),
    decreases x,
{
    match x {
        Stmt::Binding(b) => {
            lemma_cover_expr(st, b.value, n, sp);
        },
        Stmt::Expr(e) => {
            lemma_cover_expr(st, e, n, sp);
        },
    }
}


proof fn lemma_cover_record(st: WalkState, x: RecordField, n: Seq<char>, sp: Span)
    requires
        walk_wf(st),
        uses_record(x, n, sp),
        binds(st.scopes, n),
    ensures
        has_entry(walk_record(st, x).resolve, sp),
    decreases x,
{
    lemma_cover_expr(st, x.value, n, sp);
}


proof fn lemma_cover_expr(st: WalkState, x: Expr, n: Seq<char>, sp: Span)
    requires
        walk_wf(st),
        uses_expr(x, n, sp),
        binds(st.scopes, n),
    ensures
        has_entry(walk_expr(st, x).resolve, sp),
    decreases x,
{
    match x {
        Expr::Name(nm, sp0) => {
            let r = walk_expr(st, x).resolve;
            assert(r[r.len() - 1].0 == sp);
        },
        Expr::Lambda { parameter, parameter_span, parameter_type, parameter_perspective, result, .. } => {
            let s0 = push_frame(st);
            lemma_enter(s0, parameter@, parameter_span);
            let s1 = enter(s0, parameter@, parameter_span);
            lemma_binds_push_frame(st, n);
            lemma_binds_enter(s0, parameter@, parameter_span, n);
            lemma_walk_opt(s1, parameter_type);
            let s2 = walk_opt(s1, parameter_type);
            lemma_walk_opt(s2, parameter_perspective);
            let s3 = walk_opt(s2, parameter_perspective);
            lemma_walk_expr(s3, *result);
            let s4 = walk_expr(s3, *result);
            if uses_opt(parameter_type, n, sp) {
                lemma_cover_opt(s1, parameter_type, n, sp);
                lemma_entry_grows(s2, s3, sp);
                lemma_entry_grows(s3, s4, sp);
            } else if uses_opt(parameter_perspective, n, sp) {
                lemma_cover_opt(s2, parameter_perspective, n, sp);
                lemma_entry_grows(s3, s4, sp);
            } else {
                lemma_cover_expr(s3, *result, n, sp);
            }
        },
        Expr::Apply { function, argument, .. } => {
            lemma_walk_expr(st, *function);
            let s1 = walk_expr(st, *function);
            lemma_walk_expr(s1, *argument);
            if uses_expr(*function, n, sp) {
                lemma_cover_expr(st, *function, n, sp);
                lemma_entry_grows(s1, walk_expr(st, x), sp);
            } else {
                lemma_cover_expr(s1, *argument, n, sp);
            }
        },
        Expr::BinOp { left, right, .. } => {
            lemma_walk_expr(st, *left);
            let s1 = walk_expr(st, *left);
            lemma_walk_expr(s1, *right);
            if uses_expr(*left, n, sp) {
                lemma_cover_expr(st, *left, n, sp);
                lemma_entry_grows(s1, walk_expr(st, x), sp);
            } else {
                lemma_cover_expr(s1, *right, n, sp);
            }
        },
        Expr::Index { array, index, .. } => {
            lemma_walk_expr(st, *array);
            let s1 = walk_expr(st, *array);
            lemma_walk_expr(s1, *index);
            if uses_expr(*array, n, sp) {
                lemma_cover_expr(st, *array, n, sp);
                lemma_entry_grows(s1, walk_expr(st, x), sp);
            } else {
                lemma_cover_expr(s1, *index, n, sp);
            }
        },
        Expr::FieldRead { container, key, .. } => {
            lemma_walk_expr(st, *container);
            let s1 = walk_expr(st, *container);
            lemma_walk_expr(s1, *key);
            if uses_expr(*container, n, sp) {
                lemma_cover_expr(st, *container, n, sp);
                lemma_entry_grows(s1, walk_expr(st, x), sp);
            } else {
                lemma_cover_expr(s1, *key, n, sp);
            }
        },
        Expr::TableFind { container, key, .. } => {
            lemma_walk_expr(st, *container);
            let s1 = walk_expr(st, *container);
            lemma_walk_expr(s1, *key);
            if uses_expr(*container, n, sp) {
                lemma_cover_expr(st, *container, n, sp);
                lemma_entry_grows(s1, walk_expr(st, x), sp);
            } else {
                lemma_cover_expr(s1, *key, n, sp);
            }
        },
        Expr::Arrow { parameter, result, .. } => {
            lemma_walk_expr(st, *parameter);
            let s1 = walk_expr(st, *parameter);
            lemma_walk_expr(s1, *result);
            if uses_expr(*parameter, n, sp) {
                lemma_cover_expr(st, *parameter, n, sp);
                lemma_entry_grows(s1, walk_expr(st, x), sp);
            } else {
                lemma_cover_expr(s1, *result, n, sp);
            }
        },
        Expr::TypeArray { element_type, length, .. } => {
            lemma_walk_expr(st, *element_type);
            let s1 = walk_expr(st, *element_type);
            lemma_walk_expr(s1, *length);
            if uses_expr(*element_type, n, sp) {
                lemma_cover_expr(st, *element_type, n, sp);
                lemma_entry_grows(s1, walk_expr(st, x), sp);
            } else {
                lemma_cover_expr(s1, *length, n, sp);
            }
        },
        Expr::If { condition, then_branch, else_branch, .. } => {
            lemma_walk_expr(st, *condition);
            let s1 = walk_expr(st, *condition);
            lemma_walk_expr(s1, *then_branch);
            let s2 = walk_expr(s1, *then_branch);
            lemma_walk_expr(s2, *else_branch);
            if uses_expr(*condition, n, sp) {
                lemma_cover_expr(st, *condition, n, sp);
                lemma_entry_grows(s1, s2, sp);
                lemma_entry_grows(s2, walk_expr(st, x), sp);
            } else if uses_expr(*then_branch, n, sp) {
                lemma_cover_expr(s1, *then_branch, n, sp);
                lemma_entry_grows(s2, walk_expr(st, x), sp);
            } else {
                lemma_cover_expr(s2, *else_branch, n, sp);
            }
        },
        Expr::Assert { value, .. } => {
            lemma_cover_expr(st, *value, n, sp);
        },
        Expr::NamedFieldRead { container, .. } => {
            lemma_cover_expr(st, *container, n, sp);
        },
        Expr::Shallow(inner, _, _) => {
            lemma_cover_expr(st, *inner, n, sp);
        },
        Expr::NativeCall { args, .. } => {
            lemma_cover_seq(st, args@, n, sp);
        },
        Expr::Tuple(elems, _) => {
            lemma_cover_seq(st, elems@, n, sp);
        },
        Expr::TypeTuple(elems, _) => {
            lemma_cover_seq(st, elems@, n, sp);
        },
        Expr::Array(elems, _) => {
            lemma_cover_seq(st, elems@, n, sp);
        },
        Expr::StructType(fields, _) => {
            lemma_cover_fields(st, fields@, n, sp);
        },
        Expr::Table(entries, _) => {
            lemma_cover_table(st, entries@, n, sp);
        },
        Expr::Annotation { value, annotation, perspective, .. } => {
            lemma_walk_expr(st, *value);
            let s1 = walk_expr(st, *value);
            lemma_walk_opt(s1, annotation);
            let s2 = walk_opt(s1, annotation);
            lemma_walk_opt(s2, perspective);
            if uses_expr(*value, n, sp) {
                lemma_cover_expr(st, *value, n, sp);
                lemma_entry_grows(s1, s2, sp);
                lemma_entry_grows(s2, walk_expr(st, x), sp);
            } else if uses_opt(annotation, n, sp) {
                lemma_cover_opt(s1, annotation, n, sp);
                lemma_entry_grows(s2, walk_expr(st, x), sp);
            } else {
                lemma_cover_opt(s2, perspective, n, sp);
            }
        },
        Expr::StructInst { callee, fields, .. } => {
            lemma_walk_expr(st, *callee);
            let s1 = walk_expr(st, *callee);
            lemma_walk_args(s1, fields@);
            if uses_expr(*callee, n, sp) {
                lemma_cover_expr(st, *callee, n, sp);
                lemma_entry_grows(s1, walk_expr(st, x), sp);
            } else {
                lemma_cover_args(s1, fields@, n, sp);
            }
        },
        Expr::Block { statements, expr, .. } => {
            let s0 = push_frame(st);
            lemma_pre_enter(s0, statements@);
            let s1 = pre_enter(s0, statements@);
            lemma_walk_stmts(s1, statements@);
            let s2 = walk_stmts(s1, statements@);
            lemma_walk_expr(s2, *expr);
            let s3 = walk_expr(s2, *expr);
            lemma_binds_push_frame(st, n);
            lemma_binds_pre_enter(s0, statements@, n);
            if uses_stmts(statements@, n, sp) {
                lemma_cover_stmts(s1, statements@, n, sp);
                lemma_entry_grows(s2, s3, sp);
            } else {
                lemma_binds_kept(s1, s2, n);
                lemma_cover_expr(s2, *expr, n, sp);
            }
        },
        Expr::RecordBlock { fields, .. } => {
            let s0 = push_frame(st);
            lemma_pre_enter_records(s0, fields@);
            let s1 = pre_enter_records(s0, fields@);
            lemma_binds_push_frame(st, n);
            lemma_binds_pre_enter_records(s0, fields@, n);
            lemma_cover_records(s1, fields@, n, sp);
        },
        _ => {},
    }
}


/// Resolution reaches every use: walking an expression from a consistent
/// state logs a resolution at the span of every plain name in it — on both
/// sides of an operator or application, in the condition and both branches
/// of an `if`, in a lambda's body, in every element, field, argument, entry,
/// statement and record field, at any depth — whose name the enclosing
/// frames bind (a binder inside the expression may shadow it, but the use is
/// resolved all the same).
pub proof fn law_every_bound_use_resolved(st: WalkState, e: Expr, name: Seq<char>, span: Span)
    requires
        walk_wf(st),
        uses_expr(e, name, span),
        binds(st.scopes, name),
    ensures
        has_entry(walk_expr(st, e).resolve, span),
{
    lemma_cover_expr(st, e, name, span);
}

/// Entering a name binds it.
proof fn lemma_enter_binds_self(st: WalkState, n: Seq<char>, span: Span)
    requires
        st.scopes.len() > 0,
    ensures
        binds(enter(st, n, span).scopes, n),
{
    let t = enter(st, n, span).scopes;
    assert(t.last() == st.scopes.last().push((n, st.defs.len())));
    assert(t.last().last().0 == n);
}

/// Entering the imports binds each of them.
proof fn lemma_enter_all_binds(st: WalkState, imports: Seq<(Seq<char>, Span)>, n: Seq<char>)
    requires
        st.scopes.len() > 0,
        binds(st.scopes, n) || exists|i: int| 0 <= i < imports.len() && (#[trigger] imports[i]).0 == n,
    ensures
        binds(enter_all(st, imports).scopes, n),
        enter_all(st, imports).scopes.len() == st.scopes.len(),
    decreases imports.len(),
{
    if imports.len() > 0 {
        let init = imports.drop_last();
        if binds(st.scopes, n) || exists|i: int| 0 <= i < init.len() && (#[trigger] init[i]).0 == n {
            lemma_enter_all_binds(st, init, n);
            lemma_binds_enter(enter_all(st, init), imports.last().0, imports.last().1, n);
        } else {
            let i = choose|i: int| 0 <= i < imports.len() && (#[trigger] imports[i]).0 == n;
            if i < imports.len() - 1 {
                assert(init[i] == imports[i]);
            }
            lemma_enter_all_len(st, init);
            lemma_enter_binds_self(enter_all(st, init), imports.last().0, imports.last().1);
        }
    }
}

proof fn lemma_enter_all_len(st: WalkState, imports: Seq<(Seq<char>, Span)>)
    requires
        st.scopes.len() > 0,
    ensures
        enter_all(st, imports).scopes.len() == st.scopes.len(),
    decreases imports.len(),
{
    if imports.len() > 0 {
        lemma_enter_all_len(st, imports.drop_last());
    }
}

/// Entering the block-wide bindings binds each of them.
proof fn lemma_pre_enter_binds(st: WalkState, stmts: Seq<Stmt>, n: Seq<char>)
    requires
        st.scopes.len() > 0,
        binds(st.scopes, n) || exists|j: int|
            0 <= j < stmts.len() && (#[trigger] stmts[j] matches Stmt::Binding(b) && !b.restrictive
                && b.name@ == n),
    ensures
        binds(pre_enter(st, stmts).scopes, n),
    decreases stmts.len(),
{
    if stmts.len() > 0 {
        let init = stmts.drop_last();
        if binds(st.scopes, n) || exists|j: int|
            0 <= j < init.len() && (#[trigger] init[j] matches Stmt::Binding(b) && !b.restrictive
                && b.name@ == n) {
            lemma_pre_enter_binds(st, init, n);
            lemma_pre_enter_len(st, init);
            let s = pre_enter(st, init);
            if let Stmt::Binding(b) = stmts.last() {
                if !b.restrictive {
                    lemma_binds_enter(s, b.name@, b.span, n);
                }
            }
        } else {
            let j = choose|j: int|
                0 <= j < stmts.len() && (#[trigger] stmts[j] matches Stmt::Binding(b) && !b.restrictive
                    && b.name@ == n);
            if j < stmts.len() - 1 {
                assert(init[j] == stmts[j]);
            }
            lemma_pre_enter_len(st, init);
            if let Stmt::Binding(b) = stmts.last() {
                lemma_enter_binds_self(pre_enter(st, init), b.name@, b.span);
            }
        }
    }
}

proof fn lemma_pre_enter_len(st: WalkState, stmts: Seq<Stmt>)
    requires
        st.scopes.len() > 0,
    ensures
        pre_enter(st, stmts).scopes.len() == st.scopes.len(),
    decreases stmts.len(),
{
    if stmts.len() > 0 {
        lemma_pre_enter_len(st, stmts.drop_last());
    }
}

/// A log with an entry at a span looks it up.
proof fn lemma_log_get_found(log: Seq<(Span, nat)>, span: Span)
    requires
        has_entry(log, span),
    ensures
        log_get(log, span) is Some,
    decreases log.len(),
{
    if log.last().0 != span {
        let k = choose|k: int| 0 <= k < log.len() && (#[trigger] log[k]).0 == span;
        assert(log.drop_last()[k] == log[k]);
        lemma_log_get_found(log.drop_last(), span);
    }
}

/// Whether the top level of a program binds `name`: an import, or a
/// block-wide (not `let`) binding among its statements.
pub open spec fn bound_at_top(stmts: Seq<Stmt>, imports: Seq<(Seq<char>, Span)>, name: Seq<char>) -> bool {
    ||| exists|i: int| 0 <= i < imports.len() && (#[trigger] imports[i]).0 == name
    ||| exists|j: int|
        0 <= j < stmts.len() && (#[trigger] stmts[j] matches Stmt::Binding(b) && !b.restrictive
            && b.name@ == name)
}

/// Resolving a program resolves every use of a top-level name: a plain name
/// anywhere in a statement or in the final expression, whose name an import
/// or a block-wide binding of the program introduces, is looked up in the
/// resolution log (for `a = 1; b = 2; a + b`, both `a` and `b` are).
pub proof fn law_program_uses_resolved(
    stmts: Seq<Stmt>,
    e: Expr,
    imports: Seq<(Seq<char>, Span)>,
    name: Seq<char>,
    span: Span,
)
    requires
        bound_at_top(stmts, imports, name),
        uses_stmts(stmts, name, span) || uses_expr(e, name, span),
    ensures
        log_get(program_index(stmts, e, imports).resolve, span) is Some,
{
    lemma_import_state(imports);
    let s = import_state(imports);
    let empty = WalkState {
        defs: Seq::empty(),
        scopes: Seq::empty(),
        resolve: Seq::empty(),
        def_index: Seq::empty(),
    };
    if exists|i: int| 0 <= i < imports.len() && (#[trigger] imports[i]).0 == name {
        assert(imports.len() > 0);
        lemma_enter_all_binds(push_frame(empty), imports, name);
    }
    let s0 = push_frame(s);
    assert(walk_wf(s0));
    if binds(s.scopes, name) {
        lemma_binds_push_frame(s, name);
    }
    lemma_pre_enter_binds(s0, stmts, name);
    lemma_pre_enter(s0, stmts);
    let s1 = pre_enter(s0, stmts);
    lemma_walk_stmts(s1, stmts);
    let s2 = walk_stmts(s1, stmts);
    lemma_walk_expr(s2, e);
    let s3 = walk_expr(s2, e);
    if uses_stmts(stmts, name, span) {
        lemma_cover_stmts(s1, stmts, name, span);
        lemma_entry_grows(s2, s3, span);
    } else {
        lemma_binds_kept(s1, s2, name);
        lemma_cover_expr(s2, e, name, span);
    }
    lemma_log_get_found(s3.resolve, span);
}

} // verus!
