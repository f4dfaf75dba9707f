use lichen::attr::{AttrSpec, NoAttr};
use lichen::ir::{ChildRange, ExprId, ExprKind, Loc, LocKind, LocStep, Schema, SchemaId, IR};
use lichen::program::{HighProgramLiteral, IntLit};

#[derive(Clone, Copy, PartialEq, Eq, Debug)]
enum Tag {
    A,
    B,
}

impl AttrSpec for Tag {
    fn same(&self, other: &Self) -> bool {
        self == other
    }
}

fn lit(n: usize) -> ExprKind<HighProgramLiteral> {
    ExprKind::Literal(HighProgramLiteral::Int(IntLit(n)))
}

#[test]
fn a_fresh_ir_has_the_default_schema_only() {
    let ir: IR<NoAttr, HighProgramLiteral> = IR::new();
    assert_eq!(ir.schema_table.len(), 1);
    assert!(ir.schema_table[0].tail.is_empty());
    assert_eq!(ir.root, ExprId(0));
    assert!(ir.expr.is_empty());
}

#[test]
fn allocation_ids_are_sequential_and_stamp_the_default_schema() {
    let mut ir: IR<NoAttr, HighProgramLiteral> = IR::new();
    let a = ir.allocate(lit(1), Some((1, 1)));
    let b = ir.allocate(lit(2), None);
    assert_eq!(a, ExprId(0));
    assert_eq!(b, ExprId(1));
    assert_eq!(ir.schemas, vec![SchemaId(0), SchemaId(0)]);
    assert_eq!(ir.get(a).span, Some((1, 1)));
    assert_eq!(ir.schema(b).arity(), 2);
}

#[test]
fn interning_dedups_by_equality() {
    let mut ir: IR<Tag, HighProgramLiteral> = IR::new();
    let one = ir.intern_schema(Schema { tail: vec![Tag::A] });
    let two = ir.intern_schema(Schema { tail: vec![Tag::A, Tag::B] });
    let again = ir.intern_schema(Schema { tail: vec![Tag::A] });
    let empty = ir.intern_schema(Schema { tail: vec![] });
    assert_eq!(one, SchemaId(1));
    assert_eq!(two, SchemaId(2));
    assert_eq!(again, one);
    assert_eq!(empty, SchemaId(0));
    assert_eq!(ir.schema_table.len(), 3);
}

#[test]
fn a_set_schema_reads_back() {
    let mut ir: IR<Tag, HighProgramLiteral> = IR::new();
    let a = ir.allocate(lit(1), None);
    let b = ir.allocate(lit(2), None);
    ir.set_schema(b, Schema { tail: vec![Tag::B] });
    assert_eq!(ir.schema(b).tail, vec![Tag::B]);
    assert_eq!(ir.schema(b).arity(), 3);
    assert!(ir.schema(a).tail.is_empty());
}

#[test]
fn variadic_allocations_record_their_children() {
    let mut ir: IR<NoAttr, HighProgramLiteral> = IR::new();
    let a = ir.allocate(lit(1), None);
    let b = ir.allocate(lit(2), None);
    let t = ir.alloc_tuple(&[a, b], None);
    let table = ir.alloc_table(&[(a, b), (b, a)], None);
    let shallow = ir.alloc_shallow_array(&[(a, 0), (b, usize::MAX)], None);
    assert_eq!(ir.children, vec![a, b, a, b, b, a, a, b]);
    assert_eq!(ir.depths, vec![0, usize::MAX]);
    match ir.get(t).kind {
        ExprKind::Tuple(r) => assert_eq!(r, ChildRange { start: 0, end: 2 }),
        _ => panic!("a tuple"),
    }
    match ir.get(table).kind {
        ExprKind::Table(r) => assert_eq!(r, ChildRange { start: 2, end: 6 }),
        _ => panic!("a table"),
    }
    match ir.get(shallow).kind {
        ExprKind::ShallowArray { range, depths } => {
            assert_eq!(range, ChildRange { start: 6, end: 8 });
            assert_eq!(depths, ChildRange { start: 0, end: 2 });
        }
        _ => panic!("a shallow array"),
    }
    ir.set_root(shallow);
    assert_eq!(ir.root, ExprId(ir.expr.len() as u32 - 1));
}

#[test]
fn a_location_reports_its_kind_and_type_depth() {
    let value = Loc { expr: ExprId(0), path: vec![] };
    assert_eq!(value.kind(), LocKind::Value);
    assert_eq!(value.type_depth(), 0);
    let kind = Loc { expr: ExprId(0), path: vec![LocStep::Type, LocStep::Type, LocStep::Elem(1)] };
    assert_eq!(kind.kind(), LocKind::Type);
    assert_eq!(kind.type_depth(), 2);
    let attr = Loc { expr: ExprId(3), path: vec![LocStep::Attr(0), LocStep::Type] };
    assert_eq!(attr.kind(), LocKind::Attribute);
    assert_eq!(attr.type_depth(), 0);
    let shape = Loc { expr: ExprId(3), path: vec![LocStep::Shape] };
    assert_eq!(shape.kind(), LocKind::Type);
}
