//! The highlevel's program vocabulary: the type values, the type-level
//! operators, the fresh-nominal-type-id state, and the built-in literals.

use vstd::prelude::*;

verus! {

/// The fresh-nominal-type-id state.
#[derive(Debug, Clone, Copy, PartialEq, Eq, Default, Structural)]
pub struct HighGlobal {
    /// The next nominal type id — the `Fresh` operator reads and increments
    /// it, so each call yields a distinct `TypeId`.
    pub type_id_counter: usize,
}

/// `id` is the nominal type id consumed going from `before` to `after`.
pub open spec fn consumed(before: HighGlobal, after: HighGlobal, id: usize) -> bool {
    id == before.type_id_counter && after.type_id_counter == before.type_id_counter + 1
}

/// Nominal type ids are fresh: an id consumed after another, with the
/// counter never turned back in between, is a greater one, so two fresh
/// struct types never share an id.
pub proof fn law_type_ids_fresh(
    g0: HighGlobal,
    g1: HighGlobal,
    a: usize,
    g2: HighGlobal,
    g3: HighGlobal,
    b: usize,
)
    requires
        consumed(g0, g1, a),
        g1.type_id_counter <= g2.type_id_counter,
        consumed(g2, g3, b),
    ensures
        a < b,
{
}

impl HighGlobal {
    /// Consume the next nominal type id: read the counter, increment it, and
    /// return the previous value.
    pub fn next_type_id(&mut self) -> (id: usize)
        requires
            old(self).type_id_counter < usize::MAX,
        ensures
            consumed(*old(self), *final(self), id),
    {
        let id = self.type_id_counter;
        self.type_id_counter += 1;
        id
    }
}

/// The built-in int literal: stores just the value.
#[derive(Clone, Copy, PartialEq, Debug, Structural)]
pub struct IntLit(pub usize);

/// The built-in string literal: stores the (immutable) string content.
#[derive(Clone, Copy, PartialEq, Debug)]
pub struct StrLit(pub &'static str);

/// The built-in `Int` type constant — `Int : Type`.
#[derive(Clone, Copy, PartialEq, Debug, Structural)]
pub struct IntTypeLit;

/// The built-in `string` type constant — `string : Type`.
#[derive(Clone, Copy, PartialEq, Debug, Structural)]
pub struct StringTypeLit;

/// The built-in `Type` type constant — `Type : Type`.
#[derive(Clone, Copy, PartialEq, Debug, Structural)]
pub struct TypeTypeLit;

/// The highlevel program's literal vocabulary: the built-in int & string
/// literals and the `Int`/`string`/`Type` type-constant literals.
#[derive(Debug, Clone, Copy, PartialEq)]
pub enum HighProgramLiteral {
    Int(IntLit),
    Str(StrLit),
    IntType(IntTypeLit),
    StringType(StringTypeLit),
    TypeType(TypeTypeLit),
}

/// The highlevel's own value extension — a plain enum of the type constants.
/// Every variant is a *type constant*: its own type is the canonical
/// universe (`Type : Type`).
#[derive(Debug, Clone, Copy, PartialEq, Structural)]
pub enum TypeValue {
    /// The `int` type constant.
    TypeInt,
    /// The `string` type constant — the builtin immutable string value.
    TypeString,
    /// The `Type` constant — the canonical universe node itself.
    TypeType,
    /// The kind marker of function type expressions.
    TypeFunction,
    /// The kind marker of tuple type expressions.
    TypeTuple,
    /// The kind marker of array type expressions.
    TypeArray,
    /// The kind marker of struct type expressions.
    TypeStruct,
    /// The kind marker of table type expressions.
    TypeTable,
    /// A nominal type id — a struct type's identity marker.  Equal ids
    /// unify, different ids don't (nominal identity).
    TypeId(usize),
}

impl TypeValue {
    /// The nominal type id carried by a `TypeId` value, if this is one.
    pub fn as_type_id(&self) -> (r: Option<usize>)
        ensures
            r == (match *self {
                TypeValue::TypeId(n) => Some(n),
                _ => None,
            }),
    {
        match self {
            TypeValue::TypeId(n) => Some(*n),
            _ => None,
        }
    }
}

/// The highlevel's own operator extension — the type-level computations
/// that have no structural operator form.
#[derive(Debug, Clone, Copy, PartialEq, Structural)]
pub enum TypeOperator {
    /// A fresh nominal type id: each call reads and increments
    /// [`HighGlobal::next_type_id`] and returns a `TypeId(n)` type value.
    Fresh,
    /// Binary integer operators: `Add`/`Sub` compute (wrapping); `Leq`/`Eq`
    /// compare and yield `0/1`.
    Add,
    Sub,
    Leq,
    Eq,
}

/// What a binary integer operator yields on two concrete operands: `Add` and
/// `Sub` wrap around, the comparisons yield `1` for true and `0` for false.
pub open spec fn binary_result(op: TypeOperator, left: usize, right: usize) -> Option<usize> {
    match op {
        TypeOperator::Fresh => None,
        TypeOperator::Add => Some(
            if left + right > usize::MAX {
                (left + right - usize::MAX - 1) as usize
            } else {
                (left + right) as usize
            },
        ),
        TypeOperator::Sub => Some(
            if left < right {
                (left - right + usize::MAX + 1) as usize
            } else {
                (left - right) as usize
            },
        ),
        TypeOperator::Leq => Some(if left <= right { 1 } else { 0 }),
        TypeOperator::Eq => Some(if left == right { 1 } else { 0 }),
    }
}

impl TypeOperator {
    /// The value a binary integer operator computes from its two `USize`
    /// operands (the run semantics once both operands are concrete); `None`
    /// for `Fresh`, which takes no operands.
    pub fn apply_binary(&self, left: usize, right: usize) -> (r: Option<usize>)
        ensures
            r == binary_result(*self, left, right),
    {
        match self {
            TypeOperator::Fresh => None,
            TypeOperator::Add => Some(left.wrapping_add(right)),
            TypeOperator::Sub => Some(left.wrapping_sub(right)),
            TypeOperator::Leq => Some(
                if left <= right {
                    1
                } else {
                    0
                },
            ),
            TypeOperator::Eq => Some(
                if left == right {
                    1
                } else {
                    0
                },
            ),
        }
    }
}


/// The type-level comparisons are a total order and its equality, read as
/// `1` for true and `0` for false: `Leq` holds of a pair exactly when the
/// left operand is at most the right one — so it is reflexive, total,
/// antisymmetric and transitive — and `Eq` exactly when they are equal,
/// which implies `Leq` both ways.  Every binary operator yields a value.
pub proof fn law_type_comparisons(l: usize, r: usize, m: usize)
    ensures
        binary_result(TypeOperator::Leq, l, r) is Some,
        binary_result(TypeOperator::Eq, l, r) is Some,
        binary_result(TypeOperator::Add, l, r) is Some,
        binary_result(TypeOperator::Sub, l, r) is Some,
        binary_result(TypeOperator::Fresh, l, r) is None,
        binary_result(TypeOperator::Leq, l, r)->0 == 1 || binary_result(TypeOperator::Leq, l, r)->0
            == 0,
        binary_result(TypeOperator::Eq, l, r)->0 == 1 || binary_result(TypeOperator::Eq, l, r)->0
            == 0,
        (binary_result(TypeOperator::Leq, l, r)->0 == 1) <==> l <= r,
        (binary_result(TypeOperator::Eq, l, r)->0 == 1) <==> l == r,
        binary_result(TypeOperator::Leq, l, l)->0 == 1,
        binary_result(TypeOperator::Leq, l, r)->0 == 1 || binary_result(TypeOperator::Leq, r, l)->0
            == 1,
        binary_result(TypeOperator::Leq, l, r)->0 == 1 && binary_result(TypeOperator::Leq, r, l)->0
            == 1 ==> l == r,
        binary_result(TypeOperator::Leq, l, r)->0 == 1 && binary_result(TypeOperator::Leq, r, m)->0
            == 1 ==> binary_result(TypeOperator::Leq, l, m)->0 == 1,
        binary_result(TypeOperator::Eq, l, r)->0 == 1 <==> binary_result(TypeOperator::Leq, l, r)->0
            == 1 && binary_result(TypeOperator::Leq, r, l)->0 == 1,
{
}

/// Type-level addition and subtraction wrap around the `usize` range:
/// subtracting what was added gives the operand back, adding back what was
/// subtracted does too, addition commutes, and 0 changes nothing; the sum is
/// the mathematical sum when that fits.
pub proof fn law_type_arithmetic(l: usize, r: usize)
    ensures
        binary_result(TypeOperator::Sub, binary_result(TypeOperator::Add, l, r)->0, r)->0 == l,
        binary_result(TypeOperator::Add, binary_result(TypeOperator::Sub, l, r)->0, r)->0 == l,
        binary_result(TypeOperator::Add, l, r) == binary_result(TypeOperator::Add, r, l),
        binary_result(TypeOperator::Add, l, 0)->0 == l,
        binary_result(TypeOperator::Sub, l, 0)->0 == l,
        binary_result(TypeOperator::Sub, l, l)->0 == 0,
        l + r <= usize::MAX ==> binary_result(TypeOperator::Add, l, r)->0 == l + r,
        r <= l ==> binary_result(TypeOperator::Sub, l, r)->0 == l - r,
{
}

/// A value vocabulary's type markers, as the checker sees them: the
/// type-constant markers it installs, the value-to-type mapping for
/// constants, and the kind classification its structural type checks
/// dispatch on.  A host program's value union implements it.
pub trait ValueType: Sized {
    /// The `int` type marker.
    fn int_marker() -> Self;

    /// The `string` type marker.
    fn string_marker() -> Self;

    /// The `Type` marker — the universe itself.
    fn type_marker() -> Self;

    /// The kind marker of function type expressions.
    fn function_type_marker() -> Self;

    /// The kind marker of tuple type expressions.
    fn tuple_type_marker() -> Self;

    /// The kind marker of array type expressions.
    fn array_type_marker() -> Self;

    /// The kind marker of struct type expressions.
    fn type_struct_marker() -> Self;

    /// The kind marker of table type expressions.
    fn table_type_marker() -> Self;

    /// The nominal id of a struct type value, if this is one.
    fn type_id(&self) -> Option<usize>;

    /// A nominal type id value.
    fn type_id_value(n: usize) -> Self;

    /// Whether this value is a function-kind marker (one that re-heads the
    /// universe so a compound type reads as an arrow).
    fn is_function_kind(&self) -> (r: bool)
        default_ensures
            !r,
    {
        false
    }
}

} // verus!
