//! The kinds of structured diagnostic the highlevel emits.

use vstd::prelude::*;

verus! {

/// What kind of check a unification failure implements — drives the
/// expected/found direction of a mismatch.  All but the last four are
/// type-mismatch constructs.
#[derive(Clone, Copy, PartialEq, Eq, Debug, Structural)]
pub enum DiagKind {
    /// `inner : T` — expected = the annotation's type value.
    Annotation,
    /// Applying a concretely non-function type — expected = a function.
    Guard,
    /// Indexing a concretely non-indexable type — expected = a tuple,
    /// array, or struct type.
    IndexTarget,
    /// An array literal's elements must share one type.
    ArrayElement,
    /// A table literal's keys must share one type.
    TableKey,
    /// A table literal's values must share one type.
    TableValue,
    /// A binary operator's operand must be an `Int`.
    BinOp,
    /// An attribute (perspective) check.
    Attribute,
    /// A runtime apply-time failure (the parameter type check).
    Runtime,
    /// A failed assert — not a mismatch.
    Assert,
    /// An out-of-bounds index.
    IndexOutOfBounds,
    /// A table read that missed.
    TableMiss,
    /// A table build dropped a non-concrete key.
    TableKeyUnbound,
}

} // verus!
