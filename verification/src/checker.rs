//! What the checker records of an application for its diagnostics.

use vstd::prelude::*;

use crate::ir::ExprId;

verus! {

/// The highlevel structure of one application's argument edge.  A runtime
/// parameter-check failure is attributed to the *edge* between the
/// function's parameter and the argument, not to a shared node, so the
/// argument's own source span stays reachable even when the argument node is
/// reused.
#[derive(Clone, Copy, Debug)]
pub struct ApplyEdge {
    /// The argument's IR expression — the caret target.
    pub argument_expr: ExprId,
    /// The whole apply's IR expression (the call site) — context.
    pub apply_expr: ExprId,
}

} // verus!
