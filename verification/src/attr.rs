//! The attribute extension point.
//!
//! A [`Schema`](crate::ir::Schema) names *which* compile-time attribute an
//! expression carries.  A concrete attribute is a marker implementing
//! [`AttrSpec`]; highlevel ships `NoAttr` (the default, an empty attribute),
//! while a language adds its own.

use vstd::prelude::*;

verus! {

/// The marker bound every attribute type must satisfy: a plain,
/// interning-friendly token (the [`Schema`](crate::ir::Schema)`::tail`
/// entries are deduplicated by equality, through [`AttrSpec::same`]).
pub trait AttrSpec: Clone + Copy + PartialEq + Eq + core::fmt::Debug + Sized + 'static {
    /// Whether two attributes are the same attribute.
    fn same(&self, other: &Self) -> (r: bool)
        ensures
            r == (*self == *other),
    ;
}

/// The highlevel's default attribute: a program with no attribute extension.
#[derive(Clone, Copy, PartialEq, Eq, Debug, Structural)]
pub struct NoAttr;

impl AttrSpec for NoAttr {
    fn same(&self, other: &Self) -> (r: bool) {
        true
    }
}

} // verus!
