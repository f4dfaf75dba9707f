//! The native-plugin contract.
//!
//! A native plugin extends the core through the program-generic extension
//! points — vocabulary leaves, native operators, an attribute — without its
//! host naming it.  [`NativePlugin`] is the nominal marker a plugin implements
//! to opt into this contract.

use vstd::prelude::*;

verus! {

/// The nominal marker of a native plugin.  It carries no methods: a marker is
/// a unit struct with an explicit impl.
pub trait NativePlugin {

}

} // verus!
