//! The error of a malformed path.

use vstd::prelude::*;

verus! {

/// A path or pattern that names a variable without giving it a name.
#[derive(Copy, Clone, Debug, PartialEq, Eq, Structural)]
pub struct InvalidPathError;

} // verus!
