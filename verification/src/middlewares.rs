//! The record of a handler that serves every path.

use vstd::prelude::*;
use crate::router::Closure;
use crate::trie::Leaf;

verus! {

/// A handler with its place in the order of registration.
pub struct Closures {
    /// The handler.
    pub closure: Closure,
    /// The number that the registry gave it.
    pub index: usize,
}

impl View for Closures {
    type V = Leaf<Closure>;

    /// A handler that serves every path is a leaf without variables.
    open spec fn view(&self) -> Leaf<Closure> {
        Leaf { data: self.closure, index: self.index, vars: Seq::empty() }
    }
}

} // verus!
