//! Variable identifiers.
use vstd::prelude::*;

verus! {

/// Identifies a variable of the solver by its index.
#[derive(Debug, Clone, Copy, PartialEq, Eq, Hash, Structural)]
pub struct VarId(pub usize);

/// Identifies a guard: a group of bounds asserted and retracted together.
#[derive(Debug, Clone, Copy, PartialEq, Eq, Hash, Structural)]
pub struct GuardId(pub usize);

} // verus!
