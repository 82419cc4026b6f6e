//! Hash functions.
use vstd::prelude::*;

verus! {

/// Hash function implementations.
pub struct Hash;

} // verus!
