//! Allocation errors.
use vstd::prelude::*;

verus! {

/// An error indicating that allocation has failed.
#[derive(Clone, Copy, Debug, PartialEq, Eq)]
pub struct Error;

} // verus!
