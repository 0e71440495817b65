//! # Values
//!
//! The errors of value operations, and linked lists of values.
use vstd::prelude::*;

use crate::ast;
use crate::common::Serializable;

pub mod cons;

verus! {

/// A value operation failed.
#[derive(Debug, PartialEq)]
pub enum Error {
    /// An operation failed.
    Operation(&'static str),
    /// An AST node is not a value.
    Type(ast::Node),
    /// A value cannot be converted.
    Conversion {
        /// The value being converted.
        from_type: &'static str,
        /// The target type.
        to_type: &'static str,
    },
}

/// An opaque tagged value passed into a script.
pub trait Tag: Copy + PartialEq + core::fmt::Debug + Serializable {
}

} // verus!
