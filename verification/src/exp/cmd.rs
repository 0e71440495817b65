//! # Script commands
//!
//! The context that controls evaluation.
use vstd::prelude::*;

use super::Error;

verus! {

/// The context for a command evaluation.
pub trait Context {
    /// Evaluation of a single expression is about to begin.
    ///
    /// If an error is returned, evaluation is stopped and the error bubbles up.
    ///
    /// By default, every evaluation is permitted and nothing changes.
    fn on_evaluate<'a>(&mut self) -> (r: Result<(), Error<'a>>)
        where
            Self: Sized,
        default_ensures
            r is Ok,
            *final(self) == *old(self),
    {
        Ok(())
    }
}

impl Context for () {
}

/// A context that constrains resources for evaluation.
///
/// Each evaluation decrements a counter, and once it reaches 0, an error is returned.
#[derive(Debug)]
pub struct ResourceConstrainer(isize);

impl View for ResourceConstrainer {
    type V = int;

    closed spec fn view(&self) -> int {
        self.0 as int
    }
}

/// The counter after one evaluation: decremented, wrapping around at the minimum.
pub open spec fn decremented(v: int) -> int {
    if v == isize::MIN {
        isize::MAX as int
    } else {
        v - 1
    }
}

impl ResourceConstrainer {
    /// Creates a constrainer permitting the given number of evaluations.
    pub fn new(value: isize) -> (r: Self)
        ensures
            r@ == value,
    {
        ResourceConstrainer(value)
    }

    /// The number of evaluations still permitted.
    pub fn remaining(&self) -> (r: isize)
        ensures
            r == self@,
    {
        self.0
    }
}

impl From<isize> for ResourceConstrainer {
    fn from(value: isize) -> (r: Self)
        ensures
            r@ == value,
    {
        ResourceConstrainer(value)
    }
}

impl vstd::std_specs::convert::FromSpecImpl<isize> for ResourceConstrainer {
    open spec fn obeys_from_spec() -> bool {
        true
    }

    closed spec fn from_spec(v: isize) -> Self {
        ResourceConstrainer(v)
    }
}

impl Context for ResourceConstrainer {
    fn on_evaluate<'a>(&mut self) -> (r: Result<(), Error<'a>>)
        ensures
            final(self)@ == decremented(old(self)@),
            r is Err <==> old(self)@ <= 0,
            r is Err ==> r == Err::<(), Error<'a>>(Error::ExecutionLimited),
    {
        let previous = self.0;
        self.0 = previous.wrapping_sub(1);
        if previous <= 0 {
            Err(Error::ExecutionLimited)
        } else {
            Ok(())
        }
    }
}

} // verus!
