//! The functions that are built in.

use vstd::prelude::*;
use crate::common::LoxCallable;

verus! {

/// The built-in function `clock`: it takes no argument, and the interpreter's
/// host answers a call of it with the time.
#[derive(Debug, PartialEq, Eq, Copy, Clone, Structural)]
pub struct Clock;

impl LoxCallable for Clock {
    open spec fn parameters(&self) -> nat {
        0
    }

    fn arity(&self) -> (n: usize) {
        0
    }
}

} // verus!
