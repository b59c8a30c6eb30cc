//! The kinds of ECMAScript exceptions that the builtins raise.
use vstd::prelude::*;

verus! {

/// The ECMAScript error constructor that a builtin throws.
#[derive(Clone, Copy, Debug, PartialEq, Eq, Structural)]
pub enum ErrorKind {
    TypeError,
    RangeError,
    SyntaxError,
    /// The engine's own error for a method it does not implement.
    EvalError,
}

} // verus!
