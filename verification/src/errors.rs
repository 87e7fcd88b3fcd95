use vstd::prelude::*;

verus! {

/// The failures an interpreter operation can surface.
///
/// Runtime failures abort the remainder of the current line without
/// rolling back effects already applied; a `ParseError` is reported
/// before any part of the line executes.
#[derive(Debug, Clone, Copy, PartialEq, Eq, Structural)]
pub enum ForthError {
    /// A pop was attempted on an empty data stack.
    StackUnderflow,
    /// An operand had the wrong tag for the operation, or an arithmetic
    /// contract (such as division by zero) was violated.
    InvalidOperands,
    /// A lookup required a variable (or a valid variable address) that
    /// does not exist in the store.
    VariableNotExist,
    /// An array write, push or read went beyond the array's bounds.
    IndexOutOfBound,
    /// The line is not a sentence of the grammar; nothing was executed.
    ParseError,
    /// Any other failure; in particular, exceeding the word-call
    /// recursion depth limit.
    OtherError,
}

} // verus!
