//! The failure kinds of the pipeline. Every fault is fatal: each stage
//! returns the first error it meets and the run is aborted at the boundary.

use vstd::prelude::*;

verus! {

/// One failure kind. `Overflow`, `UnterminatedString` and `SpaceInParams`
/// are lexical malformations; `UnexpectedToken` is a structural parse
/// mismatch; the rest arise at evaluation time.
#[derive(Clone, Copy, Debug, PartialEq, Eq, Structural)]
pub enum Error {
    /// A number literal or an arithmetic step left the machine integer range.
    Overflow,
    /// A quoted string reached the end of the input without a closing quote.
    UnterminatedString,
    /// A bracketed array or parameter list reached the end of the input
    /// without its closing bracket.
    UnterminatedArray,
    /// A brace-delimited block reached the end of the input without its
    /// closing brace.
    UnterminatedBlock,
    /// A blank character stood inside a parameter list.
    SpaceInParams,
    /// A production's expected piece was absent or of the wrong kind.
    UnexpectedToken,
    /// A reserved command with no execution semantics reached the interpreter.
    ReservedCommand,
    /// A value token of a kind that cannot be bound or emitted.
    InvalidValue,
    /// An operand or a loop source resolved to a value of the wrong kind.
    TypeMismatch,
    /// An identifier was referenced but no variable of that name is bound.
    UnboundVariable,
    /// A division or remainder by zero.
    DivisionByZero,
    /// The caller's bound on loop re-evaluations was exhausted before the
    /// program finished. The language itself caps no loop: callers that
    /// want the uncapped behaviour pass the largest bound.
    OutOfFuel,
}

} // verus!
