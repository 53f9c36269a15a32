use vstd::prelude::*;

verus! {

/// Everything that pattern compilation can report. Syntax errors come from
/// the scanner and the parser; `StateIDOverflow` from automaton construction;
/// `CompileError` marks a broken internal invariant of the bytecode compiler;
/// `InvalidMethod` an unrecognized matching-strategy name.
#[derive(Debug)]
pub enum Error {
    UnexpectedChar(crate::lexer::Token),
    UnexpectedEnd,
    Expected(crate::lexer::Token),
    StateIDOverflow(usize),
    InvalidSeq,
    CompileError,
    InvalidMethod(String),
}

} // verus!
