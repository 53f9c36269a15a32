use vstd::prelude::*;

verus! {

/// One bytecode instruction. A program is a vector of these; the position
/// in the vector is the program counter. `Split` tries its first target
/// before its second, which gives the engine its greedy bias.
#[derive(Debug, Clone, Copy, PartialEq, Eq, Structural)]
pub enum Instruction {
    Char(char),
    Split(usize, usize),
    Jmp(usize),
    Match,
}

} // verus!
