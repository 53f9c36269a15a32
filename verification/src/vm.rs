use vstd::prelude::*;

pub mod cache;
pub mod compile;
pub mod eval;
pub mod instruction;

verus! {

/// The bytecode virtual machine engine: the pattern compiled to a linear
/// program, executed by the backtracking interpreter in `eval`.
#[derive(Debug)]
pub struct Vm {
    bytecode: Vec<instruction::Instruction>,
}

impl Vm {
    /// The compiled program.
    pub closed spec fn program(&self) -> Seq<instruction::Instruction> {
        self.bytecode@
    }

    /// Compiles `ast`. The program is the code for `ast` followed by the
    /// final `Match` instruction; compilation itself cannot fail.
    pub fn new(ast: crate::parser::AstNode) -> (r: Result<Vm, crate::error::Error>)
        ensures
            r matches Ok(vm) ==> vm.program() == compile::code_of(ast, 0).push(
                instruction::Instruction::Match,
            ),
            r is Ok,
            compile::code_of(ast, 0).len() + 1 <= usize::MAX,
    {
        let mut compiler = compile::Compiler::new();
        match compiler.compile(ast) {
            Ok(()) => (),
            Err(e) => {
                return Err(e);
            },
        }
        let bytecode = compiler.instructions().clone();
        let blen = bytecode.len();
        proof {
            assert(bytecode@ =~= compile::code_of(ast, 0).push(instruction::Instruction::Match));
            assert(compile::code_of(ast, 0).len() + 1 == blen);
        }
        Ok(Vm { bytecode })
    }

    /// Runs the program on the whole input.
    pub fn is_match(&self, input: &str) -> (r: bool)
        ensures
            r == eval::vm_accepts(self.program(), input@, 0, 0),
    {
        eval::eval(self.bytecode.as_slice(), input, 0, 0)
    }
}

} // verus!
