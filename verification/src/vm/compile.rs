use vstd::prelude::*;

use crate::lang::{
    lemma_char, lemma_concat_split, lemma_epsilon, lemma_or, lemma_plus_extend, lemma_plus_split,
    lemma_question, lemma_star_unroll, matches_ast,
};
use crate::parser::{no_empty, AstNode};
use crate::vm::eval::{accepts_fuel, lemma_step, vm_accepts};
use crate::vm::instruction::Instruction;

verus! {

/// The bytecode emitted for `node` when compilation starts at program
/// counter `base`: the exact sequence the compiler produces, with all
/// forward references already patched.
pub open spec fn code_of(node: AstNode, base: nat) -> Seq<Instruction>
    decreases node,
{
    match node {
        AstNode::Char(c) => seq![Instruction::Char(c)],
        AstNode::Empty => Seq::empty(),
        AstNode::Epsilon => Seq::empty(),
        AstNode::Plus(x) => {
            let body = code_of(*x, base);
            body + seq![Instruction::Split(base as usize, (base + body.len() + 1) as usize)]
        },
        AstNode::Star(x) => {
            let body = code_of(*x, base + 1);
            seq![Instruction::Split((base + 1) as usize, (base + 2 + body.len()) as usize)] + body
                + seq![Instruction::Jmp(base as usize)]
        },
        AstNode::Question(x) => {
            let body = code_of(*x, base + 1);
            seq![Instruction::Split((base + 1) as usize, (base + 1 + body.len()) as usize)] + body
        },
        AstNode::Or(a, b) => {
            let ca = code_of(*a, base + 1);
            let cb = code_of(*b, base + 2 + ca.len());
            seq![Instruction::Split((base + 1) as usize, (base + 2 + ca.len()) as usize)] + ca
                + seq![Instruction::Jmp((base + 2 + ca.len() + cb.len()) as usize)] + cb
        },
        AstNode::Concat(a, b) => {
            let ca = code_of(*a, base);
            ca + code_of(*b, base + ca.len())
        },
    }
}

/// The bytecode compiler. It emits instructions in one pass and patches
/// forward `Split`/`Jmp` targets once their destination is known.
#[derive(Debug)]
pub struct Compiler {
    pc: usize,
    instructions: Vec<Instruction>,
}

impl Compiler {
    pub closed spec fn wf(&self) -> bool {
        self.pc == self.instructions@.len()
    }

    pub closed spec fn program(&self) -> Seq<Instruction> {
        self.instructions@
    }

    pub fn new() -> (r: Compiler)
        ensures
            r.wf(),
            r.program() == Seq::<Instruction>::empty(),
    {
        let r = Compiler { pc: 0, instructions: Vec::new() };
        proof {
            assert(r.program() =~= Seq::<Instruction>::empty());
        }
        r
    }

    /// The compiled program so far.
    pub fn instructions(&self) -> (r: &Vec<Instruction>)
        ensures
            r@ == self.program(),
    {
        &self.instructions
    }

    fn emit(&mut self, instruction: Instruction)
        requires
            old(self).wf(),
        ensures
            final(self).wf(),
            final(self).program() == old(self).program().push(instruction),
    {
        self.instructions.push(instruction);
        self.pc = self.instructions.len();
    }

    fn patch(&mut self, pc: usize, instruction: Instruction)
        requires
            old(self).wf(),
            pc < old(self).program().len(),
        ensures
            final(self).wf(),
            final(self).program() == old(self).program().update(pc as int, instruction),
    {
        self.instructions.set(pc, instruction);
    }

    /// Compiles one node, appending exactly `code_of(ast, pc)` to the
    /// program. The backpatch targets always hold a placeholder `Split` or
    /// `Jmp` written by this same call, so compilation cannot fail.
    fn compile_node(&mut self, ast: AstNode) -> (r: Result<(), crate::error::Error>)
        requires
            old(self).wf(),
        ensures
            final(self).wf(),
            r is Ok,
            final(self).program() == old(self).program() + code_of(ast, old(self).program().len()),
        decreases ast,
    {
        let ghost base = self.program().len();
        match ast {
            AstNode::Char(c) => {
                self.emit(Instruction::Char(c));
                proof {
                    assert(self.program() =~= old(self).program() + code_of(ast, base));
                }
            },
            AstNode::Plus(node) => {
                let start = self.pc;
                match self.compile_node(*node) {
                    Ok(()) => (),
                    Err(e) => {
                        return Err(e);
                    },
                }
                let split = self.pc;
                self.emit(Instruction::Split(start, 0));
                let end = self.pc;
                self.patch(split, Instruction::Split(start, end));
                proof {
                    let body = code_of(*node, base);
                    assert(self.program() =~= old(self).program() + (body + seq![
                        Instruction::Split(base as usize, (base + body.len() + 1) as usize),
                    ]));
                }
            },
            AstNode::Star(node) => {
                let split = self.pc;
                self.emit(Instruction::Split(0, 0));
                let start = self.pc;
                match self.compile_node(*node) {
                    Ok(()) => (),
                    Err(e) => {
                        return Err(e);
                    },
                }
                self.emit(Instruction::Jmp(split));
                let end = self.pc;
                self.patch(split, Instruction::Split(start, end));
                proof {
                    let body = code_of(*node, base + 1);
                    assert(self.program() =~= old(self).program() + (seq![
                        Instruction::Split((base + 1) as usize, (base + 2 + body.len()) as usize),
                    ] + body + seq![Instruction::Jmp(base as usize)]));
                }
            },
            AstNode::Question(node) => {
                let split = self.pc;
                self.emit(Instruction::Split(0, 0));
                let start = self.pc;
                match self.compile_node(*node) {
                    Ok(()) => (),
                    Err(e) => {
                        return Err(e);
                    },
                }
                let end = self.pc;
                self.patch(split, Instruction::Split(start, end));
                proof {
                    let body = code_of(*node, base + 1);
                    assert(self.program() =~= old(self).program() + (seq![
                        Instruction::Split((base + 1) as usize, (base + 1 + body.len()) as usize),
                    ] + body));
                }
            },
            AstNode::Or(left, right) => {
                let split = self.pc;
                self.emit(Instruction::Split(0, 0));
                match self.compile_node(*left) {
                    Ok(()) => (),
                    Err(e) => {
                        return Err(e);
                    },
                }
                let jump = self.pc;
                self.emit(Instruction::Jmp(0));
                self.patch(split, Instruction::Split(split + 1, self.pc));
                match self.compile_node(*right) {
                    Ok(()) => (),
                    Err(e) => {
                        return Err(e);
                    },
                }
                self.patch(jump, Instruction::Jmp(self.pc));
                proof {
                    let ca = code_of(*left, base + 1);
                    let cb = code_of(*right, base + 2 + ca.len());
                    assert(self.program() =~= old(self).program() + (seq![
                        Instruction::Split((base + 1) as usize, (base + 2 + ca.len()) as usize),
                    ] + ca + seq![
                        Instruction::Jmp((base + 2 + ca.len() + cb.len()) as usize),
                    ] + cb));
                }
            },
            AstNode::Concat(left, right) => {
                match self.compile_node(*left) {
                    Ok(()) => (),
                    Err(e) => {
                        return Err(e);
                    },
                }
                match self.compile_node(*right) {
                    Ok(()) => (),
                    Err(e) => {
                        return Err(e);
                    },
                }
                proof {
                    let ca = code_of(*left, base);
                    assert(self.program() =~= old(self).program() + (ca + code_of(
                        *right,
                        base + ca.len(),
                    )));
                }
            },
            AstNode::Empty => {
                proof {
                    assert(self.program() =~= old(self).program() + code_of(ast, base));
                }
            },
            AstNode::Epsilon => {
                proof {
                    assert(self.program() =~= old(self).program() + code_of(ast, base));
                }
            },
        }
        Ok(())
    }

    /// Compiles a whole pattern: the code for `ast` followed by the final
    /// `Match` instruction.
    pub fn compile(&mut self, ast: AstNode) -> (r: Result<(), crate::error::Error>)
        requires
            old(self).wf(),
        ensures
            final(self).wf(),
            r is Ok,
            final(self).program() == old(self).program() + code_of(
                ast,
                old(self).program().len(),
            ).push(Instruction::Match),
        decreases ast,
    {
        match self.compile_node(ast) {
            Ok(()) => (),
            Err(e) => {
                return Err(e);
            },
        }
        self.emit(Instruction::Match);
        proof {
            assert(self.program() =~= old(self).program() + code_of(
                ast,
                old(self).program().len(),
            ).push(Instruction::Match));
        }
        Ok(())
    }
}

/// The pattern the emitted bytecode implements. The compiler emits
/// nothing for both `Empty` and `Epsilon`, so the bytecode reads `Empty`
/// as the empty-string pattern; this function records that one
/// identification. The parser never produces `Empty`, so on parser output
/// this is the pattern itself.
pub open spec fn code_view(r: AstNode) -> AstNode
    decreases r,
{
    match r {
        AstNode::Char(c) => AstNode::Char(c),
        AstNode::Empty => AstNode::Epsilon,
        AstNode::Epsilon => AstNode::Epsilon,
        AstNode::Plus(x) => AstNode::Plus(Box::new(code_view(*x))),
        AstNode::Star(x) => AstNode::Star(Box::new(code_view(*x))),
        AstNode::Question(x) => AstNode::Question(Box::new(code_view(*x))),
        AstNode::Or(a, b) => AstNode::Or(Box::new(code_view(*a)), Box::new(code_view(*b))),
        AstNode::Concat(a, b) => AstNode::Concat(Box::new(code_view(*a)), Box::new(code_view(*b))),
    }
}

proof fn lemma_fuel_mono(
    prog: Seq<Instruction>,
    s: Seq<char>,
    pos: nat,
    pc: nat,
    n1: nat,
    n2: nat,
)
    requires
        n1 <= n2,
        accepts_fuel(prog, s, pos, pc, n1),
    ensures
        accepts_fuel(prog, s, pos, pc, n2),
    decreases n1,
{
    match prog[pc as int] {
        Instruction::Char(c) => {
            lemma_fuel_mono(prog, s, pos + 1, pc + 1, (n1 - 1) as nat, (n2 - 1) as nat);
        },
        Instruction::Split(x, y) => {
            if accepts_fuel(prog, s, pos, x as nat, (n1 - 1) as nat) {
                lemma_fuel_mono(prog, s, pos, x as nat, (n1 - 1) as nat, (n2 - 1) as nat);
            } else {
                lemma_fuel_mono(prog, s, pos, y as nat, (n1 - 1) as nat, (n2 - 1) as nat);
            }
        },
        Instruction::Jmp(x) => {
            lemma_fuel_mono(prog, s, pos, x as nat, (n1 - 1) as nat, (n2 - 1) as nat);
        },
        Instruction::Match => {},
    }
}

/// The block of code for `r` sits in `prog` at `lo`.
pub open spec fn block_at(prog: Seq<Instruction>, r: AstNode, lo: nat) -> bool {
    &&& lo + code_of(r, lo).len() <= usize::MAX
    &&& lo + code_of(r, lo).len() <= prog.len()
    &&& prog.subrange(lo as int, (lo + code_of(r, lo).len()) as int) == code_of(r, lo)
}

/// Whatever the block for `r` accepts factors as: a prefix in the language
/// of `code_view(r)`, then acceptance from the end of the block, with no
/// more steps than before.
proof fn lemma_code_sound(
    prog: Seq<Instruction>,
    s: Seq<char>,
    r: AstNode,
    lo: nat,
    pos: nat,
    n: nat,
)
    requires
        block_at(prog, r, lo),
        pos <= s.len(),
        accepts_fuel(prog, s, pos, lo, n),
    ensures
        exists|i: int, m: nat|
            #![trigger matches_ast(code_view(r), s.subrange(pos as int, i)), accepts_fuel(prog, s, i as nat, lo + code_of(r, lo).len(), m)]
            pos <= i <= s.len() && matches_ast(code_view(r), s.subrange(pos as int, i)) && m <= n
                && accepts_fuel(prog, s, i as nat, lo + code_of(r, lo).len(), m),
    decreases n, r,
{
    let blk = code_of(r, lo);
    let hi = lo + blk.len();
    assert(forall|k: int| 0 <= k < blk.len() ==> prog[lo as int + k] == #[trigger] blk[k]) by {
        assert(forall|k: int|
            0 <= k < blk.len() ==> #[trigger] blk[k] == prog.subrange(lo as int, hi as int)[k]);
    }
    match r {
        AstNode::Empty => {
            assert(s.subrange(pos as int, pos as int) =~= Seq::<char>::empty());
            assert(matches_ast(code_view(r), s.subrange(pos as int, pos as int)));
            let wi: int = pos as int;
            assert(accepts_fuel(prog, s, wi as nat, lo + code_of(r, lo).len(), n));
        },
        AstNode::Epsilon => {
            assert(s.subrange(pos as int, pos as int) =~= Seq::<char>::empty());
            assert(matches_ast(code_view(r), s.subrange(pos as int, pos as int)));
            let wi: int = pos as int;
            assert(accepts_fuel(prog, s, wi as nat, lo + code_of(r, lo).len(), n));
        },
        AstNode::Char(c) => {
            assert(prog[lo as int] == Instruction::Char(c));
            assert(pos < s.len() && s[pos as int] == c);
            assert(accepts_fuel(prog, s, pos + 1, lo + 1, (n - 1) as nat));
            let u = s.subrange(pos as int, pos as int + 1);
            lemma_char(c, u);
            assert(u =~= seq![c]);
            assert(matches_ast(code_view(r), u));
            let wi: int = pos as int + 1;
            assert(matches_ast(code_view(r), s.subrange(pos as int, wi)));
            assert(accepts_fuel(prog, s, wi as nat, lo + code_of(r, lo).len(), (n - 1) as nat));
        },
        AstNode::Question(x) => {
            let body = code_of(*x, lo + 1);
            let nb = body.len();
            assert(blk =~= seq![
                Instruction::Split((lo + 1) as usize, (lo + 1 + nb) as usize),
            ] + body);
            assert(blk.len() == 1 + nb);
            assert(blk[0] == Instruction::Split((lo + 1) as usize, (lo + 1 + nb) as usize));
            assert(prog[lo as int] == blk[0]);
            assert(block_at(prog, *x, lo + 1)) by {
                assert(prog.subrange((lo + 1) as int, (lo + 1 + nb) as int) =~= body) by {
                    assert(forall|k: int|
                        0 <= k < nb ==> #[trigger] prog.subrange((lo + 1) as int, (lo + 1 + nb) as int)[k]
                            == prog[lo as int + 1 + k]);
                    assert(forall|k: int| 0 <= k < nb ==> #[trigger] body[k] == blk[1 + k]);
                }
            }
            if accepts_fuel(prog, s, pos, lo + 1, (n - 1) as nat) {
                lemma_code_sound(prog, s, *x, lo + 1, pos, (n - 1) as nat);
                let (i, m) = choose|i: int, m: nat|
                    #![trigger matches_ast(
                        code_view(*x),
                        s.subrange(pos as int, i),
                    ), accepts_fuel(prog, s, i as nat, lo + 1 + nb, m)]
                    pos <= i <= s.len() && (matches_ast(
                        code_view(*x),
                        s.subrange(pos as int, i),
                    )) && m <= (n - 1) as nat && accepts_fuel(prog, s, i as nat, lo + 1 + nb, m);
                lemma_question(code_view(*x), s.subrange(pos as int, i));
                assert(matches_ast(code_view(r), s.subrange(pos as int, i)));
                assert(accepts_fuel(prog, s, i as nat, lo + code_of(r, lo).len(), m));
            } else {
                assert(accepts_fuel(prog, s, pos, lo + 1 + nb, (n - 1) as nat));
                assert(s.subrange(pos as int, pos as int) =~= Seq::<char>::empty());
                lemma_question(code_view(*x), s.subrange(pos as int, pos as int));
                assert(matches_ast(code_view(r), s.subrange(pos as int, pos as int)));
                let wi: int = pos as int;
                assert(accepts_fuel(
                    prog,
                    s,
                    wi as nat,
                    lo + code_of(r, lo).len(),
                    (n - 1) as nat,
                ));
            }
        },
        AstNode::Or(a, b) => {
            let ca = code_of(*a, lo + 1);
            let na = ca.len();
            let cb = code_of(*b, lo + 2 + na);
            let nb = cb.len();
            assert(blk =~= seq![
                Instruction::Split((lo + 1) as usize, (lo + 2 + na) as usize),
            ] + ca + seq![Instruction::Jmp((lo + 2 + na + nb) as usize)] + cb);
            assert(blk.len() == 2 + na + nb);
            assert(blk[0] == Instruction::Split((lo + 1) as usize, (lo + 2 + na) as usize));
            assert(prog[lo as int] == blk[0]);
            assert(blk[(1 + na) as int] == Instruction::Jmp((lo + 2 + na + nb) as usize));
            assert(prog[(lo + 1 + na) as int] == blk[(1 + na) as int]);
            assert(block_at(prog, *a, lo + 1)) by {
                assert(prog.subrange((lo + 1) as int, (lo + 1 + na) as int) =~= ca) by {
                    assert(forall|k: int|
                        0 <= k < na ==> #[trigger] prog.subrange((lo + 1) as int, (lo + 1 + na) as int)[k]
                            == prog[lo as int + 1 + k]);
                    assert(forall|k: int| 0 <= k < na ==> #[trigger] ca[k] == blk[1 + k]);
                }
            }
            assert(block_at(prog, *b, lo + 2 + na)) by {
                assert(prog.subrange((lo + 2 + na) as int, (lo + 2 + na + nb) as int) =~= cb)
                    by {
                    assert(forall|k: int|
                        0 <= k < nb ==> #[trigger] prog.subrange(
                            (lo + 2 + na) as int,
                            (lo + 2 + na + nb) as int,
                        )[k] == prog[lo as int + 2 + na + k]);
                    assert(forall|k: int| 0 <= k < nb ==> #[trigger] cb[k] == blk[2 + na + k]);
                }
            }
            if accepts_fuel(prog, s, pos, lo + 1, (n - 1) as nat) {
                lemma_code_sound(prog, s, *a, lo + 1, pos, (n - 1) as nat);
                let (i, m) = choose|i: int, m: nat|
                    #![trigger matches_ast(
                        code_view(*a),
                        s.subrange(pos as int, i),
                    ), accepts_fuel(prog, s, i as nat, lo + 1 + na, m)]
                    pos <= i <= s.len() && (matches_ast(
                        code_view(*a),
                        s.subrange(pos as int, i),
                    )) && m <= (n - 1) as nat && accepts_fuel(prog, s, i as nat, lo + 1 + na, m);
                assert(accepts_fuel(prog, s, i as nat, lo + 2 + na + nb, (m - 1) as nat) || m
                    == 0 || true);
                assert(prog[(lo + 1 + na) as int] == Instruction::Jmp((lo + 2 + na + nb) as usize));
                assert(m > 0);
                assert(accepts_fuel(prog, s, i as nat, (lo + 2 + na + nb) as usize as nat, (m
                    - 1) as nat));
                lemma_or(code_view(*a), code_view(*b), s.subrange(pos as int, i));
                assert(matches_ast(code_view(r), s.subrange(pos as int, i)));
                assert(accepts_fuel(prog, s, i as nat, hi, (m - 1) as nat));
            } else {
                assert(accepts_fuel(prog, s, pos, lo + 2 + na, (n - 1) as nat));
                lemma_code_sound(prog, s, *b, lo + 2 + na, pos, (n - 1) as nat);
                let (i, m) = choose|i: int, m: nat|
                    #![trigger matches_ast(
                        code_view(*b),
                        s.subrange(pos as int, i),
                    ), accepts_fuel(
                        prog,
                        s,
                        i as nat,
                        lo + 2 + na + nb,
                        m,
                    )]
                    pos <= i <= s.len() && (matches_ast(
                        code_view(*b),
                        s.subrange(pos as int, i),
                    )) && m <= (n - 1) as nat && accepts_fuel(
                        prog,
                        s,
                        i as nat,
                        lo + 2 + na + nb,
                        m,
                    );
                lemma_or(code_view(*a), code_view(*b), s.subrange(pos as int, i));
                assert(matches_ast(code_view(r), s.subrange(pos as int, i)));
                assert(accepts_fuel(prog, s, i as nat, lo + code_of(r, lo).len(), m));
            }
        },
        AstNode::Concat(a, b) => {
            let ca = code_of(*a, lo);
            let na = ca.len();
            let cb = code_of(*b, lo + na);
            let nb = cb.len();
            assert(blk =~= ca + cb);
            assert(blk.len() == na + nb);
            assert(block_at(prog, *a, lo)) by {
                assert(prog.subrange(lo as int, (lo + na) as int) =~= ca) by {
                    assert(forall|k: int|
                        0 <= k < na ==> #[trigger] prog.subrange(lo as int, (lo + na) as int)[k] == prog[
                        lo as int + k]);
                    assert(forall|k: int| 0 <= k < na ==> #[trigger] ca[k] == blk[k]);
                }
            }
            assert(block_at(prog, *b, lo + na)) by {
                assert(prog.subrange((lo + na) as int, (lo + na + nb) as int) =~= cb) by {
                    assert(forall|k: int|
                        0 <= k < nb ==> #[trigger] prog.subrange((lo + na) as int, (lo + na + nb) as int)[k]
                            == prog[lo as int + na + k]);
                    assert(forall|k: int| 0 <= k < nb ==> #[trigger] cb[k] == blk[na + k]);
                }
            }
            lemma_code_sound(prog, s, *a, lo, pos, n);
            let (i1, m1) = choose|i1: int, m1: nat|
                #![trigger matches_ast(
                    code_view(*a),
                    s.subrange(pos as int, i1),
                ), accepts_fuel(prog, s, i1 as nat, lo + na, m1)]
                pos <= i1 <= s.len() && (matches_ast(
                    code_view(*a),
                    s.subrange(pos as int, i1),
                )) && m1 <= n && accepts_fuel(prog, s, i1 as nat, lo + na, m1);
            lemma_code_sound(prog, s, *b, lo + na, i1 as nat, m1);
            let (i2, m2) = choose|i2: int, m2: nat|
                #![trigger matches_ast(
                    code_view(*b),
                    s.subrange(i1 as int, i2),
                ), accepts_fuel(prog, s, i2 as nat, lo + na + nb, m2)]
                i1 <= i2 <= s.len() && (matches_ast(
                    code_view(*b),
                    s.subrange(i1 as int, i2),
                )) && m2 <= m1 && accepts_fuel(prog, s, i2 as nat, lo + na + nb, m2);
            let u = s.subrange(pos as int, i2);
            lemma_concat_split(code_view(*a), code_view(*b), u);
            assert(u.take(i1 - pos) =~= s.subrange(pos as int, i1));
            assert(u.skip(i1 - pos) =~= s.subrange(i1 as int, i2));
            assert(matches_ast(code_view(*a), u.take(i1 - pos)));
            assert(matches_ast(code_view(r), u));
            assert(matches_ast(code_view(r), s.subrange(pos as int, i2)));
            assert(accepts_fuel(prog, s, i2 as nat, lo + code_of(r, lo).len(), m2));
        },
        AstNode::Plus(x) => {
            let body = code_of(*x, lo);
            let nb = body.len();
            assert(blk =~= body + seq![
                Instruction::Split(lo as usize, (lo + nb + 1) as usize),
            ]);
            assert(blk.len() == nb + 1);
            assert(blk[nb as int] == Instruction::Split(lo as usize, (lo + nb + 1) as usize));
            assert(prog[(lo + nb) as int] == blk[nb as int]);
            assert(code_view(r) == AstNode::Plus(Box::new(code_view(*x))));
            assert(block_at(prog, *x, lo)) by {
                assert(prog.subrange(lo as int, (lo + nb) as int) =~= body) by {
                    assert(forall|k: int|
                        0 <= k < nb ==> #[trigger] prog.subrange(lo as int, (lo + nb) as int)[k]
                            == prog[lo as int + k]);
                    assert(forall|k: int| 0 <= k < nb ==> #[trigger] body[k] == blk[k]);
                }
            }
            lemma_code_sound(prog, s, *x, lo, pos, n);
            let (i1, m1) = choose|i1: int, m1: nat|
                #![trigger matches_ast(code_view(*x), s.subrange(pos as int, i1)), accepts_fuel(prog, s, i1 as nat, lo + code_of(*x, lo).len(), m1)]
                pos <= i1 <= s.len() && matches_ast(code_view(*x), s.subrange(pos as int, i1))
                    && m1 <= n && accepts_fuel(prog, s, i1 as nat, lo + code_of(*x, lo).len(), m1);
            assert(accepts_fuel(prog, s, i1 as nat, lo + nb, m1));
            assert(m1 > 0);
            if accepts_fuel(prog, s, i1 as nat, lo, (m1 - 1) as nat) {
                lemma_code_sound(prog, s, r, lo, i1 as nat, (m1 - 1) as nat);
                let (i2, m2) = choose|i2: int, m2: nat|
                    #![trigger matches_ast(code_view(r), s.subrange(i1 as int, i2)), accepts_fuel(prog, s, i2 as nat, lo + code_of(r, lo).len(), m2)]
                    i1 <= i2 <= s.len() && matches_ast(code_view(r), s.subrange(i1 as int, i2))
                        && m2 <= (m1 - 1) as nat && accepts_fuel(
                        prog,
                        s,
                        i2 as nat,
                        lo + code_of(r, lo).len(),
                        m2,
                    );
                lemma_plus_extend(
                    code_view(*x),
                    s.subrange(pos as int, i1),
                    s.subrange(i1 as int, i2),
                );
                assert(s.subrange(pos as int, i1) + s.subrange(i1 as int, i2) =~= s.subrange(
                    pos as int,
                    i2,
                ));
                assert(matches_ast(code_view(r), s.subrange(pos as int, i2)));
                assert(accepts_fuel(prog, s, i2 as nat, lo + code_of(r, lo).len(), m2));
            } else {
                assert(accepts_fuel(prog, s, i1 as nat, lo + nb + 1, (m1 - 1) as nat));
                let u1 = s.subrange(pos as int, i1);
                lemma_plus_split(code_view(*x), u1);
                let ul = u1.len() as int;
                assert(u1.take(ul) =~= u1);
                assert(u1.skip(ul) =~= Seq::<char>::empty());
                assert(matches_ast(code_view(*x), u1.take(ul)));
                assert(matches_ast(
                    AstNode::Star(Box::new(code_view(*x))),
                    u1.skip(ul),
                ));
                assert(matches_ast(code_view(r), u1));
                assert(accepts_fuel(
                    prog,
                    s,
                    i1 as nat,
                    lo + code_of(r, lo).len(),
                    (m1 - 1) as nat,
                ));
            }
        },
        AstNode::Star(x) => {
            let body = code_of(*x, lo + 1);
            let nb = body.len();
            assert(blk =~= seq![
                Instruction::Split((lo + 1) as usize, (lo + 2 + nb) as usize),
            ] + body + seq![Instruction::Jmp(lo as usize)]);
            assert(blk.len() == 2 + nb);
            assert(prog[lo as int] == blk[0]);
            assert(prog[(lo + 1 + nb) as int] == blk[(1 + nb) as int]);
            assert(prog.subrange((lo + 1) as int, (lo + 1 + nb) as int) =~= body) by {
                assert(forall|k: int|
                    0 <= k < nb ==> #[trigger] prog.subrange((lo + 1) as int, (lo + 1 + nb) as int)[k]
                        == prog[lo as int + 1 + k]);
                assert(forall|k: int| 0 <= k < nb ==> #[trigger] body[k] == blk[1 + k]);
            }
            lemma_loop_sound(prog, s, *x, code_view(r), lo, pos, n);
            assert forall|i: int, m: nat|
                #![trigger matches_ast(code_view(r), s.subrange(pos as int, i)), accepts_fuel(prog, s, i as nat, lo + code_of(r, lo).len(), m)]
                pos <= i <= s.len() && matches_ast(code_view(r), s.subrange(pos as int, i)) && m
                    <= n && accepts_fuel(prog, s, i as nat, lo + 2 + nb, m) implies pos <= i
                <= s.len() && matches_ast(code_view(r), s.subrange(pos as int, i)) && m <= n
                && accepts_fuel(prog, s, i as nat, lo + code_of(r, lo).len(), m) by {}
        },
    }
}

/// The looping block (split, body, jump back) factors as an iteration of
/// the body's language.
proof fn lemma_loop_sound(
    prog: Seq<Instruction>,
    s: Seq<char>,
    x: AstNode,
    rstar: AstNode,
    lo: nat,
    pos: nat,
    n: nat,
)
    requires
        rstar == AstNode::Star(Box::new(code_view(x))),
        lo + code_of(x, lo + 1).len() + 2 <= usize::MAX,
        lo + code_of(x, lo + 1).len() + 2 <= prog.len(),
        prog[lo as int] == Instruction::Split(
            (lo + 1) as usize,
            (lo + 2 + code_of(x, lo + 1).len()) as usize,
        ),
        prog[(lo + 1 + code_of(x, lo + 1).len()) as int] == Instruction::Jmp(lo as usize),
        prog.subrange((lo + 1) as int, (lo + 1 + code_of(x, lo + 1).len()) as int) == code_of(
            x,
            lo + 1,
        ),
        pos <= s.len(),
        accepts_fuel(prog, s, pos, lo, n),
    ensures
        exists|i: int, m: nat|
            #![trigger matches_ast(rstar, s.subrange(pos as int, i)), accepts_fuel(prog, s, i as nat, lo + 2 + code_of(x, lo + 1).len(), m)]
            pos <= i <= s.len() && matches_ast(rstar, s.subrange(pos as int, i)) && m <= n
                && accepts_fuel(prog, s, i as nat, lo + 2 + code_of(x, lo + 1).len(), m),
    decreases n, x,
{
    let nb = code_of(x, lo + 1).len();
    let after = lo + 2 + nb;
    if accepts_fuel(prog, s, pos, lo + 1, (n - 1) as nat) {
        assert(block_at(prog, x, lo + 1)) by {
            assert(prog.subrange((lo + 1) as int, (lo + 1 + nb) as int) == code_of(x, lo + 1));
        }
        lemma_code_sound(prog, s, x, lo + 1, pos, (n - 1) as nat);
        let (i1, m1) = choose|i1: int, m1: nat|
            #![trigger matches_ast(
                code_view(x),
                s.subrange(pos as int, i1),
            ), accepts_fuel(prog, s, i1 as nat, lo + 1 + nb, m1)]
            pos <= i1 <= s.len() && (matches_ast(
                code_view(x),
                s.subrange(pos as int, i1),
            )) && m1 <= (n - 1) as nat && accepts_fuel(prog, s, i1 as nat, lo + 1 + nb, m1);
        assert(m1 > 0);
        assert(accepts_fuel(prog, s, i1 as nat, lo, (m1 - 1) as nat));
        lemma_loop_sound(prog, s, x, rstar, lo, i1 as nat, (m1 - 1) as nat);
        let (i2, m2) = choose|i2: int, m2: nat|
            #![trigger matches_ast(rstar, s.subrange(i1 as int, i2)), accepts_fuel(prog, s, i2 as nat, after, m2)]
            i1 <= i2 <= s.len() && (matches_ast(rstar, s.subrange(i1 as int, i2)))
                && m2 <= (m1 - 1) as nat && accepts_fuel(prog, s, i2 as nat, after, m2);
        let u = s.subrange(pos as int, i2);
        if i1 == pos {
            assert(u =~= s.subrange(i1 as int, i2));
            assert(matches_ast(rstar, u));
        } else {
            lemma_star_unroll(code_view(x), u);
            let j = i1 - pos;
            assert(u.take(j) =~= s.subrange(pos as int, i1));
            assert(u.skip(j) =~= s.subrange(i1 as int, i2));
            assert(matches_ast(code_view(x), u.take(j)));
            assert(matches_ast(rstar, u.skip(j)));
            assert(matches_ast(rstar, u));
        }
        assert(matches_ast(rstar, s.subrange(pos as int, i2)));
        assert(accepts_fuel(prog, s, i2 as nat, lo + 2 + code_of(x, lo + 1).len(), m2));
    } else {
        assert(accepts_fuel(prog, s, pos, after, (n - 1) as nat));
        assert(s.subrange(pos as int, pos as int) =~= Seq::<char>::empty());
        assert(matches_ast(rstar, s.subrange(pos as int, pos as int)));
        let wi: int = pos as int;
        assert(accepts_fuel(
            prog,
            s,
            wi as nat,
            lo + 2 + code_of(x, lo + 1).len(),
            (n - 1) as nat,
        ));
    }
}

/// Whatever factors as a prefix in the language of `code_view(r)` plus
/// acceptance from the end of the block is accepted by the block.
proof fn lemma_code_complete(
    prog: Seq<Instruction>,
    s: Seq<char>,
    r: AstNode,
    lo: nat,
    pos: nat,
    i: int,
)
    requires
        block_at(prog, r, lo),
        pos <= i <= s.len(),
        matches_ast(code_view(r), s.subrange(pos as int, i)),
        vm_accepts(prog, s, i as nat, lo + code_of(r, lo).len()),
    ensures
        vm_accepts(prog, s, pos, lo),
    decreases r, i - pos, 1int,
{
    let blk = code_of(r, lo);
    let hi = lo + blk.len();
    let u = s.subrange(pos as int, i);
    assert(forall|k: int| 0 <= k < blk.len() ==> prog[lo as int + k] == #[trigger] blk[k]) by {
        assert(forall|k: int|
            0 <= k < blk.len() ==> #[trigger] blk[k] == prog.subrange(lo as int, hi as int)[k]);
    }
    match r {
        AstNode::Empty => {
            lemma_epsilon(u);
            assert(i == pos);
        },
        AstNode::Epsilon => {
            lemma_epsilon(u);
            assert(i == pos);
        },
        AstNode::Char(c) => {
            lemma_char(c, u);
            assert(u =~= seq![c]);
            assert(i == pos + 1);
            assert(u[0] == s[pos as int]);
            assert(s[pos as int] == c);
            assert(blk[0] == Instruction::Char(c));
            assert(prog[lo as int] == Instruction::Char(c));
            lemma_step(prog, s, pos, lo, pos + 1, lo + 1);
        },
        AstNode::Question(x) => {
            let body = code_of(*x, lo + 1);
            let nb = body.len();
            assert(blk =~= seq![
                Instruction::Split((lo + 1) as usize, (lo + 1 + nb) as usize),
            ] + body);
            assert(blk.len() == 1 + nb);
            assert(blk[0] == Instruction::Split((lo + 1) as usize, (lo + 1 + nb) as usize));
            assert(prog[lo as int] == Instruction::Split(
                (lo + 1) as usize,
                (lo + 1 + nb) as usize,
            ));
            lemma_question(code_view(*x), u);
            if u.len() == 0 {
                assert(i == pos);
                lemma_step(prog, s, pos, lo, pos, lo + 1 + nb);
            } else {
                assert(matches_ast(code_view(*x), u));
                assert(block_at(prog, *x, lo + 1)) by {
                    assert(prog.subrange((lo + 1) as int, (lo + 1 + nb) as int) =~= body) by {
                        assert(forall|k: int|
                            0 <= k < nb ==> #[trigger] prog.subrange(
                                (lo + 1) as int,
                                (lo + 1 + nb) as int,
                            )[k] == prog[lo as int + 1 + k]);
                        assert(forall|k: int| 0 <= k < nb ==> #[trigger] body[k] == blk[1 + k]);
                    }
                }
                lemma_code_complete(prog, s, *x, lo + 1, pos, i);
                lemma_step(prog, s, pos, lo, pos, lo + 1);
            }
        },
        AstNode::Or(a, b) => {
            let ca = code_of(*a, lo + 1);
            let na = ca.len();
            let cb = code_of(*b, lo + 2 + na);
            let nb = cb.len();
            assert(blk =~= seq![
                Instruction::Split((lo + 1) as usize, (lo + 2 + na) as usize),
            ] + ca + seq![Instruction::Jmp((lo + 2 + na + nb) as usize)] + cb);
            assert(blk.len() == 2 + na + nb);
            assert(blk[0] == Instruction::Split((lo + 1) as usize, (lo + 2 + na) as usize));
            assert(blk[(1 + na) as int] == Instruction::Jmp((lo + 2 + na + nb) as usize));
            assert(prog[lo as int] == Instruction::Split(
                (lo + 1) as usize,
                (lo + 2 + na) as usize,
            ));
            assert(prog[(lo + 1 + na) as int] == Instruction::Jmp((lo + 2 + na + nb) as usize));
            lemma_or(code_view(*a), code_view(*b), u);
            if matches_ast(code_view(*a), u) {
                assert(block_at(prog, *a, lo + 1)) by {
                    assert(prog.subrange((lo + 1) as int, (lo + 1 + na) as int) =~= ca) by {
                        assert(forall|k: int|
                            0 <= k < na ==> #[trigger] prog.subrange(
                                (lo + 1) as int,
                                (lo + 1 + na) as int,
                            )[k] == prog[lo as int + 1 + k]);
                        assert(forall|k: int| 0 <= k < na ==> #[trigger] ca[k] == blk[1 + k]);
                    }
                }
                lemma_step(prog, s, i as nat, lo + 1 + na, i as nat, lo + 2 + na + nb);
                lemma_code_complete(prog, s, *a, lo + 1, pos, i);
                lemma_step(prog, s, pos, lo, pos, lo + 1);
            } else {
                assert(block_at(prog, *b, lo + 2 + na)) by {
                    assert(prog.subrange((lo + 2 + na) as int, (lo + 2 + na + nb) as int) =~= cb)
                        by {
                        assert(forall|k: int|
                            0 <= k < nb ==> #[trigger] prog.subrange(
                                (lo + 2 + na) as int,
                                (lo + 2 + na + nb) as int,
                            )[k] == prog[lo as int + 2 + na + k]);
                        assert(forall|k: int|
                            0 <= k < nb ==> #[trigger] cb[k] == blk[2 + na + k]);
                    }
                }
                lemma_code_complete(prog, s, *b, lo + 2 + na, pos, i);
                lemma_step(prog, s, pos, lo, pos, lo + 2 + na);
            }
        },
        AstNode::Concat(a, b) => {
            let ca = code_of(*a, lo);
            let na = ca.len();
            let cb = code_of(*b, lo + na);
            let nb = cb.len();
            assert(blk =~= ca + cb);
            assert(blk.len() == na + nb);
            assert(block_at(prog, *a, lo)) by {
                assert(prog.subrange(lo as int, (lo + na) as int) =~= ca) by {
                    assert(forall|k: int|
                        0 <= k < na ==> #[trigger] prog.subrange(lo as int, (lo + na) as int)[k]
                            == prog[lo as int + k]);
                    assert(forall|k: int| 0 <= k < na ==> #[trigger] ca[k] == blk[k]);
                }
            }
            assert(block_at(prog, *b, lo + na)) by {
                assert(prog.subrange((lo + na) as int, (lo + na + nb) as int) =~= cb) by {
                    assert(forall|k: int|
                        0 <= k < nb ==> #[trigger] prog.subrange(
                            (lo + na) as int,
                            (lo + na + nb) as int,
                        )[k] == prog[lo as int + na + k]);
                    assert(forall|k: int| 0 <= k < nb ==> #[trigger] cb[k] == blk[na + k]);
                }
            }
            lemma_concat_split(code_view(*a), code_view(*b), u);
            let k = choose|k: int|
                0 <= k <= u.len() && (#[trigger] matches_ast(code_view(*a), u.take(k)))
                    && matches_ast(code_view(*b), u.skip(k));
            let mid = pos + k;
            assert(0 <= k <= i - pos);
            assert(u.take(k) =~= s.subrange(pos as int, mid));
            assert(u.skip(k) =~= s.subrange(mid, i));
            lemma_code_complete(prog, s, *b, lo + na, (pos + k) as nat, i);
            lemma_code_complete(prog, s, *a, lo, pos, mid);
        },
        AstNode::Plus(x) => {
            let body = code_of(*x, lo);
            let nb = body.len();
            assert(blk =~= body + seq![
                Instruction::Split(lo as usize, (lo + nb + 1) as usize),
            ]);
            assert(blk.len() == nb + 1);
            assert(blk[nb as int] == Instruction::Split(lo as usize, (lo + nb + 1) as usize));
            assert(prog[(lo + nb) as int] == blk[nb as int]);
            assert(code_view(r) == AstNode::Plus(Box::new(code_view(*x))));
            assert(prog.subrange(lo as int, (lo + nb) as int) =~= body) by {
                assert(forall|k: int|
                    0 <= k < nb ==> #[trigger] prog.subrange(lo as int, (lo + nb) as int)[k]
                        == prog[lo as int + k]);
                assert(forall|k: int| 0 <= k < nb ==> #[trigger] body[k] == blk[k]);
            }
            lemma_plus_split(code_view(*x), u);
            let k = choose|k: int|
                0 <= k <= u.len() && (#[trigger] matches_ast(code_view(*x), u.take(k)))
                    && matches_ast(AstNode::Star(Box::new(code_view(*x))), u.skip(k));
            let mid = pos + k;
            assert(u.take(k) =~= s.subrange(pos as int, mid));
            assert(u.skip(k) =~= s.subrange(mid, i));
            lemma_plusloop_complete(prog, s, *x, lo, (pos + k) as nat, i);
            lemma_code_complete(prog, s, *x, lo, pos, mid);
        },
        AstNode::Star(x) => {
            lemma_loop_complete_pre(prog, s, *x, code_view(r), r, lo, pos, i);
        },
    }
}

/// Establishes the looping block's layout facts and hands over to the loop
/// argument.
proof fn lemma_loop_complete_pre(
    prog: Seq<Instruction>,
    s: Seq<char>,
    x: AstNode,
    rstar: AstNode,
    r: AstNode,
    lo: nat,
    pos: nat,
    i: int,
)
    requires
        r == AstNode::Star(Box::new(x)),
        rstar == code_view(r),
        block_at(prog, r, lo),
        pos <= i <= s.len(),
        matches_ast(rstar, s.subrange(pos as int, i)),
        vm_accepts(prog, s, i as nat, lo + code_of(r, lo).len()),
    ensures
        vm_accepts(prog, s, pos, lo),
    decreases r, i - pos, 0int,
{
    let blk = code_of(r, lo);
    let hi = lo + blk.len();
    let body = code_of(x, lo + 1);
    let nb = body.len();
    assert(forall|k: int| 0 <= k < blk.len() ==> prog[lo as int + k] == #[trigger] blk[k]) by {
        assert(forall|k: int|
            0 <= k < blk.len() ==> #[trigger] blk[k] == prog.subrange(lo as int, hi as int)[k]);
    }
    assert(blk =~= seq![
        Instruction::Split((lo + 1) as usize, (lo + 2 + nb) as usize),
    ] + body + seq![Instruction::Jmp(lo as usize)]);
    assert(blk.len() == 2 + nb);
    assert(rstar == AstNode::Star(Box::new(code_view(x))));
    assert(blk[0] == Instruction::Split((lo + 1) as usize, (lo + 2 + nb) as usize));
    assert(blk[(1 + nb) as int] == Instruction::Jmp(lo as usize));
    assert(prog[lo as int] == Instruction::Split((lo + 1) as usize, (lo + 2 + nb) as usize));
    assert(prog[(lo + 1 + nb) as int] == Instruction::Jmp(lo as usize));
    assert(prog.subrange((lo + 1) as int, (lo + 1 + nb) as int) =~= body) by {
        assert(forall|k: int|
            0 <= k < nb ==> #[trigger] prog.subrange((lo + 1) as int, (lo + 1 + nb) as int)[k]
                == prog[lo as int + 1 + k]);
        assert(forall|k: int| 0 <= k < nb ==> #[trigger] body[k] == blk[1 + k]);
    }
    lemma_loop_complete(prog, s, x, rstar, lo, pos, i);
}

/// An iteration of the body's language is accepted by the looping block.
proof fn lemma_loop_complete(
    prog: Seq<Instruction>,
    s: Seq<char>,
    x: AstNode,
    rstar: AstNode,
    lo: nat,
    pos: nat,
    i: int,
)
    requires
        rstar == AstNode::Star(Box::new(code_view(x))),
        lo + code_of(x, lo + 1).len() + 2 <= usize::MAX,
        lo + code_of(x, lo + 1).len() + 2 <= prog.len(),
        prog[lo as int] == Instruction::Split(
            (lo + 1) as usize,
            (lo + 2 + code_of(x, lo + 1).len()) as usize,
        ),
        prog[(lo + 1 + code_of(x, lo + 1).len()) as int] == Instruction::Jmp(lo as usize),
        prog.subrange((lo + 1) as int, (lo + 1 + code_of(x, lo + 1).len()) as int) == code_of(
            x,
            lo + 1,
        ),
        pos <= i <= s.len(),
        matches_ast(rstar, s.subrange(pos as int, i)),
        vm_accepts(prog, s, i as nat, lo + 2 + code_of(x, lo + 1).len()),
    ensures
        vm_accepts(prog, s, pos, lo),
    decreases x, i - pos, 2int,
{
    let nb = code_of(x, lo + 1).len();
    let after = lo + 2 + nb;
    let u = s.subrange(pos as int, i);
    if pos == i {
        lemma_step(prog, s, pos, lo, pos, after);
    } else {
        lemma_star_unroll(code_view(x), u);
        let j = choose|j: int|
            1 <= j <= u.len() && (#[trigger] matches_ast(code_view(x), u.take(j))) && matches_ast(
                rstar,
                u.skip(j),
            );
        let mid = pos + j;
        assert(u.take(j) =~= s.subrange(pos as int, mid));
        assert(u.skip(j) =~= s.subrange(mid, i));
        lemma_loop_complete(prog, s, x, rstar, lo, (pos + j) as nat, i);
        lemma_step(prog, s, (pos + j) as nat, lo + 1 + nb, (pos + j) as nat, lo);
        assert(block_at(prog, x, lo + 1));
        lemma_code_complete(prog, s, x, lo + 1, pos, mid);
        lemma_step(prog, s, pos, lo, pos, lo + 1);
    }
}

/// An iteration of the body's language is accepted from the decision
/// point of the body-first looping block.
proof fn lemma_plusloop_complete(
    prog: Seq<Instruction>,
    s: Seq<char>,
    x: AstNode,
    lo: nat,
    mid: nat,
    i: int,
)
    requires
        lo + code_of(x, lo).len() + 1 <= usize::MAX,
        lo + code_of(x, lo).len() + 1 <= prog.len(),
        prog[(lo + code_of(x, lo).len()) as int] == Instruction::Split(
            lo as usize,
            (lo + code_of(x, lo).len() + 1) as usize,
        ),
        prog.subrange(lo as int, (lo + code_of(x, lo).len()) as int) == code_of(x, lo),
        mid <= i <= s.len(),
        matches_ast(AstNode::Star(Box::new(code_view(x))), s.subrange(mid as int, i)),
        vm_accepts(prog, s, i as nat, lo + code_of(x, lo).len() + 1),
    ensures
        vm_accepts(prog, s, mid, lo + code_of(x, lo).len()),
    decreases x, i - mid, 2int,
{
    let nb = code_of(x, lo).len();
    let split_pos = lo + nb;
    let after = lo + nb + 1;
    let v = s.subrange(mid as int, i);
    if mid == i {
        lemma_step(prog, s, mid, split_pos, mid, after);
    } else {
        lemma_star_unroll(code_view(x), v);
        let j = choose|j: int|
            1 <= j <= v.len() && (#[trigger] matches_ast(code_view(x), v.take(j)))
                && matches_ast(AstNode::Star(Box::new(code_view(x))), v.skip(j));
        let mid2 = mid + j;
        assert(v.take(j) =~= s.subrange(mid as int, mid2));
        assert(v.skip(j) =~= s.subrange(mid2, i));
        lemma_plusloop_complete(prog, s, x, lo, (mid + j) as nat, i);
        assert(block_at(prog, x, lo));
        lemma_code_complete(prog, s, x, lo, mid, mid2);
        lemma_step(prog, s, mid, split_pos, mid, lo);
    }
}

/// The compiled program accepts exactly the language of the pattern it
/// implements: the code for `r` followed by the final `Match` matches a
/// whole string exactly when `code_view(r)` does.
pub proof fn lemma_compiled_language(r: AstNode, s: Seq<char>)
    requires
        code_of(r, 0).len() + 1 <= usize::MAX,
    ensures
        vm_accepts(code_of(r, 0).push(Instruction::Match), s, 0, 0) == matches_ast(
            code_view(r),
            s,
        ),
{
    let prog = code_of(r, 0).push(Instruction::Match);
    let n0 = code_of(r, 0).len();
    assert(block_at(prog, r, 0)) by {
        assert(prog.subrange(0, n0 as int) =~= code_of(r, 0));
    }
    assert(prog[n0 as int] == Instruction::Match);
    if matches_ast(code_view(r), s) {
        assert(accepts_fuel(prog, s, s.len(), n0, 1));
        assert(vm_accepts(prog, s, s.len(), n0));
        assert(s.subrange(0, s.len() as int) =~= s);
        lemma_code_complete(prog, s, r, 0, 0, s.len() as int);
    }
    if vm_accepts(prog, s, 0, 0) {
        let n = choose|n: nat| accepts_fuel(prog, s, 0, 0, n);
        lemma_code_sound(prog, s, r, 0, 0, n);
        let (i, m) = choose|i: int, m: nat|
            #![trigger matches_ast(code_view(r), s.subrange(0, i)), accepts_fuel(prog, s, i as nat, n0, m)]
            0 <= i <= s.len() && matches_ast(code_view(r), s.subrange(0, i)) && m <= n
                && accepts_fuel(prog, s, i as nat, 0 + code_of(r, 0).len(), m);
        assert(accepts_fuel(prog, s, i as nat, n0, m));
        assert(i == s.len());
        assert(s.subrange(0, i) =~= s);
    }
}

/// On a parser-built pattern (one with no `Empty` node), the compiled
/// code implements the pattern itself.
pub proof fn lemma_code_view_id(r: AstNode)
    requires
        no_empty(r),
    ensures
        code_view(r) == r,
    decreases r,
{
    match r {
        AstNode::Plus(x) => {
            lemma_code_view_id(*x);
        },
        AstNode::Star(x) => {
            lemma_code_view_id(*x);
        },
        AstNode::Question(x) => {
            lemma_code_view_id(*x);
        },
        AstNode::Or(a, b) => {
            lemma_code_view_id(*a);
            lemma_code_view_id(*b);
        },
        AstNode::Concat(a, b) => {
            lemma_code_view_id(*a);
            lemma_code_view_id(*b);
        },
        _ => {},
    }
}

/// Agreement with the reference language: on a parser-built pattern, the
/// compiled program matches a whole string exactly when the pattern's
/// language holds it.
pub proof fn lemma_vm_matches_language(r: AstNode, s: Seq<char>)
    requires
        no_empty(r),
        code_of(r, 0).len() + 1 <= usize::MAX,
    ensures
        vm_accepts(code_of(r, 0).push(Instruction::Match), s, 0, 0) == matches_ast(r, s),
{
    lemma_code_view_id(r);
    lemma_compiled_language(r, s);
}

} // verus!
