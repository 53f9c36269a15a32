use std::collections::HashMap;

use vstd::arithmetic::div_mod::lemma_div_is_ordered;
use vstd::prelude::*;
use vstd::set_lib::lemma_int_range;

use crate::vm::cache::{fkey, lemma_fkey_inj, stride_of, BitmapCache};
use crate::vm::instruction::Instruction;

verus! {

broadcast use vstd::std_specs::hash::group_hash_axioms;

/// The program accepts from position `pos` at program counter `pc` within
/// `n` execution steps: `Char` consumes one matching input character,
/// `Split` tries either target, `Jmp` moves on, and `Match` accepts exactly
/// at the end of the input. A program counter outside the program accepts
/// nothing.
pub open spec fn accepts_fuel(
    prog: Seq<Instruction>,
    s: Seq<char>,
    pos: nat,
    pc: nat,
    n: nat,
) -> bool
    decreases n,
{
    &&& n > 0
    &&& pc < prog.len()
    &&& match prog[pc as int] {
        Instruction::Char(c) => pos < s.len() && s[pos as int] == c && accepts_fuel(
            prog,
            s,
            pos + 1,
            pc + 1,
            (n - 1) as nat,
        ),
        Instruction::Split(x, y) => accepts_fuel(prog, s, pos, x as nat, (n - 1) as nat)
            || accepts_fuel(prog, s, pos, y as nat, (n - 1) as nat),
        Instruction::Jmp(x) => accepts_fuel(prog, s, pos, x as nat, (n - 1) as nat),
        Instruction::Match => pos == s.len(),
    }
}

/// The bytecode semantics: the program accepts the rest of `s` from
/// (`pos`, `pc`) in some finite number of steps.
pub open spec fn vm_accepts(prog: Seq<Instruction>, s: Seq<char>, pos: nat, pc: nat) -> bool {
    exists|n: nat| accepts_fuel(prog, s, pos, pc, n)
}

pub(crate) proof fn lemma_step(prog: Seq<Instruction>, s: Seq<char>, pos: nat, pc: nat, spos: nat, spc: nat)
    requires
        pc < prog.len(),
        match prog[pc as int] {
            Instruction::Char(c) => pos < s.len() && s[pos as int] == c && spos == pos + 1 && spc
                == pc + 1,
            Instruction::Split(x, y) => spos == pos && (spc == x || spc == y),
            Instruction::Jmp(x) => spos == pos && spc == x,
            Instruction::Match => false,
        },
        vm_accepts(prog, s, spos, spc),
    ensures
        vm_accepts(prog, s, pos, pc),
{
    let n = choose|n: nat| accepts_fuel(prog, s, spos, spc, n);
    assert(accepts_fuel(prog, s, pos, pc, n + 1));
}

proof fn lemma_pos_beyond(prog: Seq<Instruction>, s: Seq<char>, pos: nat, pc: nat)
    requires
        pos > s.len(),
    ensures
        !vm_accepts(prog, s, pos, pc),
{
    assert forall|n: nat| !accepts_fuel(prog, s, pos, pc, n) by {
        lemma_pos_beyond_fuel(prog, s, pos, pc, n);
    }
}

proof fn lemma_pos_beyond_fuel(prog: Seq<Instruction>, s: Seq<char>, pos: nat, pc: nat, n: nat)
    requires
        pos > s.len(),
    ensures
        !accepts_fuel(prog, s, pos, pc, n),
    decreases n,
{
    if n > 0 && pc < prog.len() {
        match prog[pc as int] {
            Instruction::Char(_) => {},
            Instruction::Split(x, y) => {
                lemma_pos_beyond_fuel(prog, s, pos, x as nat, (n - 1) as nat);
                lemma_pos_beyond_fuel(prog, s, pos, y as nat, (n - 1) as nat);
            },
            Instruction::Jmp(x) => {
                lemma_pos_beyond_fuel(prog, s, pos, x as nat, (n - 1) as nat);
            },
            Instruction::Match => {},
        }
    }
}

/// The stack holds (program counter, input position) pairs.
spec fn in_stack(st: Seq<(usize, usize)>, c: (nat, nat)) -> bool {
    exists|k: int| 0 <= k < st.len() && (#[trigger] st[k]).0 == c.1 && st[k].1 == c.0
}

/// A configuration is accounted for: already visited, waiting on the
/// stack, outside the program, or the one currently being explored.
spec fn covered(
    prog: Seq<Instruction>,
    vset: Set<(nat, nat)>,
    st: Seq<(usize, usize)>,
    cpos: nat,
    cpc: nat,
    c: (nat, nat),
) -> bool {
    vset.contains(c) || in_stack(st, c) || c.1 >= prog.len() || c == (cpos, cpc)
}

/// Every successor of a visited configuration is accounted for, and no
/// visited configuration accepts immediately.
spec fn cfg_ok(
    prog: Seq<Instruction>,
    s: Seq<char>,
    vset: Set<(nat, nat)>,
    st: Seq<(usize, usize)>,
    cpos: nat,
    cpc: nat,
    c: (nat, nat),
) -> bool {
    c.1 < prog.len() ==> match prog[c.1 as int] {
        Instruction::Char(ch) => (c.0 < s.len() && s[c.0 as int] == ch) ==> covered(
            prog,
            vset,
            st,
            cpos,
            cpc,
            ((c.0 + 1) as nat, (c.1 + 1) as nat),
        ),
        Instruction::Split(x, y) => covered(prog, vset, st, cpos, cpc, (c.0, x as nat)) && covered(
            prog,
            vset,
            st,
            cpos,
            cpc,
            (c.0, y as nat),
        ),
        Instruction::Jmp(x) => covered(prog, vset, st, cpos, cpc, (c.0, x as nat)),
        Instruction::Match => c.0 != s.len(),
    }
}

spec fn closure_ok(
    prog: Seq<Instruction>,
    s: Seq<char>,
    vset: Set<(nat, nat)>,
    st: Seq<(usize, usize)>,
    cpos: nat,
    cpc: nat,
) -> bool {
    forall|c: (nat, nat)| vset.contains(c) ==> cfg_ok(prog, s, vset, st, cpos, cpc, c)
}

/// With nothing left to explore, every successor of a visited
/// configuration is visited or outside the program.
spec fn closed_plain(prog: Seq<Instruction>, s: Seq<char>, vset: Set<(nat, nat)>) -> bool {
    forall|c: (nat, nat)|
        vset.contains(c) ==> (c.1 < prog.len() ==> match prog[c.1 as int] {
            Instruction::Char(ch) => (c.0 < s.len() && s[c.0 as int] == ch) ==> (vset.contains(
                ((c.0 + 1) as nat, (c.1 + 1) as nat),
            ) || c.1 + 1 >= prog.len()),
            Instruction::Split(x, y) => (vset.contains((c.0, x as nat)) || x >= prog.len()) && (
            vset.contains((c.0, y as nat)) || y >= prog.len()),
            Instruction::Jmp(x) => vset.contains((c.0, x as nat)) || x >= prog.len(),
            Instruction::Match => c.0 != s.len(),
        })
}

/// A search that visited everything it reached and found no accepting
/// configuration refutes acceptance from any visited or dead
/// configuration, whatever the step budget.
proof fn lemma_closed_refutes(
    prog: Seq<Instruction>,
    s: Seq<char>,
    vset: Set<(nat, nat)>,
    c: (nat, nat),
    n: nat,
)
    requires
        closed_plain(prog, s, vset),
        vset.contains(c) || c.1 >= prog.len(),
    ensures
        !accepts_fuel(prog, s, c.0, c.1, n),
    decreases n,
{
    if c.1 < prog.len() && n > 0 {
        match prog[c.1 as int] {
            Instruction::Char(ch) => {
                if c.0 < s.len() && s[c.0 as int] == ch {
                    lemma_closed_refutes(
                        prog,
                        s,
                        vset,
                        ((c.0 + 1) as nat, (c.1 + 1) as nat),
                        (n - 1) as nat,
                    );
                }
            },
            Instruction::Split(x, y) => {
                lemma_closed_refutes(prog, s, vset, (c.0, x as nat), (n - 1) as nat);
                lemma_closed_refutes(prog, s, vset, (c.0, y as nat), (n - 1) as nat);
            },
            Instruction::Jmp(x) => {
                lemma_closed_refutes(prog, s, vset, (c.0, x as nat), (n - 1) as nat);
            },
            Instruction::Match => {},
        }
    }
}

/// The set of configurations the search has visited. Never forgets: the
/// completeness and termination of the search rest on visited pairs
/// staying visited, so the capacity-bounded evicting cache cannot stand
/// here; a dense bitmap serves small dimensions and an unbounded table the
/// rest.
enum VisitedSet {
    Bits(BitmapCache),
    Table(HashMap<u128, bool>),
}

impl VisitedSet {
    spec fn wf(&self, plen: nat, ilen: nat) -> bool {
        match self {
            VisitedSet::Bits(b) => b.wf() && b.spec_stride() == stride_of(plen)
                && b.spec_input_size() == ilen,
            VisitedSet::Table(_) => true,
        }
    }

    spec fn view_set(&self) -> Set<(nat, nat)> {
        match self {
            VisitedSet::Bits(b) => Set::new(|c: (nat, nat)| b.has(c.0, c.1)),
            VisitedSet::Table(m) => Set::new(
                |c: (nat, nat)|
                    c.0 < 0x1_0000_0000_0000_0000 && c.1 < 0x1_0000_0000_0000_0000
                        && m@.contains_key(fkey(c.0, c.1)),
            ),
        }
    }

    fn new(plen: usize, ilen: usize) -> (r: VisitedSet)
        ensures
            r.wf(plen as nat, ilen as nat),
            forall|c: (nat, nat)| !r.view_set().contains(c),
    {
        if plen <= crate::vm::cache::BITMAP_BIT_LIMIT {
            let stride: usize = if plen == 0 {
                0
            } else {
                (plen - 1) / 64 + 1
            };
            proof {
                assert(stride == stride_of(plen as nat));
                assert(stride <= 4);
            }
            proof {
                assert((ilen as int) * (stride as int) * 8
                    < 0x1_0000_0000_0000_0000_0000_0000_0000_0000) by (nonlinear_arith)
                    requires
                        ilen <= 0xFFFF_FFFF_FFFF_FFFFu64 as int,
                        0 <= stride <= 4,
                {
                }
            }
            let bytes: u128 = (ilen as u128) * (stride as u128) * 8;
            if bytes <= crate::vm::cache::MAX_BITMAP_BYTES as u128 {
                proof {
                    assert((ilen + 1) * (stride as nat) <= usize::MAX) by (nonlinear_arith)
                        requires
                            stride <= 4,
                            ilen * (stride as nat) * 8 <= crate::vm::cache::MAX_BITMAP_BYTES,
                            crate::vm::cache::MAX_BITMAP_BYTES == 16 * 1024 * 1024,
                            ilen >= 0,
                            usize::MAX >= 0xFFFF_FFFF,
                    {
                    }
                }
                return VisitedSet::Bits(BitmapCache::new(plen, ilen));
            }
        }
        VisitedSet::Table(HashMap::new())
    }

    fn contains(
        &self,
        pos: usize,
        pc: usize,
        Ghost(plen): Ghost<nat>,
        Ghost(ilen): Ghost<nat>,
    ) -> (r: bool)
        requires
            self.wf(plen, ilen),
        ensures
            r == self.view_set().contains((pos as nat, pc as nat)),
    {
        match self {
            VisitedSet::Bits(b) => b.contains(pos, pc),
            VisitedSet::Table(m) => {
                let key: u128 = (pos as u128) * 0x1_0000_0000_0000_0000u128 + (pc as u128);
                proof {
                    assert(key == fkey(pos as nat, pc as nat));
                }
                m.contains_key(&key)
            },
        }
    }

    fn insert(&mut self, pos: usize, pc: usize, Ghost(plen): Ghost<nat>, Ghost(ilen): Ghost<nat>)
        requires
            old(self).wf(plen, ilen),
            pos as nat <= ilen,
            (pc as nat) < plen,
        ensures
            final(self).wf(plen, ilen),
            final(self).view_set() == old(self).view_set().insert((pos as nat, pc as nat)),
    {
        match self {
            VisitedSet::Bits(b) => {
                proof {
                    if plen >= 1 {
                        lemma_div_is_ordered(pc as int, plen - 1, 64);
                    }
                    assert((pc as nat) / 64 < stride_of(plen));
                }
                b.insert(pos, pc);
                proof {
                    assert(self.view_set() =~= old(self).view_set().insert(
                        (pos as nat, pc as nat),
                    ));
                }
            },
            VisitedSet::Table(m) => {
                let key: u128 = (pos as u128) * 0x1_0000_0000_0000_0000u128 + (pc as u128);
                proof {
                    assert(key == fkey(pos as nat, pc as nat));
                }
                m.insert(key, true);
                proof {
                    assert forall|c: (nat, nat)|
                        self.view_set().contains(c) == old(self).view_set().insert(
                            (pos as nat, pc as nat),
                        ).contains(c) by {
                        if c.0 < 0x1_0000_0000_0000_0000 && c.1 < 0x1_0000_0000_0000_0000 {
                            if fkey(c.0, c.1) == key {
                                lemma_fkey_inj(c.0, c.1, pos as nat, pc as nat);
                            }
                        }
                    }
                    assert(self.view_set() =~= old(self).view_set().insert(
                        (pos as nat, pc as nat),
                    ));
                }
            },
        }
    }
}

/// The key under which an unvisited configuration is counted.
spec fn cfg_index(pos: nat, pc: nat, plen: nat) -> int {
    (pos * plen + pc) as int
}

proof fn lemma_cfg_index_inj(p1: nat, q1: nat, p2: nat, q2: nat, plen: nat)
    requires
        q1 < plen,
        q2 < plen,
        cfg_index(p1, q1, plen) == cfg_index(p2, q2, plen),
    ensures
        p1 == p2,
        q1 == q2,
{
    assert(p1 == p2 && q1 == q2) by (nonlinear_arith)
        requires
            q1 < plen,
            q2 < plen,
            p1 * plen + q1 == p2 * plen + q2,
    {
    }
}

proof fn lemma_cfg_index_range(pos: nat, pc: nat, plen: nat, ilen: nat)
    requires
        pos <= ilen,
        pc < plen,
    ensures
        0 <= cfg_index(pos, pc, plen) < (ilen + 1) * plen,
{
    assert(pos * plen + pc < (ilen + 1) * plen) by (nonlinear_arith)
        requires
            pos <= ilen,
            pc < plen,
    {
    }
}

/// The depth-first backtracking interpreter. From each configuration it
/// follows the instruction, trying `Split` targets in order with the
/// untried branch saved on an explicit stack; a visited-set prunes
/// re-exploration, which both bounds the work and cuts cycles of `Jmp` and
/// `Split` instructions. Returns exactly whether the program accepts the
/// rest of the input from the given start.
pub fn _eval(inst: &[Instruction], input: &Vec<char>, input_looking: usize, pc: usize) -> (r: bool)
    ensures
        r == vm_accepts(inst@, input@, input_looking as nat, pc as nat),
{
    let plen = inst.len();
    let ilen = input.len();
    if input_looking > ilen {
        proof {
            lemma_pos_beyond(inst@, input@, input_looking as nat, pc as nat);
        }
        return false;
    }
    if plen == 0 {
        proof {
            assert forall|n: nat| !accepts_fuel(inst@, input@, input_looking as nat, pc as nat, n)
                by {}
        }
        return false;
    }
    let mut visited = VisitedSet::new(plen, ilen);
    let mut stack: Vec<(usize, usize)> = Vec::new();
    let mut pos: usize = input_looking;
    let mut cur: usize = pc;
    let ghost total = ((ilen + 1) * plen) as int;
    let ghost mut fresh: Set<int> = vstd::set_lib::set_int_range(0, total);
    proof {
        assert((ilen + 1) * plen >= 0) by (nonlinear_arith)
            requires
                plen >= 0,
                ilen >= 0,
        {
        }
        lemma_int_range(0, total);
        assert forall|p: nat, q: nat|
            p <= ilen && q < plen implies (visited.view_set().contains((p, q)) == !fresh.contains(
            #[trigger] cfg_index(p, q, plen as nat),
        )) by {
            lemma_cfg_index_range(p, q, plen as nat, ilen as nat);
            assert(!visited.view_set().contains((p, q)));
        }
    }
    loop
        invariant
            plen == inst@.len(),
            ilen == input@.len(),
            plen > 0,
            pos <= ilen,
            visited.wf(plen as nat, ilen as nat),
            fresh.finite(),
            forall|p: nat, q: nat|
                p <= ilen && q < plen ==> (visited.view_set().contains((p, q)) == !fresh.contains(
                    #[trigger] cfg_index(p, q, plen as nat),
                )),
            forall|k: int|
                0 <= k < stack@.len() ==> (#[trigger] stack@[k]).1 <= ilen,
            forall|k: int|
                0 <= k < stack@.len() ==> (vm_accepts(
                    inst@,
                    input@,
                    (#[trigger] stack@[k]).1 as nat,
                    stack@[k].0 as nat,
                ) ==> vm_accepts(inst@, input@, input_looking as nat, pc as nat)),
            vm_accepts(inst@, input@, pos as nat, cur as nat) ==> vm_accepts(
                inst@,
                input@,
                input_looking as nat,
                pc as nat,
            ),
            closure_ok(inst@, input@, visited.view_set(), stack@, pos as nat, cur as nat),
            covered(
                inst@,
                visited.view_set(),
                stack@,
                pos as nat,
                cur as nat,
                (input_looking as nat, pc as nat),
            ),
        decreases fresh.len(), stack@.len(),
    {
        let ghost vset0 = visited.view_set();
        let ghost st0 = stack@;
        let ghost pos0 = pos as nat;
        let ghost cur0 = cur as nat;
        let ghost start_cfg = (input_looking as nat, pc as nat);
        let mut advanced = false;
        if cur < plen && !visited.contains(pos, cur, Ghost(plen as nat), Ghost(ilen as nat)) {
            visited.insert(pos, cur, Ghost(plen as nat), Ghost(ilen as nat));
            proof {
                lemma_cfg_index_range(pos as nat, cur as nat, plen as nat, ilen as nat);
                assert(fresh.contains(cfg_index(pos as nat, cur as nat, plen as nat)));
                fresh = fresh.remove(cfg_index(pos as nat, cur as nat, plen as nat));
                assert forall|p: nat, q: nat|
                    p <= ilen && q < plen implies (visited.view_set().contains((p, q))
                    == !fresh.contains(#[trigger] cfg_index(p, q, plen as nat))) by {
                    if cfg_index(p, q, plen as nat) == cfg_index(
                        pos as nat,
                        cur as nat,
                        plen as nat,
                    ) {
                        lemma_cfg_index_inj(p, q, pos as nat, cur as nat, plen as nat);
                    }
                }
            }
            let ghost vset1 = visited.view_set();
            match inst[cur] {
                Instruction::Char(c) => {
                    if pos < ilen && input[pos] == c {
                        pos = pos + 1;
                        cur = cur + 1;
                        proof {
                            if vm_accepts(inst@, input@, pos as nat, cur as nat) {
                                lemma_step(inst@, input@, pos0, cur0, pos as nat, cur as nat);
                            }
                            assert forall|c2: (nat, nat)|
                                visited.view_set().contains(c2) implies cfg_ok(
                                inst@,
                                input@,
                                visited.view_set(),
                                stack@,
                                pos as nat,
                                cur as nat,
                                c2,
                            ) by {
                                if c2 != (pos0, cur0) {
                                    assert(cfg_ok(inst@, input@, vset0, st0, pos0, cur0, c2));
                                }
                            }
                            assert(covered(
                                inst@,
                                visited.view_set(),
                                stack@,
                                pos as nat,
                                cur as nat,
                                start_cfg,
                            )) by {
                                assert(covered(inst@, vset0, st0, pos0, cur0, start_cfg));
                            }
                        }
                        advanced = true;
                    } else {
                        proof {
                            assert forall|c2: (nat, nat)|
                                visited.view_set().contains(c2) implies cfg_ok(
                                inst@,
                                input@,
                                visited.view_set(),
                                stack@,
                                pos as nat,
                                cur as nat,
                                c2,
                            ) by {
                                if c2 != (pos0, cur0) {
                                    assert(cfg_ok(inst@, input@, vset0, st0, pos0, cur0, c2));
                                }
                            }
                            assert(covered(
                                inst@,
                                visited.view_set(),
                                stack@,
                                pos as nat,
                                cur as nat,
                                start_cfg,
                            )) by {
                                assert(covered(inst@, vset0, st0, pos0, cur0, start_cfg));
                            }
                        }
                    }
                },
                Instruction::Split(x, y) => {
                    stack.push((y, pos));
                    cur = x;
                    proof {
                        assert(stack@ =~= st0.push((y, pos)));
                        if vm_accepts(inst@, input@, pos as nat, cur as nat) {
                            lemma_step(inst@, input@, pos0, cur0, pos0, x as nat);
                        }
                        assert forall|k: int|
                            0 <= k < stack@.len() implies (vm_accepts(
                            inst@,
                            input@,
                            (#[trigger] stack@[k]).1 as nat,
                            stack@[k].0 as nat,
                        ) ==> vm_accepts(inst@, input@, input_looking as nat, pc as nat)) by {
                            if k == stack@.len() - 1 {
                                if vm_accepts(inst@, input@, pos0, y as nat) {
                                    lemma_step(inst@, input@, pos0, cur0, pos0, y as nat);
                                }
                            } else {
                                assert(stack@[k] == st0[k]);
                            }
                        }
                        assert(in_stack(stack@, (pos0, y as nat))) by {
                            assert((#[trigger] stack@[st0.len() as int]).0 == y);
                        }
                        assert forall|cc: (nat, nat)|
                            covered(inst@, vset0, st0, pos0, cur0, cc) implies covered(
                            inst@,
                            visited.view_set(),
                            stack@,
                            pos as nat,
                            cur as nat,
                            cc,
                        ) by {
                            if in_stack(st0, cc) {
                                let k = choose|k: int|
                                    0 <= k < st0.len() && (#[trigger] st0[k]).0 == cc.1 && st0[k].1
                                        == cc.0;
                                assert((#[trigger] stack@[k]).0 == cc.1);
                            }
                            if cc == (pos0, cur0) {
                                assert(visited.view_set().contains(cc));
                            }
                        }
                        assert forall|c2: (nat, nat)|
                            visited.view_set().contains(c2) implies cfg_ok(
                            inst@,
                            input@,
                            visited.view_set(),
                            stack@,
                            pos as nat,
                            cur as nat,
                            c2,
                        ) by {
                            if c2 == (pos0, cur0) {
                                assert(covered(
                                    inst@,
                                    visited.view_set(),
                                    stack@,
                                    pos as nat,
                                    cur as nat,
                                    (pos0, x as nat),
                                ));
                                assert(covered(
                                    inst@,
                                    visited.view_set(),
                                    stack@,
                                    pos as nat,
                                    cur as nat,
                                    (pos0, y as nat),
                                ));
                            } else {
                                assert(cfg_ok(inst@, input@, vset0, st0, pos0, cur0, c2));
                            }
                        }
                        assert(covered(
                            inst@,
                            visited.view_set(),
                            stack@,
                            pos as nat,
                            cur as nat,
                            start_cfg,
                        )) by {
                            assert(covered(inst@, vset0, st0, pos0, cur0, start_cfg));
                            if in_stack(st0, start_cfg) {
                                let k = choose|k: int|
                                    0 <= k < st0.len() && (#[trigger] st0[k]).0 == start_cfg.1
                                        && st0[k].1 == start_cfg.0;
                                assert((#[trigger] stack@[k]).0 == start_cfg.1);
                            }
                        }
                    }
                    advanced = true;
                },
                Instruction::Jmp(x) => {
                    cur = x;
                    proof {
                        if vm_accepts(inst@, input@, pos as nat, cur as nat) {
                            lemma_step(inst@, input@, pos0, cur0, pos0, x as nat);
                        }
                        assert forall|c2: (nat, nat)|
                            visited.view_set().contains(c2) implies cfg_ok(
                            inst@,
                            input@,
                            visited.view_set(),
                            stack@,
                            pos as nat,
                            cur as nat,
                            c2,
                        ) by {
                            if c2 != (pos0, cur0) {
                                assert(cfg_ok(inst@, input@, vset0, st0, pos0, cur0, c2));
                            }
                        }
                        assert(covered(
                            inst@,
                            visited.view_set(),
                            stack@,
                            pos as nat,
                            cur as nat,
                            start_cfg,
                        )) by {
                            assert(covered(inst@, vset0, st0, pos0, cur0, start_cfg));
                        }
                    }
                    advanced = true;
                },
                Instruction::Match => {
                    if pos == ilen {
                        proof {
                            assert(accepts_fuel(inst@, input@, pos as nat, cur as nat, 1));
                        }
                        return true;
                    }
                    proof {
                        assert forall|c2: (nat, nat)|
                            visited.view_set().contains(c2) implies cfg_ok(
                            inst@,
                            input@,
                            visited.view_set(),
                            stack@,
                            pos as nat,
                            cur as nat,
                            c2,
                        ) by {
                            if c2 != (pos0, cur0) {
                                assert(cfg_ok(inst@, input@, vset0, st0, pos0, cur0, c2));
                            }
                        }
                        assert(covered(
                            inst@,
                            visited.view_set(),
                            stack@,
                            pos as nat,
                            cur as nat,
                            start_cfg,
                        )) by {
                            assert(covered(inst@, vset0, st0, pos0, cur0, start_cfg));
                        }
                    }
                },
            }
        }
        if !advanced {
            // the current configuration is visited or outside the program
            let ghost vs1 = visited.view_set();
            proof {
                assert(vs1.contains((pos as nat, cur as nat)) || cur as nat >= plen);
                assert(closure_ok(inst@, input@, vs1, st0, pos0, cur0));
                assert(covered(inst@, vs1, st0, pos0, cur0, start_cfg));
            }
            let popped = stack.pop();
            match popped {
                Some(top) => {
                    cur = top.0;
                    pos = top.1;
                    proof {
                        assert(stack@.push(top) =~= st0);
                        assert forall|cc: (nat, nat)|
                            covered(inst@, vs1, st0, pos0, cur0, cc) implies covered(
                            inst@,
                            vs1,
                            stack@,
                            pos as nat,
                            cur as nat,
                            cc,
                        ) by {
                            if cc == (pos0, cur0) {
                            } else if in_stack(st0, cc) {
                                let k = choose|k: int|
                                    0 <= k < st0.len() && (#[trigger] st0[k]).0 == cc.1 && st0[k].1
                                        == cc.0;
                                if k < st0.len() - 1 {
                                    assert((#[trigger] stack@[k]).0 == cc.1);
                                } else {
                                    assert(st0[k] == top);
                                    assert(cc == (pos as nat, cur as nat));
                                }
                            }
                        }
                        assert forall|c2: (nat, nat)|
                            vs1.contains(c2) implies cfg_ok(
                            inst@,
                            input@,
                            vs1,
                            stack@,
                            pos as nat,
                            cur as nat,
                            c2,
                        ) by {
                            assert(cfg_ok(inst@, input@, vs1, st0, pos0, cur0, c2));
                        }
                        assert(covered(
                            inst@,
                            vs1,
                            stack@,
                            pos as nat,
                            cur as nat,
                            start_cfg,
                        )) by {
                            assert(covered(inst@, vs1, st0, pos0, cur0, start_cfg));
                        }
                    }
                },
                None => {
                    proof {
                        assert(stack@.len() == 0);
                        assert(st0.len() == 0);
                        assert forall|c2: (nat, nat)| vs1.contains(c2) implies (c2.1 < plen
                            ==> match inst@[c2.1 as int] {
                            Instruction::Char(ch) => (c2.0 < input@.len() && input@[c2.0 as int]
                                == ch) ==> (vs1.contains(((c2.0 + 1) as nat, (c2.1 + 1) as nat))
                                || c2.1 + 1 >= plen),
                            Instruction::Split(x, y) => (vs1.contains((c2.0, x as nat)) || x
                                >= plen) && (vs1.contains((c2.0, y as nat)) || y >= plen),
                            Instruction::Jmp(x) => vs1.contains((c2.0, x as nat)) || x >= plen,
                            Instruction::Match => c2.0 != input@.len(),
                        }) by {
                            assert(cfg_ok(inst@, input@, vs1, st0, pos0, cur0, c2));
                            assert forall|cc: (nat, nat)|
                                covered(inst@, vs1, st0, pos0, cur0, cc) implies (vs1.contains(cc)
                                || cc.1 >= plen) by {
                                if in_stack(st0, cc) {
                                    let k = choose|k: int|
                                        0 <= k < st0.len() && (#[trigger] st0[k]).0 == cc.1
                                            && st0[k].1 == cc.0;
                                    assert(false);
                                }
                            }
                        }
                        assert(closed_plain(inst@, input@, vs1));
                        assert(vs1.contains(start_cfg) || start_cfg.1 >= plen) by {
                            if in_stack(st0, start_cfg) {
                                let k = choose|k: int|
                                    0 <= k < st0.len() && (#[trigger] st0[k]).0 == start_cfg.1
                                        && st0[k].1 == start_cfg.0;
                                assert(false);
                            }
                        }
                        assert forall|n: nat|
                            !accepts_fuel(inst@, input@, input_looking as nat, pc as nat, n) by {
                            lemma_closed_refutes(inst@, input@, vs1, start_cfg, n);
                        }
                    }
                    return false;
                },
            }
        }
    }
}

/// Matches the program against the input from the given position and
/// program counter.
pub fn eval(inst: &[Instruction], input: &str, input_looking: usize, pc: usize) -> (r: bool)
    ensures
        r == vm_accepts(inst@, input@, input_looking as nat, pc as nat),
{
    let chars = crate::lexer::chars_of(input);
    _eval(inst, &chars, input_looking, pc)
}

} // verus!
