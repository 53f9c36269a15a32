use std::collections::HashMap;

use vstd::prelude::*;

use crate::automaton::nfa::{
    bitset_contains, bitset_insert, bitset_new, bitset_view, eps_reach, idseq_set, useq_set, Nfa,
    NfaStateID, StateBitSet,
};
use crate::vm::cache::{fkey, lemma_fkey_inj};

verus! {

broadcast use vstd::std_specs::hash::group_hash_axioms;

/// Ids of deterministic states, dense in discovery order.
pub type DfaStateID = u64;

/// The automaton cannot address more states than this; subset construction
/// reports `StateIDOverflow` rather than grow past it.
pub const MAX_DFA_STATES: usize = 0xFFFF_FFFF;

/// The states reachable from `src` by epsilon edges.
pub open spec fn closure_of(
    ntrans: Seq<(NfaStateID, Option<char>, NfaStateID)>,
    src: Set<usize>,
) -> Set<usize> {
    Set::new(|v: usize| eps_reach(ntrans, src, v))
}

/// The states one labeled step away from `src` under `c`.
pub open spec fn move_set(
    ntrans: Seq<(NfaStateID, Option<char>, NfaStateID)>,
    src: Set<usize>,
    c: char,
) -> Set<usize> {
    Set::new(
        |t: usize|
            exists|b: int|
                0 <= b < ntrans.len() && src.contains((#[trigger] ntrans[b]).0 as usize)
                    && ntrans[b].1 == Some(c) && ntrans[b].2 as usize == t,
    )
}

/// The first transition out of `st` under `c`, if any.
pub open spec fn find_transition(
    trs: Seq<(DfaStateID, char, DfaStateID)>,
    st: DfaStateID,
    c: char,
) -> Option<DfaStateID>
    decreases trs.len(),
{
    if trs.len() == 0 {
        None
    } else if trs[0].0 == st && trs[0].1 == c {
        Some(trs[0].2)
    } else {
        find_transition(trs.skip(1), st, c)
    }
}

/// Appending a transition never changes an earlier lookup that succeeded,
/// and resolves a failed one exactly when the new entry matches.
proof fn lemma_find_push(
    trs: Seq<(DfaStateID, char, DfaStateID)>,
    e: (DfaStateID, char, DfaStateID),
    st: DfaStateID,
    c: char,
)
    ensures
        find_transition(trs.push(e), st, c) == if find_transition(trs, st, c) is Some {
            find_transition(trs, st, c)
        } else if e.0 == st && e.1 == c {
            Some(e.2)
        } else {
            None::<DfaStateID>
        },
    decreases trs.len(),
{
    if trs.len() == 0 {
        assert(trs.push(e)[0] == e);
        assert(trs.push(e).skip(1) =~= Seq::<(DfaStateID, char, DfaStateID)>::empty());
        if e.0 == st && e.1 == c {
            assert(find_transition(trs.push(e), st, c) == Some(e.2));
        } else {
            assert(find_transition(trs.push(e).skip(1), st, c) == None::<DfaStateID>);
            assert(find_transition(trs.push(e), st, c) == None::<DfaStateID>);
        }
    } else {
        assert(trs.push(e)[0] == trs[0]);
        assert(trs.push(e).skip(1) =~= trs.skip(1).push(e));
        lemma_find_push(trs.skip(1), e, st, c);
        if trs[0].0 == st && trs[0].1 == c {
            assert(find_transition(trs, st, c) == Some(trs[0].2));
            assert(find_transition(trs.push(e), st, c) == Some(trs[0].2));
        } else {
            assert(find_transition(trs.push(e), st, c) == find_transition(
                trs.skip(1).push(e),
                st,
                c,
            ));
            assert(find_transition(trs, st, c) == find_transition(trs.skip(1), st, c));
        }
    }
}

/// A successful lookup names a listed transition.
proof fn lemma_find_is_member(
    trs: Seq<(DfaStateID, char, DfaStateID)>,
    st: DfaStateID,
    c: char,
)
    requires
        find_transition(trs, st, c) is Some,
    ensures
        trs.contains((st, c, find_transition(trs, st, c)->Some_0)),
    decreases trs.len(),
{
    if trs.len() > 0 {
        if trs[0].0 == st && trs[0].1 == c {
            assert(trs[0] == (st, c, find_transition(trs, st, c)->Some_0));
        } else {
            lemma_find_is_member(trs.skip(1), st, c);
            let e = (st, c, find_transition(trs, st, c)->Some_0);
            let k = choose|k: int| 0 <= k < trs.skip(1).len() && trs.skip(1)[k] == e;
            assert(trs[k + 1] == e);
        }
    }
}

/// A listed transition makes the lookup succeed.
proof fn lemma_member_finds(
    trs: Seq<(DfaStateID, char, DfaStateID)>,
    st: DfaStateID,
    c: char,
    k: int,
)
    requires
        0 <= k < trs.len(),
        trs[k].0 == st,
        trs[k].1 == c,
    ensures
        find_transition(trs, st, c) is Some,
    decreases trs.len(),
{
    if trs[0].0 == st && trs[0].1 == c {
    } else {
        assert(trs.skip(1)[k - 1] == trs[k]);
        lemma_member_finds(trs.skip(1), st, c, k - 1);
    }
}

/// Running the deterministic table on a string: one transition per
/// character, accept exactly when the final state is accepting.
pub open spec fn dfa_run(
    trs: Seq<(DfaStateID, char, DfaStateID)>,
    accepts: Set<usize>,
    st: DfaStateID,
    s: Seq<char>,
) -> bool
    decreases s.len(),
{
    if s.len() == 0 {
        accepts.contains(st as usize)
    } else {
        match find_transition(trs, st, s[0]) {
            Some(t) => dfa_run(trs, accepts, t, s.skip(1)),
            None => false,
        }
    }
}

/// The deterministic automaton abstracts the nondeterministic one: each
/// deterministic state stands for a set of source states; the start state
/// stands for the closure of the source start; every listed transition
/// goes to the closure of the labeled step of its origin; a state accepts
/// exactly when its set meets the source accepts; every nonempty labeled
/// step out of a state is listed; no state lists two transitions under
/// one character; and only listed states accept.
pub open spec fn dfa_abstraction(
    ntrans: Seq<(NfaStateID, Option<char>, NfaStateID)>,
    naccept: Seq<NfaStateID>,
    nstart: NfaStateID,
    dtrans: Seq<(DfaStateID, char, DfaStateID)>,
    daccepts: Set<usize>,
    dstart: DfaStateID,
    subs: Seq<Set<usize>>,
) -> bool {
    &&& subs.len() >= 1
    &&& dstart == 0
    &&& subs[0] == closure_of(ntrans, Set::<usize>::empty().insert(nstart as usize))
    &&& forall|k: int|
        0 <= k < dtrans.len() ==> {
            let e = #[trigger] dtrans[k];
            &&& (e.0 as int) < subs.len()
            &&& (e.2 as int) < subs.len()
            &&& subs[e.2 as int] == closure_of(ntrans, move_set(ntrans, subs[e.0 as int], e.1))
        }
    &&& forall|i: int|
        0 <= i < subs.len() ==> (daccepts.contains(i as usize) <==> exists|q: usize|
            (#[trigger] subs[i]).contains(q) && idseq_set(naccept).contains(q))
    &&& forall|i: int, c: char|
        0 <= i < subs.len() && #[trigger] move_set(ntrans, subs[i], c) != Set::<usize>::empty()
            ==> exists|k: int|
            0 <= k < dtrans.len() && (#[trigger] dtrans[k]).0 as int == i && dtrans[k].1 == c
    &&& forall|k1: int, k2: int|
        0 <= k1 < k2 < dtrans.len() ==> !((#[trigger] dtrans[k1]).0 == (#[trigger] dtrans[k2]).0
            && dtrans[k1].1 == dtrans[k2].1)
    &&& forall|i: usize| #[trigger] daccepts.contains(i) ==> (i as int) < subs.len()
}

/// The subset at `j` is the closure of a labeled step out of an earlier
/// one.
pub open spec fn chain_linked(
    ntrans: Seq<(NfaStateID, Option<char>, NfaStateID)>,
    subs: Seq<Set<usize>>,
    j: int,
) -> bool {
    exists|i: int, c: char|
        0 <= i < j && subs[j] == #[trigger] closure_of(ntrans, move_set(ntrans, subs[i], c))
}

/// A run of distinct reachable subset states: the start closure first,
/// every later one the closure of a labeled step out of an earlier one.
pub open spec fn subset_chain(
    ntrans: Seq<(NfaStateID, Option<char>, NfaStateID)>,
    nstart: NfaStateID,
    subs: Seq<Set<usize>>,
) -> bool {
    &&& subs.len() >= 1
    &&& subs[0] == closure_of(ntrans, Set::<usize>::empty().insert(nstart as usize))
    &&& forall|j: int| 1 <= j < subs.len() ==> #[trigger] chain_linked(ntrans, subs, j)
    &&& forall|j1: int, j2: int| 0 <= j1 < j2 < subs.len() ==> subs[j1] != subs[j2]
}

/// The entries increase strictly.
pub open spec fn sorted_usize(v: Seq<usize>) -> bool {
    forall|i: int, j: int| 0 <= i < j < v.len() ==> v[i] < v[j]
}

/// A strictly increasing sequence is determined by the set it holds.
proof fn lemma_sorted_unique(a: Seq<usize>, b: Seq<usize>)
    requires
        sorted_usize(a),
        sorted_usize(b),
        useq_set(a) == useq_set(b),
    ensures
        a == b,
    decreases a.len(),
{
    if a.len() == 0 {
        if b.len() > 0 {
            assert(useq_set(b).contains(b[0]));
            assert(useq_set(a).contains(b[0]));
            assert(false);
        }
        assert(a =~= b);
    } else {
        assert(useq_set(a).contains(a[0]));
        assert(useq_set(b).contains(a[0]));
        let kb = choose|kb: int| 0 <= kb < b.len() && b[kb] == a[0];
        assert(useq_set(b).contains(b[0]));
        assert(useq_set(a).contains(b[0]));
        let ka = choose|ka: int| 0 <= ka < a.len() && a[ka] == b[0];
        assert(b[0] <= b[kb]);
        assert(a[0] <= a[ka]);
        assert(a[0] == b[0]);
        let a1 = a.skip(1);
        let b1 = b.skip(1);
        assert(useq_set(a1) =~= useq_set(b1)) by {
            assert forall|t: usize| useq_set(a1).contains(t) == useq_set(b1).contains(t) by {
                if useq_set(a1).contains(t) {
                    let k = choose|k: int| 0 <= k < a1.len() && a1[k] == t;
                    assert(a[k + 1] == t);
                    assert(a[0] < t);
                    assert(useq_set(b).contains(t));
                    let k2 = choose|k2: int| 0 <= k2 < b.len() && b[k2] == t;
                    assert(k2 != 0);
                    assert(b1[k2 - 1] == t);
                }
                if useq_set(b1).contains(t) {
                    let k = choose|k: int| 0 <= k < b1.len() && b1[k] == t;
                    assert(b[k + 1] == t);
                    assert(b[0] < t);
                    assert(useq_set(a).contains(t));
                    let k2 = choose|k2: int| 0 <= k2 < a.len() && a[k2] == t;
                    assert(k2 != 0);
                    assert(a1[k2 - 1] == t);
                }
            }
        }
        assert(sorted_usize(a1)) by {
            assert(forall|i: int, j: int|
                0 <= i < j < a1.len() ==> #[trigger] a1[i] == a[i + 1] && #[trigger] a1[j] == a[j
                    + 1]);
        }
        assert(sorted_usize(b1)) by {
            assert(forall|i: int, j: int|
                0 <= i < j < b1.len() ==> #[trigger] b1[i] == b[i + 1] && #[trigger] b1[j] == b[j
                    + 1]);
        }
        lemma_sorted_unique(a1, b1);
        assert(a.len() == b.len());
        assert forall|i: int| 0 <= i < a.len() implies a[i] == b[i] by {
            if i > 0 {
                assert(a1[i - 1] == b1[i - 1]);
            }
        }
        assert(a =~= b);
    }
}

/// Whether the listed ids meet the accepting ids.
spec fn meets_accept(sub: Seq<usize>, naccept: Seq<NfaStateID>) -> bool {
    exists|q: usize| useq_set(sub).contains(q) && idseq_set(naccept).contains(q)
}

/// The deterministic automaton: a start state, accepting states in a
/// bitset, a transition table, and a lookup cache filled at construction.
pub struct Dfa {
    start: DfaStateID,
    accepts: StateBitSet,
    transitions: Vec<(DfaStateID, char, DfaStateID)>,
    cache: HashMap<u128, DfaStateID>,
}

impl Dfa {
    pub closed spec fn spec_start(&self) -> DfaStateID {
        self.start
    }

    pub closed spec fn spec_accepts(&self) -> Set<usize> {
        bitset_view(&self.accepts)
    }

    pub closed spec fn spec_transitions(&self) -> Seq<(DfaStateID, char, DfaStateID)> {
        self.transitions@
    }

    #[verifier::type_invariant]
    spec fn inv(&self) -> bool {
        forall|st: DfaStateID, c: char|
            #[trigger] self.cache@.contains_key(fkey(st as nat, (c as u32) as nat)) ==> {
                &&& find_transition(self.transitions@, st, c) == Some(
                    self.cache@[fkey(st as nat, (c as u32) as nat)],
                )
            }
    }

    pub fn new(start: DfaStateID, accepts: StateBitSet) -> (r: Self)
        ensures
            r.spec_start() == start,
            r.spec_accepts() == bitset_view(&accepts),
            r.spec_transitions() == Seq::<(DfaStateID, char, DfaStateID)>::empty(),
    {
        let r = Dfa { start, accepts, transitions: Vec::new(), cache: HashMap::new() };
        proof {
            assert(r.spec_transitions() =~= Seq::<(DfaStateID, char, DfaStateID)>::empty());
        }
        r
    }

    pub fn start(&self) -> (r: DfaStateID)
        ensures
            r == self.spec_start(),
    {
        self.start
    }

    pub fn accepts_contains(&self, state: DfaStateID) -> (r: bool)
        ensures
            r == self.spec_accepts().contains(state as usize),
    {
        bitset_contains(&self.accepts, state as usize)
    }

    pub fn transitions(&self) -> (r: &Vec<(DfaStateID, char, DfaStateID)>)
        ensures
            r@ == self.spec_transitions(),
    {
        &self.transitions
    }

    /// The transition out of `current` under `input`: answered from the
    /// lookup cache when allowed, else from a scan of the table.
    pub fn next_transit(&self, current: DfaStateID, input: char, use_dfa_cache: bool) -> (r:
        Option<DfaStateID>)
        ensures
            r == find_transition(self.spec_transitions(), current, input),
    {
        proof {
            use_type_invariant(self);
        }
        if use_dfa_cache {
            let key: u128 = (current as u128) * 0x1_0000_0000_0000_0000u128 + ((input as u32)
                as u128);
            proof {
                assert(key == fkey(current as nat, (input as u32) as nat));
            }
            if let Some(next_state) = self.cache.get(&key) {
                return Some(*next_state);
            }
        }
        let n = self.transitions.len();
        let mut i: usize = 0;
        proof {
            assert(self.transitions@.skip(0) =~= self.transitions@);
        }
        while i < n
            invariant
                i <= n,
                n == self.transitions@.len(),
                find_transition(self.transitions@, current, input) == find_transition(
                    self.transitions@.skip(i as int),
                    current,
                    input,
                ),
            decreases n - i,
        {
            let e = self.transitions[i];
            proof {
                assert(self.transitions@.skip(i as int)[0] == e);
                assert(self.transitions@.skip(i as int).skip(1) =~= self.transitions@.skip(
                    i as int + 1,
                ));
            }
            if e.0 == current && e.1 == input {
                return Some(e.2);
            }
            i = i + 1;
        }
        proof {
            assert(self.transitions@.skip(n as int) =~= Seq::<
                (DfaStateID, char, DfaStateID),
            >::empty());
        }
        None
    }

    /// Runs the table on the whole input: one transition per character,
    /// non-match on any missing transition, accept exactly when the state
    /// after the last character is accepting.
    pub fn is_match(&self, input: &str) -> (r: bool)
        ensures
            r == dfa_run(self.spec_transitions(), self.spec_accepts(), self.spec_start(), input@),
    {
        let chars = crate::lexer::chars_of(input);
        let mut state = self.start();
        let n = chars.len();
        let mut i: usize = 0;
        proof {
            assert(chars@.skip(0) =~= chars@);
        }
        while i < n
            invariant
                i <= n,
                n == chars@.len(),
                chars@ == input@,
                dfa_run(self.spec_transitions(), self.spec_accepts(), self.spec_start(), input@)
                    == dfa_run(
                    self.spec_transitions(),
                    self.spec_accepts(),
                    state,
                    chars@.skip(i as int),
                ),
            decreases n - i,
        {
            let c = chars[i];
            proof {
                assert(chars@.skip(i as int)[0] == c);
                assert(chars@.skip(i as int).skip(1) =~= chars@.skip(i as int + 1));
            }
            match self.next_transit(state, c, true) {
                Some(next) => {
                    state = next;
                },
                None => {
                    return false;
                },
            }
            i = i + 1;
        }
        proof {
            assert(chars@.skip(n as int) =~= Seq::<char>::empty());
        }
        self.accepts_contains(state)
    }
}


/// Whether the vector holds the value.
fn contains_usize(v: &Vec<usize>, x: usize) -> (r: bool)
    ensures
        r == v@.contains(x),
{
    let n = v.len();
    let mut i: usize = 0;
    while i < n
        invariant
            i <= n,
            n == v@.len(),
            forall|j: int| 0 <= j < i ==> v@[j] != x,
        decreases n - i,
    {
        if v[i] == x {
            return true;
        }
        i = i + 1;
    }
    false
}

/// Whether the vector holds the character.
fn contains_char(v: &Vec<char>, x: char) -> (r: bool)
    ensures
        r == v@.contains(x),
{
    let n = v.len();
    let mut i: usize = 0;
    while i < n
        invariant
            i <= n,
            n == v@.len(),
            forall|j: int| 0 <= j < i ==> v@[j] != x,
        decreases n - i,
    {
        if v[i] == x {
            return true;
        }
        i = i + 1;
    }
    false
}

/// Whether the id vector holds the value, read at machine width.
fn idvec_contains(v: &Vec<NfaStateID>, x: usize) -> (r: bool)
    ensures
        r == idseq_set(v@).contains(x),
{
    let n = v.len();
    let mut i: usize = 0;
    while i < n
        invariant
            i <= n,
            n == v@.len(),
            forall|j: int| 0 <= j < i ==> (#[trigger] v@[j]) as usize != x,
        decreases n - i,
    {
        if v[i] as usize == x {
            proof {
                assert((#[trigger] v@[i as int]) as usize == x);
            }
            return true;
        }
        i = i + 1;
    }
    proof {
        if idseq_set(v@).contains(x) {
            let k = choose|k: int| 0 <= k < v@.len() && (#[trigger] v@[k]) as usize == x;
            assert(false);
        }
    }
    false
}

/// Whether the two vectors hold the same values in the same order.
fn vec_eq_usize(a: &Vec<usize>, b: &Vec<usize>) -> (r: bool)
    ensures
        r == (a@ == b@),
{
    if a.len() != b.len() {
        return false;
    }
    let n = a.len();
    let mut i: usize = 0;
    while i < n
        invariant
            i <= n,
            n == a@.len(),
            n == b@.len(),
            forall|j: int| 0 <= j < i ==> a@[j] == b@[j],
        decreases n - i,
    {
        if a[i] != b[i] {
            return false;
        }
        i = i + 1;
    }
    proof {
        assert(a@ =~= b@);
    }
    true
}

/// A copy of the vector.
fn clone_usize_vec(v: &Vec<usize>) -> (r: Vec<usize>)
    ensures
        r@ == v@,
{
    let n = v.len();
    let mut r: Vec<usize> = Vec::new();
    let mut i: usize = 0;
    while i < n
        invariant
            i <= n,
            n == v@.len(),
            r@ == v@.take(i as int),
        decreases n - i,
    {
        r.push(v[i]);
        i = i + 1;
        proof {
            assert(r@ =~= v@.take(i as int));
        }
    }
    proof {
        assert(v@.take(n as int) =~= v@);
    }
    r
}

/// Membership in a sequence survives appending.
proof fn lemma_contains_push<T>(s: Seq<T>, e: T, x: T)
    ensures
        s.contains(x) ==> s.push(e).contains(x),
{
    if s.contains(x) {
        let i = choose|i: int| 0 <= i < s.len() && s[i] == x;
        assert(s.push(e)[i] == x);
    }
}

/// The first transition out of `st` under `c` in the table, if any.
fn find_in(trs: &Vec<(DfaStateID, char, DfaStateID)>, st: DfaStateID, c: char) -> (r: Option<
    DfaStateID,
>)
    ensures
        r == find_transition(trs@, st, c),
{
    let n = trs.len();
    let mut i: usize = 0;
    proof {
        assert(trs@.skip(0) =~= trs@);
    }
    while i < n
        invariant
            i <= n,
            n == trs@.len(),
            find_transition(trs@, st, c) == find_transition(trs@.skip(i as int), st, c),
        decreases n - i,
    {
        let e = trs[i];
        proof {
            assert(trs@.skip(i as int)[0] == e);
            assert(trs@.skip(i as int).skip(1) =~= trs@.skip(i as int + 1));
        }
        if e.0 == st && e.1 == c {
            return Some(e.2);
        }
        i = i + 1;
    }
    proof {
        assert(trs@.skip(n as int) =~= Seq::<(DfaStateID, char, DfaStateID)>::empty());
    }
    None
}

/// The discovered subset states: each sorted, all pairwise distinct, the
/// first the start closure, every later one the closure of a labeled step
/// out of an earlier one.
pub open spec fn states_chain_inv(
    ntrans: Seq<(NfaStateID, Option<char>, NfaStateID)>,
    nstart: NfaStateID,
    sts: Seq<Vec<usize>>,
) -> bool {
    &&& sts.len() >= 1
    &&& useq_set(sts[0]@) == closure_of(ntrans, Set::<usize>::empty().insert(nstart as usize))
    &&& forall|j: int| 0 <= j < sts.len() ==> sorted_usize((#[trigger] sts[j])@)
    &&& forall|j1: int, j2: int|
        0 <= j1 < j2 < sts.len() ==> (#[trigger] sts[j1])@ != (#[trigger] sts[j2])@
    &&& forall|j: int|
        #![trigger sts[j]]
        1 <= j < sts.len() ==> exists|i: int, c: char|
            0 <= i < j && useq_set(sts[j]@) == #[trigger] closure_of(
                ntrans,
                move_set(ntrans, useq_set(sts[i]@), c),
            )
}

/// A vector of sorted, pairwise-distinct, provenance-chained subsets is a
/// `subset_chain` witness.
proof fn lemma_chain_witness(
    ntrans: Seq<(NfaStateID, Option<char>, NfaStateID)>,
    nstart: NfaStateID,
    sts: Seq<Vec<usize>>,
    subs: Seq<Set<usize>>,
)
    requires
        states_chain_inv(ntrans, nstart, sts),
        subs.len() == sts.len(),
        forall|j: int| 0 <= j < subs.len() ==> subs[j] == useq_set((#[trigger] sts[j])@),
    ensures
        subset_chain(ntrans, nstart, subs),
{
    assert(subs.len() >= 1);
    assert(subs[0] == useq_set(sts[0]@));
    assert(subs[0] == closure_of(ntrans, Set::<usize>::empty().insert(nstart as usize)));
    assert forall|j: int| 1 <= j < subs.len() implies #[trigger] chain_linked(
        ntrans,
        subs,
        j,
    ) by {
        let (i, c) = choose|i: int, c: char|
            0 <= i < j && useq_set(sts[j]@) == #[trigger] closure_of(
                ntrans,
                move_set(ntrans, useq_set(sts[i]@), c),
            );
        assert(subs[j] == useq_set(sts[j]@));
        assert(subs[i] == useq_set(sts[i]@));
        assert(subs[j] == closure_of(ntrans, move_set(ntrans, subs[i], c)));
    }
    assert forall|j1: int, j2: int| 0 <= j1 < j2 < subs.len() implies subs[j1] != subs[j2] by {
        if subs[j1] == subs[j2] {
            assert(useq_set(sts[j1]@) == useq_set(sts[j2]@));
            assert(sorted_usize(sts[j1]@));
            assert(sorted_usize(sts[j2]@));
            lemma_sorted_unique(sts[j1]@, sts[j2]@);
            assert(false);
        }
    }
    assert(subset_chain(ntrans, nstart, subs));
}

/// Once every character seen on an edge out of the subset has been
/// processed, every nonempty labeled step out of it has a transition.
proof fn lemma_state_done(
    ntrans: Seq<(NfaStateID, Option<char>, NfaStateID)>,
    cur_set: Set<usize>,
    chars: Seq<char>,
    dtrans: Seq<(DfaStateID, char, DfaStateID)>,
    head: int,
)
    requires
        forall|b: int|
            0 <= b < ntrans.len() ==> (((#[trigger] ntrans[b]).1 is Some && cur_set.contains(
                ntrans[b].0 as usize,
            )) ==> chars.contains(ntrans[b].1->0)),
        forall|jj: int|
            0 <= jj < chars.len() && #[trigger] move_set(ntrans, cur_set, chars[jj]) != Set::<
                usize,
            >::empty() ==> exists|k2: int|
                0 <= k2 < dtrans.len() && (#[trigger] dtrans[k2]).0 as int == head
                    && dtrans[k2].1 == chars[jj],
    ensures
        forall|c: char|
            #[trigger] move_set(ntrans, cur_set, c) != Set::<usize>::empty() ==> exists|k2: int|
                0 <= k2 < dtrans.len() && (#[trigger] dtrans[k2]).0 as int == head
                    && dtrans[k2].1 == c,
{
    assert forall|c: char|
        #[trigger] move_set(ntrans, cur_set, c) != Set::<usize>::empty() implies (exists|k2: int|
        0 <= k2 < dtrans.len() && (#[trigger] dtrans[k2]).0 as int == head && dtrans[k2].1
            == c) by {
        assert(exists|t: usize| move_set(ntrans, cur_set, c).contains(t)) by {
            if !(exists|t: usize| move_set(ntrans, cur_set, c).contains(t)) {
                assert(move_set(ntrans, cur_set, c) =~= Set::<usize>::empty());
            }
        }
        let t = choose|t: usize| move_set(ntrans, cur_set, c).contains(t);
        assert(move_set(ntrans, cur_set, c).contains(t));
        let b2 = choose|b2: int|
            0 <= b2 < ntrans.len() && cur_set.contains((#[trigger] ntrans[b2]).0 as usize)
                && ntrans[b2].1 == Some(c) && ntrans[b2].2 as usize == t;
        assert(chars.contains(ntrans[b2].1->0));
        let jj = choose|jj: int| 0 <= jj < chars.len() && chars[jj] == c;
    }
}

impl Dfa {
    /// One worklist step: processes the subset state `head` — marks it
    /// accepting if due, and gives every character on an edge out of it a
    /// deterministic transition, discovering new subset states as needed.
    #[verifier::rlimit(100)]
    #[verifier::spinoff_prover]
    fn expand_state(
        nfa: &Nfa,
        use_dfa_cache: bool,
        head: usize,
        states: &mut Vec<Vec<usize>>,
        dtrans: &mut Vec<(DfaStateID, char, DfaStateID)>,
        daccepts: &mut StateBitSet,
        dcache: &mut HashMap<u128, DfaStateID>,
    ) -> (r: Result<(), crate::error::Error>)
        requires
            head < old(states)@.len(),

                head <= old(states)@.len(),
                1 <= old(states)@.len() <= MAX_DFA_STATES,
                useq_set(old(states)@[0]@) == closure_of(
                    nfa.spec_transitions(),
                    Set::<usize>::empty().insert(nfa.spec_start() as usize),
                ),
                forall|k: int|
                    0 <= k < old(dtrans)@.len() ==> {
                        let e = #[trigger] old(dtrans)@[k];
                        &&& (e.0 as int) < head
                        &&& (e.2 as int) < old(states)@.len()
                        &&& useq_set(old(states)@[e.2 as int]@) == closure_of(
                            nfa.spec_transitions(),
                            move_set(nfa.spec_transitions(), useq_set(old(states)@[e.0 as int]@), e.1),
                        )
                    },
                forall|i: usize|
                    #[trigger] bitset_view(old(daccepts)).contains(i) ==> (i as int) < head
                        && meets_accept(old(states)@[i as int]@, nfa.spec_accept()),
                forall|i: int|
                    0 <= i < head ==> (meets_accept(#[trigger] old(states)@[i]@, nfa.spec_accept())
                        ==> bitset_view(old(daccepts)).contains(i as usize)),
                forall|i: int, c: char|
                    0 <= i < head && #[trigger] move_set(nfa.spec_transitions(), useq_set(old(states)@[i]@), c)
                        != Set::<usize>::empty() ==> exists|k: int|
                        0 <= k < old(dtrans)@.len() && (#[trigger] old(dtrans)@[k]).0 as int == i
                            && old(dtrans)@[k].1 == c,
                forall|st: DfaStateID, c: char|
                    #[trigger] old(dcache)@.contains_key(fkey(st as nat, (c as u32) as nat))
                        ==> find_transition(old(dtrans)@, st, c) == Some(
                        old(dcache)@[fkey(st as nat, (c as u32) as nat)],
                    ),
                states_chain_inv(nfa.spec_transitions(), nfa.spec_start(), old(states)@),
                forall|k1: int, k2: int|
                    0 <= k1 < k2 < old(dtrans)@.len() ==> !((#[trigger] old(dtrans)@[k1]).0
                        == (#[trigger] old(dtrans)@[k2]).0 && old(dtrans)@[k1].1 == old(dtrans)@[k2].1),
        ensures
            r matches Err(e) ==> e is StateIDOverflow,
            r is Err ==> exists|subs: Seq<Set<usize>>|
                subs.len() == MAX_DFA_STATES && #[trigger] subset_chain(
                    nfa.spec_transitions(),
                    nfa.spec_start(),
                    subs,
                ),
            r is Ok ==> head + 1 <= final(states)@.len(),
            r is Ok ==> {
            &&& (
                head <= final(states)@.len()
            )
            &&& (1 <= final(states)@.len() <= MAX_DFA_STATES
            )
            &&& (                useq_set(final(states)@[0]@) == closure_of(
                    nfa.spec_transitions(),
                    Set::<usize>::empty().insert(nfa.spec_start() as usize),
                )
            )
            &&& (                forall|k: int|
                    0 <= k < final(dtrans)@.len() ==> {
                        let e = #[trigger] final(dtrans)@[k];
                        &&& (e.0 as int) < head + 1
                        &&& (e.2 as int) < final(states)@.len()
                        &&& useq_set(final(states)@[e.2 as int]@) == closure_of(
                            nfa.spec_transitions(),
                            move_set(nfa.spec_transitions(), useq_set(final(states)@[e.0 as int]@), e.1),
                        )
                    }
            )
            &&& (                forall|i: usize|
                    #[trigger] bitset_view(final(daccepts)).contains(i) ==> (i as int) < head + 1
                        && meets_accept(final(states)@[i as int]@, nfa.spec_accept())
            )
            &&& (                forall|i: int|
                    0 <= i < head + 1 ==> (meets_accept(#[trigger] final(states)@[i]@, nfa.spec_accept())
                        ==> bitset_view(final(daccepts)).contains(i as usize))
            )
            &&& (                forall|i: int, c: char|
                    0 <= i < head + 1 && #[trigger] move_set(nfa.spec_transitions(), useq_set(final(states)@[i]@), c)
                        != Set::<usize>::empty() ==> exists|k: int|
                        0 <= k < final(dtrans)@.len() && (#[trigger] final(dtrans)@[k]).0 as int == i
                            && final(dtrans)@[k].1 == c
            )
            &&& (                forall|st: DfaStateID, c: char|
                    #[trigger] final(dcache)@.contains_key(fkey(st as nat, (c as u32) as nat))
                        ==> find_transition(final(dtrans)@, st, c) == Some(
                        final(dcache)@[fkey(st as nat, (c as u32) as nat)],
                    )
            )
            &&& (states_chain_inv(nfa.spec_transitions(), nfa.spec_start(), final(states)@)
            )
            &&& (                forall|k1: int, k2: int|
                    0 <= k1 < k2 < final(dtrans)@.len() ==> !((#[trigger] final(dtrans)@[k1]).0
                        == (#[trigger] final(dtrans)@[k2]).0 && final(dtrans)@[k1].1 == final(dtrans)@[k2].1)
            )
            },
    {
        let ghost ntrans = nfa.spec_transitions();
        let ghost naccept = nfa.spec_accept();
            let cur = clone_usize_vec(&states[head]);
            let ghost cur_set = useq_set(cur@);
            proof {
                assert(cur_set == useq_set(states@[head as int]@));
            }
            // mark the state accepting if its subset meets the accepts
            let mut hit = false;
            let cn = cur.len();
            let mut qi: usize = 0;
            while qi < cn
                invariant
                    qi <= cn,
                    cn == cur@.len(),
                    naccept == nfa.spec_accept(),
                    hit ==> meets_accept(cur@, naccept),
                    !hit ==> forall|a: int|
                        0 <= a < qi ==> !idseq_set(naccept).contains(#[trigger] cur@[a]),
                decreases cn - qi,
            {
                if idvec_contains(nfa.accept(), cur[qi]) {
                    proof {
                        assert(useq_set(cur@).contains(cur@[qi as int]));
                    }
                    hit = true;
                }
                qi = qi + 1;
            }
            proof {
                if !hit && meets_accept(cur@, naccept) {
                    let q = choose|q: usize|
                        useq_set(cur@).contains(q) && idseq_set(naccept).contains(q);
                    let a = choose|a: int| 0 <= a < cur@.len() && cur@[a] == q;
                    assert(!idseq_set(naccept).contains(cur@[a]));
                    assert(false);
                }
            }
            if hit {
                bitset_insert(daccepts, head);
            }
            // collect the characters on edges out of the subset
            let mut chars: Vec<char> = Vec::new();
            let tn = nfa.transitions().len();
            let mut k: usize = 0;
            while k < tn
                invariant
                    k <= tn,
                    tn == ntrans.len(),
                    ntrans == nfa.spec_transitions(),
                    cur_set == useq_set(cur@),
                    forall|b: int|
                        0 <= b < k ==> (((#[trigger] ntrans[b]).1 is Some && cur_set.contains(
                            ntrans[b].0 as usize,
                        )) ==> chars@.contains(ntrans[b].1->0)),
                decreases tn - k,
            {
                let e = nfa.transitions()[k];
                let ghost old_chars = chars@;
                match e.1 {
                    Some(c) => {
                        if contains_usize(&cur, e.0 as usize) {
                            if !contains_char(&chars, c) {
                                chars.push(c);
                                proof {
                                    assert(chars@[chars@.len() - 1] == c);
                                }
                            }
                        }
                    },
                    None => {},
                }
                k = k + 1;
                proof {
                    assert forall|b: int|
                        0 <= b < k implies (((#[trigger] ntrans[b]).1 is Some
                        && cur_set.contains(ntrans[b].0 as usize)) ==> chars@.contains(
                        ntrans[b].1->0,
                    )) by {
                        if ntrans[b].1 is Some && cur_set.contains(ntrans[b].0 as usize) && b < k
                            - 1 && chars@ != old_chars {
                            lemma_contains_push(
                                old_chars,
                                chars@[chars@.len() - 1],
                                ntrans[b].1->0,
                            );
                            assert(chars@ == old_chars.push(chars@[chars@.len() - 1]));
                        }
                    }
                }
            }
            // one deterministic transition per live character
            let cm = chars.len();
            let mut ci: usize = 0;
            while ci < cm
                invariant
                    ci <= cm,
                    cm == chars@.len(),
                    tn == ntrans.len(),
                    ntrans == nfa.spec_transitions(),
                    naccept == nfa.spec_accept(),
                    head < states@.len(),
                    states@.len() <= MAX_DFA_STATES,
                    cur_set == useq_set(cur@),
                    cur@ == states@[head as int]@,
                    useq_set(states@[0]@) == closure_of(
                        ntrans,
                        Set::<usize>::empty().insert(nfa.spec_start() as usize),
                    ),
                    forall|b: int|
                        0 <= b < ntrans.len() ==> (((#[trigger] ntrans[b]).1 is Some
                            && cur_set.contains(ntrans[b].0 as usize)) ==> chars@.contains(
                            ntrans[b].1->0,
                        )),
                    forall|k2: int|
                        0 <= k2 < dtrans@.len() ==> {
                            let e = #[trigger] dtrans@[k2];
                            &&& (e.0 as int) <= head
                            &&& (e.2 as int) < states@.len()
                            &&& useq_set(states@[e.2 as int]@) == closure_of(
                                ntrans,
                                move_set(ntrans, useq_set(states@[e.0 as int]@), e.1),
                            )
                        },
                    forall|jj: int|
                        0 <= jj < ci && #[trigger] move_set(ntrans, cur_set, chars@[jj]) != Set::<
                            usize,
                        >::empty() ==> exists|k2: int|
                            0 <= k2 < dtrans@.len() && (#[trigger] dtrans@[k2]).0 as int
                                == head as int && dtrans@[k2].1 == chars@[jj],
                    forall|i: usize|
                        #[trigger] bitset_view(&daccepts).contains(i) ==> (i as int) <= head
                            && meets_accept(states@[i as int]@, naccept),
                    forall|i: int|
                        0 <= i < head ==> (meets_accept(#[trigger] states@[i]@, naccept)
                            ==> bitset_view(&daccepts).contains(i as usize)),
                    hit == meets_accept(states@[head as int]@, naccept),
                    hit ==> bitset_view(&daccepts).contains(head),
                    forall|i: int, c: char|
                        0 <= i < head && #[trigger] move_set(ntrans, useq_set(states@[i]@), c)
                            != Set::<usize>::empty() ==> exists|k2: int|
                            0 <= k2 < dtrans@.len() && (#[trigger] dtrans@[k2]).0 as int == i
                                && dtrans@[k2].1 == c,
                    forall|st: DfaStateID, c: char|
                        #[trigger] dcache@.contains_key(fkey(st as nat, (c as u32) as nat))
                            ==> find_transition(dtrans@, st, c) == Some(
                            dcache@[fkey(st as nat, (c as u32) as nat)],
                        ),
                    states_chain_inv(ntrans, nfa.spec_start(), states@),
                    forall|k1: int, k2: int|
                        0 <= k1 < k2 < dtrans@.len() ==> !((#[trigger] dtrans@[k1]).0
                            == (#[trigger] dtrans@[k2]).0 && dtrans@[k1].1 == dtrans@[k2].1),
                decreases cm - ci,
            {
                let c = chars[ci];
                // gather the targets one labeled step away
                let mut targets: Vec<NfaStateID> = Vec::new();
                let mut b: usize = 0;
                while b < tn
                    invariant
                        b <= tn,
                        tn == ntrans.len(),
                        ntrans == nfa.spec_transitions(),
                        cur_set == useq_set(cur@),
                        forall|t: usize|
                            idseq_set(targets@).contains(t) == exists|b2: int|
                                0 <= b2 < b && (#[trigger] ntrans[b2]).1 == Some(c)
                                    && cur_set.contains(ntrans[b2].0 as usize) && ntrans[b2].2
                                    as usize == t,
                    decreases tn - b,
                {
                    let e = nfa.transitions()[b];
                    let ghost old_targets = targets@;
                    let mut took = false;
                    match e.1 {
                        Some(c2) => {
                            if c2 == c {
                                if contains_usize(&cur, e.0 as usize) {
                                    targets.push(e.2);
                                    took = true;
                                }
                            }
                        },
                        None => {},
                    }
                    b = b + 1;
                    proof {
                        assert forall|t: usize|
                            idseq_set(targets@).contains(t) == (exists|b2: int|
                                0 <= b2 < b && (#[trigger] ntrans[b2]).1 == Some(c)
                                    && cur_set.contains(ntrans[b2].0 as usize) && ntrans[b2].2
                                    as usize == t) by {
                            if took {
                                assert(targets@ == old_targets.push(ntrans[b - 1].2));
                                if idseq_set(targets@).contains(t) {
                                    let kk = choose|kk: int|
                                        0 <= kk < targets@.len() && (#[trigger] targets@[kk])
                                            as usize == t;
                                    if kk < targets@.len() - 1 {
                                        assert((#[trigger] old_targets[kk]) as usize == t);
                                        assert(idseq_set(old_targets).contains(t));
                                    } else {
                                        assert((#[trigger] ntrans[b - 1]).1 == Some(c));
                                        assert(ntrans[b - 1].2 as usize == t);
                                    }
                                }
                                if exists|b2: int|
                                    0 <= b2 < b && (#[trigger] ntrans[b2]).1 == Some(c)
                                        && cur_set.contains(ntrans[b2].0 as usize) && ntrans[b2].2
                                        as usize == t {
                                    let b2 = choose|b2: int|
                                        0 <= b2 < b && (#[trigger] ntrans[b2]).1 == Some(c)
                                            && cur_set.contains(ntrans[b2].0 as usize)
                                            && ntrans[b2].2 as usize == t;
                                    if b2 < b - 1 {
                                        assert(idseq_set(old_targets).contains(t));
                                        let kk = choose|kk: int|
                                            0 <= kk < old_targets.len() && (
                                            #[trigger] old_targets[kk]) as usize == t;
                                        assert((#[trigger] targets@[kk]) as usize == t);
                                    } else {
                                        assert((#[trigger] targets@[targets@.len() - 1]) as usize
                                            == t);
                                    }
                                }
                            } else {
                                assert(targets@ == old_targets);
                                if exists|b2: int|
                                    0 <= b2 < b && (#[trigger] ntrans[b2]).1 == Some(c)
                                        && cur_set.contains(ntrans[b2].0 as usize) && ntrans[b2].2
                                        as usize == t {
                                    let b2 = choose|b2: int|
                                        0 <= b2 < b && (#[trigger] ntrans[b2]).1 == Some(c)
                                            && cur_set.contains(ntrans[b2].0 as usize)
                                            && ntrans[b2].2 as usize == t;
                                    if b2 == b - 1 {
                                        assert(false);
                                    }
                                }
                            }
                        }
                    }
                }
                proof {
                    assert(idseq_set(targets@) =~= move_set(ntrans, cur_set, c));
                }
                let ghost old_dtrans = dtrans@;
                let ghost old_states = states@;
                if targets.len() > 0 {
                    let closure = nfa.epsilon_closure(&targets);
                    proof {
                        assert(useq_set(closure@) =~= closure_of(
                            ntrans,
                            move_set(ntrans, cur_set, c),
                        ));
                    }
                    // look the subset up; give it a fresh id if it is new
                    let ns = states.len();
                    let mut j: usize = 0;
                    let mut found = false;
                    let mut fidx: usize = 0;
                    while j < ns
                        invariant
                            j <= ns,
                            ns == states@.len(),
                            found ==> fidx < ns && states@[fidx as int]@ == closure@,
                            !found ==> forall|jj: int|
                                0 <= jj < j ==> (#[trigger] states@[jj])@ != closure@,
                        decreases ns - j,
                    {
                        if vec_eq_usize(&states[j], &closure) {
                            found = true;
                            fidx = j;
                        }
                        j = j + 1;
                    }
                    let target_id: usize;
                    if found {
                        target_id = fidx;
                    } else {
                        if states.len() >= MAX_DFA_STATES {
                            proof {
                                let wsubs = Seq::new(
                                    states@.len(),
                                    |i2: int| useq_set(states@[i2]@),
                                );
                                lemma_chain_witness(ntrans, nfa.spec_start(), states@, wsubs);
                                assert(wsubs.len() == MAX_DFA_STATES);
                                assert(subset_chain(nfa.spec_transitions(), nfa.spec_start(), wsubs));
                            }
                            return Err(crate::error::Error::StateIDOverflow(states.len()));
                        }
                        let ghost cl = closure@;
                        states.push(closure);
                        target_id = states.len() - 1;
                        proof {
                            assert forall|i: int|
                                0 <= i < old_states.len() implies #[trigger] states@[i]
                                == old_states[i] by {}
                            assert((#[trigger] states@[states@.len() - 1])@ == cl);
                            assert(states_chain_inv(ntrans, nfa.spec_start(), states@)) by {
                                assert forall|j: int|
                                    #![trigger states@[j]]
                                    1 <= j < states@.len() implies exists|i2: int, c2: char|
                                    0 <= i2 < j && useq_set(states@[j]@) == #[trigger] closure_of(
                                        ntrans,
                                        move_set(ntrans, useq_set(states@[i2]@), c2),
                                    ) by {
                                    if j < states@.len() - 1 {
                                        let (i2, c2) = choose|i2: int, c2: char|
                                            0 <= i2 < j && useq_set(old_states[j]@)
                                                == #[trigger] closure_of(
                                                ntrans,
                                                move_set(ntrans, useq_set(old_states[i2]@), c2),
                                            );
                                        assert(useq_set(states@[j]@) == closure_of(
                                            ntrans,
                                            move_set(ntrans, useq_set(states@[i2]@), c2),
                                        ));
                                    } else {
                                        assert(useq_set(states@[j]@) == closure_of(
                                            ntrans,
                                            move_set(ntrans, useq_set(states@[head as int]@), c),
                                        ));
                                    }
                                }
                            }
                        }
                    }
                    proof {
                        assert(useq_set(states@[target_id as int]@) == closure_of(
                            ntrans,
                            move_set(ntrans, cur_set, c),
                        ));
                    }
                    // emit the transition unless the state already has one
                    // under this character
                    if find_in(&dtrans, head as u64, c).is_none() {
                        proof {
                            assert forall|k2: int|
                                0 <= k2 < dtrans@.len() implies !((#[trigger] dtrans@[k2]).0
                                == head as u64 && dtrans@[k2].1 == c) by {
                                if dtrans@[k2].0 == head as u64 && dtrans@[k2].1 == c {
                                    lemma_member_finds(dtrans@, head as u64, c, k2);
                                }
                            }
                        }
                        dtrans.push((head as u64, c, target_id as u64));
                        proof {
                            let newe = (head as u64, c, target_id as u64);
                            assert(dtrans@ == old_dtrans.push(newe));
                            assert(dtrans@[dtrans@.len() - 1] == newe);
                            assert forall|k2: int|
                                0 <= k2 < dtrans@.len() implies {
                                let e = #[trigger] dtrans@[k2];
                                &&& (e.0 as int) <= head
                                &&& (e.2 as int) < states@.len()
                                &&& useq_set(states@[e.2 as int]@) == closure_of(
                                    ntrans,
                                    move_set(ntrans, useq_set(states@[e.0 as int]@), e.1),
                                )
                            } by {
                                if k2 < dtrans@.len() - 1 {
                                    assert(dtrans@[k2] == old_dtrans[k2]);
                                } else {
                                    assert(useq_set(states@[head as int]@) == cur_set);
                                }
                            }
                            assert forall|st: DfaStateID, c2: char| #[trigger]
                                dcache@.contains_key(fkey(st as nat, (c2 as u32) as nat)) implies
                            find_transition(dtrans@, st, c2) == Some(
                                dcache@[fkey(st as nat, (c2 as u32) as nat)],
                            ) by {
                                lemma_find_push(old_dtrans, newe, st, c2);
                            }
                        }
                        if use_dfa_cache {
                            let key: u128 = (head as u128) * 0x1_0000_0000_0000_0000u128 + ((
                            c as u32) as u128);
                            proof {
                                assert(key == fkey((head as u64) as nat, (c as u32) as nat));
                            }
                            let ghost old_cache = dcache@;
                            dcache.insert(key, target_id as u64);
                            proof {
                                lemma_find_push(
                                    old_dtrans,
                                    (head as u64, c, target_id as u64),
                                    head as u64,
                                    c,
                                );
                                assert forall|st: DfaStateID, c2: char| #[trigger]
                                    dcache@.contains_key(
                                    fkey(st as nat, (c2 as u32) as nat),
                                ) implies find_transition(dtrans@, st, c2) == Some(
                                    dcache@[fkey(st as nat, (c2 as u32) as nat)],
                                ) by {
                                    if fkey(st as nat, (c2 as u32) as nat) == key {
                                        lemma_fkey_inj(
                                            st as nat,
                                            (c2 as u32) as nat,
                                            (head as u64) as nat,
                                            (c as u32) as nat,
                                        );
                                        assert(st == head as u64);
                                        assert(c2 as u32 == c as u32);
                                        vstd::utf8::char_u32_cast(c2, c2 as u32);
                                        vstd::utf8::char_u32_cast(c, c as u32);
                                        assert(c2 == c);
                                    } else {
                                        assert(old_cache.contains_key(
                                            fkey(st as nat, (c2 as u32) as nat),
                                        ));
                                    }
                                }
                            }
                        }
                    } else {
                        proof {
                            lemma_find_is_member(dtrans@, head as u64, c);
                        }
                    }
                } else {
                    proof {
                        assert(move_set(ntrans, cur_set, c) =~= Set::<usize>::empty());
                    }
                }
                ci = ci + 1;
                proof {
                    assert forall|jj: int|
                        0 <= jj < ci && #[trigger] move_set(ntrans, cur_set, chars@[jj]) != Set::<
                        usize,
                    >::empty() implies (exists|k2: int|
                        0 <= k2 < dtrans@.len() && (#[trigger] dtrans@[k2]).0 as int
                            == head as int && dtrans@[k2].1 == chars@[jj]) by {
                        if jj < ci - 1 {
                            let k2 = choose|k2: int|
                                0 <= k2 < old_dtrans.len() && (#[trigger] old_dtrans[k2]).0 as int
                                    == head as int && old_dtrans[k2].1 == chars@[jj];
                            assert((#[trigger] dtrans@[k2]).0 as int == head as int);
                        } else {
                            if dtrans@.len() > old_dtrans.len() {
                                assert((#[trigger] dtrans@[dtrans@.len() - 1]).0 as int
                                    == head as int);
                            } else {
                                let e0 = (
                                    head as u64,
                                    c,
                                    find_transition(old_dtrans, head as u64, c)->Some_0,
                                );
                                let kk = choose|kk: int|
                                    0 <= kk < dtrans@.len() && dtrans@[kk] == e0;
                                assert((#[trigger] dtrans@[kk]).0 as int == head as int);
                            }
                        }
                    }
                    assert forall|i: int, c2: char|
                        0 <= i < head && #[trigger] move_set(ntrans, useq_set(states@[i]@), c2)
                            != Set::<usize>::empty() implies (exists|k2: int|
                        0 <= k2 < dtrans@.len() && (#[trigger] dtrans@[k2]).0 as int == i
                            && dtrans@[k2].1 == c2) by {
                        assert(states@[i] == old_states[i]);
                        let k2 = choose|k2: int|
                            0 <= k2 < old_dtrans.len() && (#[trigger] old_dtrans[k2]).0 as int == i
                                && old_dtrans[k2].1 == c2;
                        assert((#[trigger] dtrans@[k2]).0 as int == i);
                    }
                }
            }
            proof {
                // every live character out of this state now has a transition
                lemma_state_done(ntrans, cur_set, chars@, dtrans@, head as int);
            }
        Ok(())
    }

    /// Builds the deterministic automaton from `nfa` by subset
    /// construction: a worklist of state subsets, starting from the
    /// epsilon closure of the start state; each distinct subset becomes
    /// one deterministic state in discovery order. Fails only if more
    /// subsets appear than state ids can address.
    #[verifier::rlimit(100)]
    #[verifier::spinoff_prover]
    pub fn from_nfa(nfa: &Nfa, use_dfa_cache: bool) -> (r: Result<Dfa, crate::error::Error>)
        ensures
            r matches Ok(dfa) ==> exists|subs: Seq<Set<usize>>|
                dfa_abstraction(
                    nfa.spec_transitions(),
                    nfa.spec_accept(),
                    nfa.spec_start(),
                    dfa.spec_transitions(),
                    dfa.spec_accepts(),
                    dfa.spec_start(),
                    subs,
                ),
            r matches Err(e) ==> e is StateIDOverflow,
            r is Err ==> exists|subs: Seq<Set<usize>>|
                subs.len() == MAX_DFA_STATES && #[trigger] subset_chain(
                    nfa.spec_transitions(),
                    nfa.spec_start(),
                    subs,
                ),
    {
        let ghost ntrans = nfa.spec_transitions();
        let ghost naccept = nfa.spec_accept();
        let mut sv: Vec<NfaStateID> = Vec::new();
        sv.push(nfa.start());
        let start_closure = nfa.epsilon_closure(&sv);
        proof {
            assert(idseq_set(sv@) =~= Set::<usize>::empty().insert(nfa.spec_start() as usize))
                by {
                assert forall|u: usize|
                    idseq_set(sv@).contains(u) == Set::<usize>::empty().insert(
                        nfa.spec_start() as usize,
                    ).contains(u) by {
                    if idseq_set(sv@).contains(u) {
                        let k = choose|k: int|
                            0 <= k < sv@.len() && (#[trigger] sv@[k]) as usize == u;
                        assert(k == 0);
                    }
                    if u == nfa.spec_start() as usize {
                        assert((#[trigger] sv@[0]) as usize == u);
                    }
                }
            }
            assert(useq_set(start_closure@) =~= closure_of(
                ntrans,
                Set::<usize>::empty().insert(nfa.spec_start() as usize),
            ));
        }
        let mut states: Vec<Vec<usize>> = Vec::new();
        states.push(start_closure);
        let mut dtrans: Vec<(DfaStateID, char, DfaStateID)> = Vec::new();
        let mut daccepts = bitset_new();
        let mut dcache: HashMap<u128, DfaStateID> = HashMap::new();
        let mut head: usize = 0;
        while head < states.len()
            invariant
                ntrans == nfa.spec_transitions(),
                naccept == nfa.spec_accept(),
                head <= states@.len(),
                1 <= states@.len() <= MAX_DFA_STATES,
                useq_set(states@[0]@) == closure_of(
                    ntrans,
                    Set::<usize>::empty().insert(nfa.spec_start() as usize),
                ),
                forall|k: int|
                    0 <= k < dtrans@.len() ==> {
                        let e = #[trigger] dtrans@[k];
                        &&& (e.0 as int) < head
                        &&& (e.2 as int) < states@.len()
                        &&& useq_set(states@[e.2 as int]@) == closure_of(
                            ntrans,
                            move_set(ntrans, useq_set(states@[e.0 as int]@), e.1),
                        )
                    },
                forall|i: usize|
                    #[trigger] bitset_view(&daccepts).contains(i) ==> (i as int) < head
                        && meets_accept(states@[i as int]@, naccept),
                forall|i: int|
                    0 <= i < head ==> (meets_accept(#[trigger] states@[i]@, naccept)
                        ==> bitset_view(&daccepts).contains(i as usize)),
                forall|i: int, c: char|
                    0 <= i < head && #[trigger] move_set(ntrans, useq_set(states@[i]@), c)
                        != Set::<usize>::empty() ==> exists|k: int|
                        0 <= k < dtrans@.len() && (#[trigger] dtrans@[k]).0 as int == i
                            && dtrans@[k].1 == c,
                forall|st: DfaStateID, c: char|
                    #[trigger] dcache@.contains_key(fkey(st as nat, (c as u32) as nat))
                        ==> find_transition(dtrans@, st, c) == Some(
                        dcache@[fkey(st as nat, (c as u32) as nat)],
                    ),
                states_chain_inv(ntrans, nfa.spec_start(), states@),
                forall|k1: int, k2: int|
                    0 <= k1 < k2 < dtrans@.len() ==> !((#[trigger] dtrans@[k1]).0
                        == (#[trigger] dtrans@[k2]).0 && dtrans@[k1].1 == dtrans@[k2].1),
            decreases MAX_DFA_STATES - head,
        {
            match Dfa::expand_state(
                nfa,
                use_dfa_cache,
                head,
                &mut states,
                &mut dtrans,
                &mut daccepts,
                &mut dcache,
            ) {
                Ok(()) => (),
                Err(e) => {
                    return Err(e);
                },
            }
            head = head + 1;
        }
        let ghost dt = dtrans@;
        let ghost subs = Seq::new(states@.len() as nat, |i: int| useq_set(states@[i]@));
        let dfa = Dfa { start: 0, accepts: daccepts, transitions: dtrans, cache: dcache };
        proof {
            assert(dfa.spec_transitions() == dt);
            assert(dfa_abstraction(
                ntrans,
                naccept,
                nfa.spec_start(),
                dfa.spec_transitions(),
                dfa.spec_accepts(),
                dfa.spec_start(),
                subs,
            )) by {
                assert(subs[0] == useq_set(states@[0]@));
                assert forall|i: int|
                    0 <= i < subs.len() implies (dfa.spec_accepts().contains(i as usize)
                    <==> exists|q: usize|
                    (#[trigger] subs[i]).contains(q) && idseq_set(naccept).contains(q)) by {
                    assert(subs[i] == useq_set(states@[i]@));
                    if dfa.spec_accepts().contains(i as usize) {
                        assert(meets_accept(states@[i]@, naccept));
                        let q = choose|q: usize|
                            useq_set(states@[i]@).contains(q) && idseq_set(naccept).contains(q);
                        assert(subs[i].contains(q) && idseq_set(naccept).contains(q));
                    }
                    if exists|q: usize|
                        (#[trigger] subs[i]).contains(q) && idseq_set(naccept).contains(q) {
                        let q = choose|q: usize|
                            (#[trigger] subs[i]).contains(q) && idseq_set(naccept).contains(q);
                        assert(useq_set(states@[i]@).contains(q));
                        assert(meets_accept(states@[i]@, naccept));
                        assert(bitset_view(&dfa.accepts).contains(i as usize));
                    }
                }
                assert forall|i: int, c: char|
                    0 <= i < subs.len() && #[trigger] move_set(ntrans, subs[i], c) != Set::<
                        usize,
                    >::empty() implies (exists|k2: int|
                    0 <= k2 < dfa.spec_transitions().len()
                        && (#[trigger] dfa.spec_transitions()[k2]).0 as int == i
                        && dfa.spec_transitions()[k2].1 == c) by {
                    assert(subs[i] == useq_set(states@[i]@));
                    assert(move_set(ntrans, useq_set(states@[i]@), c) != Set::<usize>::empty());
                    let k2 = choose|k2: int|
                        0 <= k2 < dt.len() && (#[trigger] dt[k2]).0 as int == i && dt[k2].1 == c;
                    assert((#[trigger] dfa.spec_transitions()[k2]).0 as int == i);
                }
                assert forall|i: usize| #[trigger]
                    dfa.spec_accepts().contains(i) implies (i as int) < subs.len() by {
                    assert(bitset_view(&dfa.accepts).contains(i));
                }
            }
            assert(dfa_abstraction(
                nfa.spec_transitions(),
                nfa.spec_accept(),
                nfa.spec_start(),
                dfa.spec_transitions(),
                dfa.spec_accepts(),
                dfa.spec_start(),
                subs,
            ));
        }
        let ghost gdfa = dfa;
        let result: Result<Dfa, crate::error::Error> = Ok(dfa);
        proof {
            assert(result->Ok_0 == gdfa);
            assert(dfa_abstraction(
                nfa.spec_transitions(),
                nfa.spec_accept(),
                nfa.spec_start(),
                (result->Ok_0).spec_transitions(),
                (result->Ok_0).spec_accepts(),
                (result->Ok_0).spec_start(),
                subs,
            ));
            assert(exists|s2: Seq<Set<usize>>|
                dfa_abstraction(
                    nfa.spec_transitions(),
                    nfa.spec_accept(),
                    nfa.spec_start(),
                    (result->Ok_0).spec_transitions(),
                    (result->Ok_0).spec_accepts(),
                    (result->Ok_0).spec_start(),
                    s2,
                ));
        }
        result
    }
}

/// The epsilon closure of the listed states of `nfa`, sorted.
pub fn epsilon_closure(nfa: &Nfa, start: &Vec<NfaStateID>) -> (r: Vec<usize>)
    ensures
        forall|v: usize|
            r@.contains(v) == eps_reach(nfa.spec_transitions(), idseq_set(start@), v),
        forall|i: int, j: int| 0 <= i < j < r@.len() ==> r@[i] < r@[j],
{
    nfa.epsilon_closure(start)
}

} // verus!
