use vstd::prelude::*;

use crate::parser::{no_empty, AstNode};

verus! {

/// Ids of automaton states: dense integers allocated in construction order.
pub type NfaStateID = u64;

/// A set of state ids, backed by `bit_set::BitSet`, which Verus sees only
/// through the wrappers below.
#[verifier::external_body]
pub struct StateBitSet {
    inner: bit_set::BitSet,
}

/// The set of integers a `StateBitSet` holds.
pub uninterp spec fn bitset_view(s: &StateBitSet) -> Set<usize>;

/// Relies on bit_set::BitSet::new: a set with no elements.
#[verifier::external_body]
pub fn bitset_new() -> (r: StateBitSet)
    ensures
        bitset_view(&r) == Set::<usize>::empty(),
{
    StateBitSet { inner: bit_set::BitSet::new() }
}

/// Relies on bit_set::BitSet::insert: adds the one value to the set.
#[verifier::external_body]
pub fn bitset_insert(s: &mut StateBitSet, value: usize)
    ensures
        bitset_view(final(s)) == bitset_view(old(s)).insert(value),
{
    s.inner.insert(value);
}

/// Relies on bit_set::BitSet::contains: exact membership.
#[verifier::external_body]
pub fn bitset_contains(s: &StateBitSet, value: usize) -> (r: bool)
    ensures
        r == bitset_view(s).contains(value),
{
    s.inner.contains(value)
}

/// Relies on bit_set::BitSet::iter: yields exactly the elements, in
/// strictly increasing order.
#[verifier::external_body]
pub fn bitset_to_vec(s: &StateBitSet) -> (r: Vec<usize>)
    ensures
        forall|v: usize| r@.contains(v) == bitset_view(s).contains(v),
        forall|i: int, j: int| 0 <= i < j < r@.len() ==> r@[i] < r@[j],
{
    s.inner.iter().collect()
}

/// The allocator of fresh state ids.
#[derive(Debug, PartialEq, Eq, Structural)]
pub struct NfaState {
    id: NfaStateID,
}

impl NfaState {
    pub closed spec fn spec_id(&self) -> nat {
        self.id as nat
    }

    pub fn new() -> (r: Self)
        ensures
            r.spec_id() == 0,
    {
        NfaState { id: 0 }
    }
}

/// A nondeterministic automaton: a start state, accepting states, and
/// labeled transitions, where a `None` label is an epsilon edge.
#[derive(Debug)]
pub struct Nfa {
    start: NfaStateID,
    accept: Vec<NfaStateID>,
    transitions: Vec<(NfaStateID, Option<char>, NfaStateID)>,
}

/// How many fresh states the construction of `node` allocates.
pub open spec fn alloc_of(node: AstNode) -> nat
    decreases node,
{
    match node {
        AstNode::Char(_) => 2,
        AstNode::Epsilon => 2,
        AstNode::Empty => 0,
        AstNode::Plus(x) => alloc_of(*x) + 2,
        AstNode::Star(x) => alloc_of(*x) + 1,
        AstNode::Question(x) => alloc_of(*x) + 1,
        AstNode::Or(a, b) => alloc_of(*a) + alloc_of(*b) + 1,
        AstNode::Concat(a, b) => alloc_of(*a) + alloc_of(*b),
    }
}

/// The state counter after building `node` starting from counter `n`.
pub open spec fn nxt_of(node: AstNode, n: nat) -> nat {
    n + alloc_of(node)
}

/// Whether building `node` from counter `n` stays within the addressable
/// state ids.
pub open spec fn no_overflow(node: AstNode, n: nat) -> bool {
    nxt_of(node, n) <= u64::MAX
}

/// One epsilon edge from each listed state to `to`.
pub open spec fn links1(a: Seq<NfaStateID>, to: NfaStateID) -> Seq<
    (NfaStateID, Option<char>, NfaStateID),
>
    decreases a.len(),
{
    if a.len() == 0 {
        Seq::empty()
    } else {
        links1(a.drop_last(), to) + seq![(a.last(), None, to)]
    }
}

/// Two epsilon edges from each listed state: one to `to1`, one to `to2`.
pub open spec fn links2(a: Seq<NfaStateID>, to1: NfaStateID, to2: NfaStateID) -> Seq<
    (NfaStateID, Option<char>, NfaStateID),
>
    decreases a.len(),
{
    if a.len() == 0 {
        Seq::empty()
    } else {
        links2(a.drop_last(), to1, to2) + seq![(a.last(), None, to1), (a.last(), None, to2)]
    }
}

/// Thompson's construction of `node` with the counter at `n`: the start
/// state, the accepting states, the transitions, and the new counter.
/// `Char` and `Epsilon` take a fresh state pair with one edge. `Plus` adds
/// a fresh start and accept, enters the body, and loops each body accept
/// back to the body and out to the new accept; the body runs at least
/// once. `Star` adds one fresh accepting start entering
/// the body, and loops body accepts back. `Question` is `Star` without the
/// loop back. `Or` adds a fresh start entering both branches. `Concat`
/// links the left accepts to the right start.
pub open spec fn thompson(node: AstNode, n: NfaStateID) -> (
    NfaStateID,
    Seq<NfaStateID>,
    Seq<(NfaStateID, Option<char>, NfaStateID)>,
    NfaStateID,
)
    decreases node,
{
    match node {
        AstNode::Char(c) => (
            n,
            seq![(n + 1) as NfaStateID],
            seq![(n, Some(c), (n + 1) as NfaStateID)],
            (n + 2) as NfaStateID,
        ),
        AstNode::Epsilon => (
            n,
            seq![(n + 1) as NfaStateID],
            seq![(n, None, (n + 1) as NfaStateID)],
            (n + 2) as NfaStateID,
        ),
        AstNode::Empty => (n, Seq::empty(), Seq::empty(), n),
        AstNode::Plus(x) => {
            let (s, a, t, m) = thompson(*x, n);
            let acc = (m + 1) as NfaStateID;
            (
                m,
                seq![acc],
                t + seq![(m, None, s)] + links2(a, s, acc),
                (m + 2) as NfaStateID,
            )
        },
        AstNode::Star(x) => {
            let (s, a, t, m) = thompson(*x, n);
            (m, a + seq![m], t + seq![(m, None, s)] + links1(a, s), (m + 1) as NfaStateID)
        },
        AstNode::Question(x) => {
            let (s, a, t, m) = thompson(*x, n);
            (m, a + seq![m], t + seq![(m, None, s)], (m + 1) as NfaStateID)
        },
        AstNode::Or(l, r) => {
            let (s1, a1, t1, m1) = thompson(*l, n);
            let (s2, a2, t2, m2) = thompson(*r, m1);
            (m2, a1 + a2, t1 + t2 + seq![(m2, None, s1), (m2, None, s2)], (m2 + 1) as NfaStateID)
        },
        AstNode::Concat(l, r) => {
            let (s1, a1, t1, m1) = thompson(*l, n);
            let (s2, a2, t2, m2) = thompson(*r, m1);
            (s1, a2, t1 + t2 + links1(a1, s2), m2)
        },
    }
}

impl Nfa {
    pub closed spec fn spec_start(&self) -> NfaStateID {
        self.start
    }

    pub closed spec fn spec_accept(&self) -> Seq<NfaStateID> {
        self.accept@
    }

    pub closed spec fn spec_transitions(&self) -> Seq<(NfaStateID, Option<char>, NfaStateID)> {
        self.transitions@
    }

    pub fn new(start: NfaStateID, accept: Vec<NfaStateID>) -> (r: Self)
        ensures
            r.spec_start() == start,
            r.spec_accept() == accept@,
            r.spec_transitions() == Seq::<(NfaStateID, Option<char>, NfaStateID)>::empty(),
    {
        let r = Nfa { start, accept, transitions: Vec::new() };
        proof {
            assert(r.spec_transitions() =~= Seq::<
                (NfaStateID, Option<char>, NfaStateID),
            >::empty());
        }
        r
    }

    pub fn start(&self) -> (r: NfaStateID)
        ensures
            r == self.spec_start(),
    {
        self.start
    }

    pub fn accept(&self) -> (r: &Vec<NfaStateID>)
        ensures
            r@ == self.spec_accept(),
    {
        &self.accept
    }

    pub fn transitions(&self) -> (r: &Vec<(NfaStateID, Option<char>, NfaStateID)>)
        ensures
            r@ == self.spec_transitions(),
    {
        &self.transitions
    }

    fn add_transition(&mut self, from: NfaStateID, label: char, to: NfaStateID)
        ensures
            final(self).spec_start() == old(self).spec_start(),
            final(self).spec_accept() == old(self).spec_accept(),
            final(self).spec_transitions() == old(self).spec_transitions().push(
                (from, Some(label), to),
            ),
    {
        self.transitions.push((from, Some(label), to));
    }

    fn add_epsilon_transition(&mut self, from: NfaStateID, to: NfaStateID)
        ensures
            final(self).spec_start() == old(self).spec_start(),
            final(self).spec_accept() == old(self).spec_accept(),
            final(self).spec_transitions() == old(self).spec_transitions().push((from, None, to)),
    {
        self.transitions.push((from, None, to));
    }

    fn extend_transitions(&mut self, other: &Vec<(NfaStateID, Option<char>, NfaStateID)>)
        ensures
            final(self).spec_start() == old(self).spec_start(),
            final(self).spec_accept() == old(self).spec_accept(),
            final(self).spec_transitions() == old(self).spec_transitions() + other@,
    {
        let n = other.len();
        let mut i: usize = 0;
        while i < n
            invariant
                i <= n,
                n == other@.len(),
                self.spec_start() == old(self).spec_start(),
                self.spec_accept() == old(self).spec_accept(),
                self.spec_transitions() == old(self).spec_transitions() + other@.take(i as int),
            decreases n - i,
        {
            self.transitions.push(other[i]);
            i = i + 1;
            proof {
                assert(old(self).spec_transitions() + other@.take(i as int) =~= (old(
                    self,
                ).spec_transitions() + other@.take(i - 1)).push(other@[i - 1]));
            }
        }
        proof {
            assert(other@.take(n as int) =~= other@);
        }
    }

    /// Adds one epsilon edge from each state of `accepts` to `to`.
    fn link_each1(&mut self, accepts: &Vec<NfaStateID>, to: NfaStateID)
        ensures
            final(self).spec_start() == old(self).spec_start(),
            final(self).spec_accept() == old(self).spec_accept(),
            final(self).spec_transitions() == old(self).spec_transitions() + links1(accepts@, to),
    {
        let n = accepts.len();
        let mut i: usize = 0;
        proof {
            assert(links1(accepts@.take(0), to) =~= Seq::<
                (NfaStateID, Option<char>, NfaStateID),
            >::empty());
            assert(self.spec_transitions() =~= old(self).spec_transitions() + links1(
                accepts@.take(0),
                to,
            ));
        }
        while i < n
            invariant
                i <= n,
                n == accepts@.len(),
                self.spec_start() == old(self).spec_start(),
                self.spec_accept() == old(self).spec_accept(),
                self.spec_transitions() == old(self).spec_transitions() + links1(
                    accepts@.take(i as int),
                    to,
                ),
            decreases n - i,
        {
            self.add_epsilon_transition(accepts[i], to);
            i = i + 1;
            proof {
                assert(accepts@.take(i as int).drop_last() =~= accepts@.take(i - 1));
                assert(accepts@.take(i as int).last() == accepts@[i - 1]);
                assert(old(self).spec_transitions() + links1(accepts@.take(i as int), to) =~= (old(
                    self,
                ).spec_transitions() + links1(accepts@.take(i - 1), to)).push(
                    (accepts@[i - 1], None, to),
                ));
            }
        }
        proof {
            assert(accepts@.take(n as int) =~= accepts@);
        }
    }

    /// Adds two epsilon edges from each state of `accepts`: to `to1` and
    /// to `to2`.
    fn link_each2(&mut self, accepts: &Vec<NfaStateID>, to1: NfaStateID, to2: NfaStateID)
        ensures
            final(self).spec_start() == old(self).spec_start(),
            final(self).spec_accept() == old(self).spec_accept(),
            final(self).spec_transitions() == old(self).spec_transitions() + links2(
                accepts@,
                to1,
                to2,
            ),
    {
        let n = accepts.len();
        let mut i: usize = 0;
        proof {
            assert(links2(accepts@.take(0), to1, to2) =~= Seq::<
                (NfaStateID, Option<char>, NfaStateID),
            >::empty());
            assert(self.spec_transitions() =~= old(self).spec_transitions() + links2(
                accepts@.take(0),
                to1,
                to2,
            ));
        }
        while i < n
            invariant
                i <= n,
                n == accepts@.len(),
                self.spec_start() == old(self).spec_start(),
                self.spec_accept() == old(self).spec_accept(),
                self.spec_transitions() == old(self).spec_transitions() + links2(
                    accepts@.take(i as int),
                    to1,
                    to2,
                ),
            decreases n - i,
        {
            self.add_epsilon_transition(accepts[i], to1);
            self.add_epsilon_transition(accepts[i], to2);
            i = i + 1;
            proof {
                assert(accepts@.take(i as int).drop_last() =~= accepts@.take(i - 1));
                assert(accepts@.take(i as int).last() == accepts@[i - 1]);
                assert(old(self).spec_transitions() + links2(accepts@.take(i as int), to1, to2)
                    =~= (old(self).spec_transitions() + links2(accepts@.take(i - 1), to1, to2)).push(
                    (accepts@[i - 1], None, to1),
                ).push((accepts@[i - 1], None, to2)));
            }
        }
        proof {
            assert(accepts@.take(n as int) =~= accepts@);
        }
    }

    /// Builds the automaton for `node` by Thompson's construction, taking
    /// fresh state ids from `state`. Fails only if the ids would run out.
    pub fn new_from_node(node: AstNode, state: &mut NfaState) -> (r: Result<
        Nfa,
        crate::error::Error,
    >)
        requires
            no_empty(node),
        ensures
            no_overflow(node, old(state).spec_id()) ==> r is Ok,
            r matches Err(e) ==> e is StateIDOverflow,
            r matches Ok(nfa) ==> {
                let t = thompson(node, old(state).spec_id() as u64);
                &&& final(state).spec_id() == nxt_of(node, old(state).spec_id())
                &&& nxt_of(node, old(state).spec_id()) <= u64::MAX
                &&& final(state).spec_id() as u64 == t.3
                &&& nfa.spec_start() == t.0
                &&& nfa.spec_accept() == t.1
                &&& nfa.spec_transitions() == t.2
            },
        decreases node,
    {
        match node {
            AstNode::Char(c) => {
                if state.id > u64::MAX - 2 {
                    return Err(crate::error::Error::StateIDOverflow(state.id as usize));
                }
                let start = state.id;
                let accept = state.id + 1;
                state.id = state.id + 2;
                let mut accepts: Vec<NfaStateID> = Vec::new();
                accepts.push(accept);
                let mut nfa = Nfa::new(start, accepts);
                nfa.add_transition(start, c, accept);
                proof {
                    let t = thompson(node, old(state).id);
                    assert(nfa.spec_accept() =~= t.1);
                    assert(nfa.spec_transitions() =~= t.2);
                }
                Ok(nfa)
            },
            AstNode::Epsilon => {
                if state.id > u64::MAX - 2 {
                    return Err(crate::error::Error::StateIDOverflow(state.id as usize));
                }
                let start = state.id;
                let accept = state.id + 1;
                state.id = state.id + 2;
                let mut accepts: Vec<NfaStateID> = Vec::new();
                accepts.push(accept);
                let mut nfa = Nfa::new(start, accepts);
                nfa.add_epsilon_transition(start, accept);
                proof {
                    let t = thompson(node, old(state).id);
                    assert(nfa.spec_accept() =~= t.1);
                    assert(nfa.spec_transitions() =~= t.2);
                }
                Ok(nfa)
            },
            AstNode::Empty => {
                proof {
                    assert(false);
                }
                Err(crate::error::Error::InvalidSeq)
            },
            AstNode::Plus(x) => {
                let remain = match Nfa::new_from_node(*x, state) {
                    Ok(n) => n,
                    Err(e) => {
                        return Err(e);
                    },
                };
                if state.id > u64::MAX - 2 {
                    return Err(crate::error::Error::StateIDOverflow(state.id as usize));
                }
                let start = state.id;
                let accept = state.id + 1;
                state.id = state.id + 2;
                let mut accepts: Vec<NfaStateID> = Vec::new();
                accepts.push(accept);
                let mut nfa = Nfa::new(start, accepts);
                nfa.extend_transitions(remain.transitions());
                nfa.add_epsilon_transition(start, remain.start());
                nfa.link_each2(remain.accept(), remain.start(), accept);
                proof {
                    let t = thompson(node, old(state).id);
                    let tx = thompson(*x, old(state).id);
                    assert(nfa.spec_accept() =~= t.1);
                    assert(nfa.spec_transitions() =~= t.2) by {
                        assert(nfa.spec_transitions() =~= ((Seq::<
                            (NfaStateID, Option<char>, NfaStateID),
                        >::empty() + tx.2).push((start, None, tx.0)) + links2(
                            tx.1,
                            tx.0,
                            accept,
                        )));
                        assert((Seq::<(NfaStateID, Option<char>, NfaStateID)>::empty() + tx.2).push(
                            (start, None, tx.0),
                        ) =~= tx.2 + seq![(start, None, tx.0)]);
                    }
                }
                Ok(nfa)
            },
            AstNode::Star(x) => {
                let remain = match Nfa::new_from_node(*x, state) {
                    Ok(n) => n,
                    Err(e) => {
                        return Err(e);
                    },
                };
                if state.id > u64::MAX - 1 {
                    return Err(crate::error::Error::StateIDOverflow(state.id as usize));
                }
                let start = state.id;
                state.id = state.id + 1;
                let mut accepts: Vec<NfaStateID> = Vec::new();
                let an = remain.accept().len();
                let mut i: usize = 0;
                while i < an
                    invariant
                        i <= an,
                        an == remain.spec_accept().len(),
                        accepts@ == remain.spec_accept().take(i as int),
                    decreases an - i,
                {
                    accepts.push(remain.accept()[i]);
                    i = i + 1;
                    proof {
                        assert(accepts@ =~= remain.spec_accept().take(i as int));
                    }
                }
                proof {
                    assert(remain.spec_accept().take(an as int) =~= remain.spec_accept());
                }
                accepts.push(start);
                let mut nfa = Nfa::new(start, accepts);
                nfa.extend_transitions(remain.transitions());
                nfa.add_epsilon_transition(start, remain.start());
                nfa.link_each1(remain.accept(), remain.start());
                proof {
                    let t = thompson(node, old(state).id);
                    let tx = thompson(*x, old(state).id);
                    assert(nfa.spec_accept() =~= t.1);
                    assert(nfa.spec_transitions() =~= t.2) by {
                        assert((Seq::<(NfaStateID, Option<char>, NfaStateID)>::empty() + tx.2).push(
                            (start, None, tx.0),
                        ) =~= tx.2 + seq![(start, None, tx.0)]);
                    }
                }
                Ok(nfa)
            },
            AstNode::Question(x) => {
                let remain = match Nfa::new_from_node(*x, state) {
                    Ok(n) => n,
                    Err(e) => {
                        return Err(e);
                    },
                };
                if state.id > u64::MAX - 1 {
                    return Err(crate::error::Error::StateIDOverflow(state.id as usize));
                }
                let start = state.id;
                state.id = state.id + 1;
                let mut accepts: Vec<NfaStateID> = Vec::new();
                let an = remain.accept().len();
                let mut i: usize = 0;
                while i < an
                    invariant
                        i <= an,
                        an == remain.spec_accept().len(),
                        accepts@ == remain.spec_accept().take(i as int),
                    decreases an - i,
                {
                    accepts.push(remain.accept()[i]);
                    i = i + 1;
                    proof {
                        assert(accepts@ =~= remain.spec_accept().take(i as int));
                    }
                }
                proof {
                    assert(remain.spec_accept().take(an as int) =~= remain.spec_accept());
                }
                accepts.push(start);
                let mut nfa = Nfa::new(start, accepts);
                nfa.extend_transitions(remain.transitions());
                nfa.add_epsilon_transition(start, remain.start());
                proof {
                    let t = thompson(node, old(state).id);
                    let tx = thompson(*x, old(state).id);
                    assert(nfa.spec_accept() =~= t.1);
                    assert(nfa.spec_transitions() =~= t.2) by {
                        assert((Seq::<(NfaStateID, Option<char>, NfaStateID)>::empty() + tx.2).push(
                            (start, None, tx.0),
                        ) =~= tx.2 + seq![(start, None, tx.0)]);
                    }
                }
                Ok(nfa)
            },
            AstNode::Or(l, r) => {
                let remain1 = match Nfa::new_from_node(*l, state) {
                    Ok(n) => n,
                    Err(e) => {
                        return Err(e);
                    },
                };
                let remain2 = match Nfa::new_from_node(*r, state) {
                    Ok(n) => n,
                    Err(e) => {
                        return Err(e);
                    },
                };
                if state.id > u64::MAX - 1 {
                    return Err(crate::error::Error::StateIDOverflow(state.id as usize));
                }
                let start = state.id;
                state.id = state.id + 1;
                let mut accepts: Vec<NfaStateID> = Vec::new();
                let an1 = remain1.accept().len();
                let mut i: usize = 0;
                while i < an1
                    invariant
                        i <= an1,
                        an1 == remain1.spec_accept().len(),
                        accepts@ == remain1.spec_accept().take(i as int),
                    decreases an1 - i,
                {
                    accepts.push(remain1.accept()[i]);
                    i = i + 1;
                    proof {
                        assert(accepts@ =~= remain1.spec_accept().take(i as int));
                    }
                }
                proof {
                    assert(remain1.spec_accept().take(an1 as int) =~= remain1.spec_accept());
                }
                let an2 = remain2.accept().len();
                let mut j: usize = 0;
                while j < an2
                    invariant
                        j <= an2,
                        an2 == remain2.spec_accept().len(),
                        accepts@ == remain1.spec_accept() + remain2.spec_accept().take(j as int),
                    decreases an2 - j,
                {
                    accepts.push(remain2.accept()[j]);
                    j = j + 1;
                    proof {
                        assert(accepts@ =~= remain1.spec_accept() + remain2.spec_accept().take(
                            j as int,
                        ));
                    }
                }
                proof {
                    assert(remain2.spec_accept().take(an2 as int) =~= remain2.spec_accept());
                }
                let mut nfa = Nfa::new(start, accepts);
                nfa.extend_transitions(remain1.transitions());
                nfa.extend_transitions(remain2.transitions());
                nfa.add_epsilon_transition(start, remain1.start());
                nfa.add_epsilon_transition(start, remain2.start());
                proof {
                    let t = thompson(node, old(state).id);
                    let t1 = thompson(*l, old(state).id);
                    let t2 = thompson(*r, t1.3);
                    assert(nfa.spec_accept() =~= t.1);
                    assert(nfa.spec_transitions() =~= t.2) by {
                        assert(((Seq::<(NfaStateID, Option<char>, NfaStateID)>::empty() + t1.2)
                            + t2.2).push((start, None, t1.0)).push((start, None, t2.0)) =~= t1.2
                            + t2.2 + seq![(start, None, t1.0), (start, None, t2.0)]);
                    }
                }
                Ok(nfa)
            },
            AstNode::Concat(l, r) => {
                let remain1 = match Nfa::new_from_node(*l, state) {
                    Ok(n) => n,
                    Err(e) => {
                        return Err(e);
                    },
                };
                let remain2 = match Nfa::new_from_node(*r, state) {
                    Ok(n) => n,
                    Err(e) => {
                        return Err(e);
                    },
                };
                let mut accepts: Vec<NfaStateID> = Vec::new();
                let an2 = remain2.accept().len();
                let mut j: usize = 0;
                while j < an2
                    invariant
                        j <= an2,
                        an2 == remain2.spec_accept().len(),
                        accepts@ == remain2.spec_accept().take(j as int),
                    decreases an2 - j,
                {
                    accepts.push(remain2.accept()[j]);
                    j = j + 1;
                    proof {
                        assert(accepts@ =~= remain2.spec_accept().take(j as int));
                    }
                }
                proof {
                    assert(remain2.spec_accept().take(an2 as int) =~= remain2.spec_accept());
                }
                let mut nfa = Nfa::new(remain1.start(), accepts);
                nfa.extend_transitions(remain1.transitions());
                nfa.extend_transitions(remain2.transitions());
                nfa.link_each1(remain1.accept(), remain2.start());
                proof {
                    let t = thompson(node, old(state).id);
                    let t1 = thompson(*l, old(state).id);
                    let t2 = thompson(*r, t1.3);
                    assert(nfa.spec_accept() =~= t.1);
                    assert(nfa.spec_transitions() =~= t.2) by {
                        assert((Seq::<(NfaStateID, Option<char>, NfaStateID)>::empty() + t1.2)
                            + t2.2 =~= t1.2 + t2.2);
                    }
                }
                Ok(nfa)
            },
        }
    }
}

/// The set of integers a sequence holds, read at machine width.
pub open spec fn useq_set(v: Seq<usize>) -> Set<usize> {
    Set::new(|t: usize| v.contains(t))
}

/// The set of integers a sequence of state ids holds.
pub open spec fn idseq_set(v: Seq<NfaStateID>) -> Set<usize> {
    Set::new(|t: usize| exists|k: int| 0 <= k < v.len() && (#[trigger] v[k]) as usize == t)
}

/// An epsilon edge between two states, read at machine width.
pub open spec fn eps_edge(
    trans: Seq<(NfaStateID, Option<char>, NfaStateID)>,
    a: usize,
    b: usize,
) -> bool {
    exists|k: int|
        0 <= k < trans.len() && (#[trigger] trans[k]).0 as usize == a && trans[k].1 is None
            && trans[k].2 as usize == b
}

/// Consecutive entries of `p` are joined by epsilon edges.
pub open spec fn is_eps_path(
    trans: Seq<(NfaStateID, Option<char>, NfaStateID)>,
    p: Seq<usize>,
) -> bool {
    forall|i: int| 0 <= i < p.len() - 1 ==> eps_edge(trans, #[trigger] p[i], p[i + 1])
}

/// `t` is reachable from some state of `from` along epsilon edges only.
pub open spec fn eps_reach(
    trans: Seq<(NfaStateID, Option<char>, NfaStateID)>,
    from: Set<usize>,
    t: usize,
) -> bool {
    exists|p: Seq<usize>|
        p.len() >= 1 && from.contains(#[trigger] p[0]) && is_eps_path(trans, p) && p.last() == t
}

/// The targets of the epsilon edges.
spec fn eps_targets(trans: Seq<(NfaStateID, Option<char>, NfaStateID)>) -> Set<usize> {
    Set::new(
        |s: usize|
            exists|k: int|
                0 <= k < trans.len() && (#[trigger] trans[k]).1 is None && trans[k].2 as usize
                    == s,
    )
}

proof fn lemma_eps_targets_finite(trans: Seq<(NfaStateID, Option<char>, NfaStateID)>)
    ensures
        eps_targets(trans).finite(),
    decreases trans.len(),
{
    if trans.len() == 0 {
        assert(eps_targets(trans) =~= Set::<usize>::empty());
    } else {
        let shorter = trans.drop_last();
        lemma_eps_targets_finite(shorter);
        let bigger = eps_targets(shorter).insert(trans.last().2 as usize);
        assert forall|s: usize| eps_targets(trans).contains(s) implies bigger.contains(s) by {
            let k = choose|k: int|
                0 <= k < trans.len() && (#[trigger] trans[k]).1 is None && trans[k].2 as usize
                    == s;
            if k < trans.len() - 1 {
                assert(shorter[k] == trans[k]);
                assert(eps_targets(shorter).contains(s));
            }
        }
        vstd::set_lib::lemma_set_subset_finite(bigger, eps_targets(trans));
    }
}

/// One more epsilon step preserves reachability.
proof fn lemma_reach_step(
    trans: Seq<(NfaStateID, Option<char>, NfaStateID)>,
    from: Set<usize>,
    a: usize,
    b: usize,
)
    requires
        eps_reach(trans, from, a),
        eps_edge(trans, a, b),
    ensures
        eps_reach(trans, from, b),
{
    let p = choose|p: Seq<usize>|
        p.len() >= 1 && from.contains(#[trigger] p[0]) && is_eps_path(trans, p) && p.last() == a;
    let q = p.push(b);
    assert(q[0] == p[0]);
    assert forall|i: int| 0 <= i < q.len() - 1 implies eps_edge(trans, #[trigger] q[i], q[i + 1]) by {
        if i < p.len() - 1 {
            assert(q[i] == p[i] && q[i + 1] == p[i + 1]);
        } else {
            assert(q[i] == p.last() && q[i + 1] == b);
        }
    }
    assert(q.last() == b);
}

/// In a set that contains the start states and is closed under epsilon
/// edges, every reachable state is a member.
proof fn lemma_closed_contains_reach(
    trans: Seq<(NfaStateID, Option<char>, NfaStateID)>,
    from: Set<usize>,
    closed: Set<usize>,
    p: Seq<usize>,
)
    requires
        forall|s: usize| from.contains(s) ==> closed.contains(s),
        forall|a: usize, b: usize|
            #![trigger closed.contains(a), eps_edge(trans, a, b)]
            closed.contains(a) && eps_edge(trans, a, b) ==> closed.contains(b),
        p.len() >= 1,
        from.contains(p[0]),
        is_eps_path(trans, p),
    ensures
        closed.contains(p.last()),
    decreases p.len(),
{
    if p.len() == 1 {
    } else {
        let q = p.drop_last();
        assert forall|i: int| 0 <= i < q.len() - 1 implies eps_edge(trans, #[trigger] q[i], q[i + 1])
            by {
            assert(q[i] == p[i] && q[i + 1] == p[i + 1]);
        }
        lemma_closed_contains_reach(trans, from, closed, q);
        assert(eps_edge(trans, p[p.len() - 2], p[p.len() - 1]));
        assert(q.last() == p[p.len() - 2]);
    }
}

impl Nfa {
    /// The epsilon closure of `start`: breadth-first over the epsilon edges
    /// with a work queue and a visited bitset, so cycles terminate. The
    /// result holds exactly the states reachable from `start` without
    /// consuming input.
    #[verifier::rlimit(100)]
    pub fn epsilon_closure_with_bitset(&self, start: &StateBitSet) -> (r: StateBitSet)
        requires
            bitset_view(start).finite(),
        ensures
            forall|v: usize|
                bitset_view(&r).contains(v) == eps_reach(
                    self.spec_transitions(),
                    bitset_view(start),
                    v,
                ),
            bitset_view(&r).finite(),
    {
        let ghost tseq = self.spec_transitions();
        let ghost startset = bitset_view(start);
        let ghost pool = startset.union(eps_targets(tseq));
        proof {
            lemma_eps_targets_finite(tseq);
        }
        let ghost mut fresh: Set<usize> = pool;
        let mut visited = bitset_new();
        let mut queue: Vec<usize> = Vec::new();
        let start_vec = bitset_to_vec(start);
        let sn = start_vec.len();
        let mut si: usize = 0;
        while si < sn
            invariant
                si <= sn,
                sn == start_vec@.len(),
                queue@ == start_vec@.take(si as int),
            decreases sn - si,
        {
            queue.push(start_vec[si]);
            si = si + 1;
            proof {
                assert(queue@ =~= start_vec@.take(si as int));
            }
        }
        proof {
            assert(start_vec@.take(sn as int) =~= start_vec@);
            assert forall|k: int|
                0 <= k < queue@.len() implies pool.contains(#[trigger] queue@[k]) && eps_reach(
                tseq,
                startset,
                queue@[k],
            ) by {
                let sv = queue@[k];
                assert(start_vec@.contains(sv));
                assert(startset.contains(sv));
                let p = seq![sv];
                assert(p.len() == 1 && p[0] == sv && p.last() == sv);
                assert(is_eps_path(tseq, p));
                assert(eps_reach(tseq, startset, sv));
            }
            assert forall|ss: usize|
                startset.contains(ss) implies (bitset_view(&visited).contains(ss) || exists|k: int|
                    0 <= k < queue@.len() && queue@[k] == ss) by {
                assert(start_vec@.contains(ss));
                let k = choose|k: int| 0 <= k < start_vec@.len() && start_vec@[k] == ss;
                assert(queue@[k] == ss);
            }
        }
        let mut head: usize = 0;
        while head < queue.len()
            invariant
                head <= queue@.len(),
                tseq == self.spec_transitions(),
                startset == bitset_view(start),
                pool == startset.union(eps_targets(tseq)),
                fresh.finite(),
                forall|v: usize|
                    pool.contains(v) ==> (bitset_view(&visited).contains(v) == !fresh.contains(
                        v,
                    )),
                forall|v: usize| bitset_view(&visited).contains(v) ==> pool.contains(v),
                forall|k: int|
                    0 <= k < queue@.len() ==> pool.contains(#[trigger] queue@[k]) && eps_reach(
                        tseq,
                        startset,
                        queue@[k],
                    ),
                forall|v: usize| bitset_view(&visited).contains(v) ==> eps_reach(
                    tseq,
                    startset,
                    v,
                ),
                forall|s: usize|
                    startset.contains(s) ==> (bitset_view(&visited).contains(s) || exists|k: int|
                        head <= k < queue@.len() && queue@[k] == s),
                forall|a: usize, b: usize|
                    #![trigger bitset_view(&visited).contains(a), eps_edge(tseq, a, b)]
                    bitset_view(&visited).contains(a) && eps_edge(tseq, a, b) ==> (bitset_view(
                        &visited,
                    ).contains(b) || exists|k: int|
                        head <= k < queue@.len() && queue@[k] == b),
            decreases fresh.len(), queue@.len() - head,
        {
            let s = queue[head];
            head = head + 1;
            if !bitset_contains(&visited, s) {
                let ghost old_visited = bitset_view(&visited);
                bitset_insert(&mut visited, s);
                proof {
                    assert(pool.contains(s));
                    assert(fresh.contains(s));
                    fresh = fresh.remove(s);
                }
                let tn = self.transitions.len();
                let mut k: usize = 0;
                while k < tn
                    invariant
                        k <= tn,
                        tn == tseq.len(),
                        tseq == self.spec_transitions(),
                        startset == bitset_view(start),
                        pool == startset.union(eps_targets(tseq)),
                        head <= queue@.len(),
                        fresh.finite(),
                        bitset_view(&visited) == old_visited.insert(s),
                        eps_reach(tseq, startset, s),
                        forall|v: usize|
                            pool.contains(v) ==> (bitset_view(&visited).contains(v)
                                == !fresh.contains(v)),
                        forall|v: usize| bitset_view(&visited).contains(v) ==> pool.contains(v),
                        forall|kk: int|
                            0 <= kk < queue@.len() ==> pool.contains(#[trigger] queue@[kk])
                                && eps_reach(tseq, startset, queue@[kk]),
                        forall|v: usize| bitset_view(&visited).contains(v) ==> eps_reach(
                            tseq,
                            startset,
                            v,
                        ),
                        forall|ss: usize|
                            startset.contains(ss) ==> (bitset_view(&visited).contains(ss)
                                || exists|kk: int|
                                head <= kk < queue@.len() && queue@[kk] == ss),
                        forall|a: usize, b: usize|
                            #![trigger old_visited.contains(a), eps_edge(tseq, a, b)]
                            old_visited.contains(a) && eps_edge(tseq, a, b) ==> (bitset_view(
                                &visited,
                            ).contains(b) || exists|kk: int|
                                head <= kk < queue@.len() && queue@[kk] == b),
                        forall|j: int|
                            0 <= j < k ==> (((#[trigger] tseq[j]).0 as usize == s
                                && tseq[j].1 is None) ==> (bitset_view(&visited).contains(
                                tseq[j].2 as usize,
                            ) || exists|kk: int|
                                head <= kk < queue@.len() && queue@[kk] == tseq[j].2 as usize)),
                    decreases tn - k,
                {
                    let entry = self.transitions[k];
                    let is_eps_from_s = entry.0 as usize == s && matches!(entry.1, None);
                    if is_eps_from_s {
                        let target = entry.2 as usize;
                        if !bitset_contains(&visited, target) {
                            let ghost oldq = queue@;
                            queue.push(target);
                            proof {
                                assert(eps_targets(tseq).contains(target));
                                assert(eps_edge(tseq, s, target)) by {
                                    assert((#[trigger] tseq[k as int]).0 as usize == s);
                                }
                                lemma_reach_step(tseq, startset, s, target);
                                assert(queue@ =~= oldq.push(target));
                                assert forall|ss: usize|
                                    startset.contains(ss) implies (bitset_view(
                                    &visited,
                                ).contains(ss) || exists|kk: int|
                                    head <= kk < queue@.len() && queue@[kk] == ss) by {
                                    if !bitset_view(&visited).contains(ss) {
                                        let kk = choose|kk: int|
                                            head <= kk < oldq.len() && oldq[kk] == ss;
                                        assert(queue@[kk] == ss);
                                    }
                                }
                                assert forall|a: usize, b: usize|
                                    #![trigger old_visited.contains(a), eps_edge(tseq, a, b)]
                                    old_visited.contains(a) && eps_edge(tseq, a, b) implies (
                                bitset_view(&visited).contains(b) || exists|kk: int|
                                    head <= kk < queue@.len() && queue@[kk] == b) by {
                                    if !bitset_view(&visited).contains(b) {
                                        let kk = choose|kk: int|
                                            head <= kk < oldq.len() && oldq[kk] == b;
                                        assert(queue@[kk] == b);
                                    }
                                }
                                assert forall|j: int|
                                    0 <= j < k + 1 implies (((#[trigger] tseq[j]).0 as usize == s
                                    && tseq[j].1 is None) ==> (bitset_view(&visited).contains(
                                    tseq[j].2 as usize,
                                ) || exists|kk: int|
                                    head <= kk < queue@.len() && queue@[kk] == tseq[j].2
                                        as usize)) by {
                                    if j < k {
                                        if tseq[j].0 as usize == s && tseq[j].1 is None
                                            && !bitset_view(&visited).contains(
                                            tseq[j].2 as usize,
                                        ) {
                                            let kk = choose|kk: int|
                                                head <= kk < oldq.len() && oldq[kk] == tseq[j].2
                                                    as usize;
                                            assert(queue@[kk] == tseq[j].2 as usize);
                                        }
                                    } else {
                                        assert(queue@[queue@.len() - 1] == target);
                                    }
                                }
                            }
                        }
                    }
                    k = k + 1;
                }
            }
        }
        proof {
            let vis = bitset_view(&visited);
            assert forall|v: usize|
                vis.contains(v) == eps_reach(tseq, startset, v) by {
                if eps_reach(tseq, startset, v) {
                    let p = choose|p: Seq<usize>|
                        p.len() >= 1 && startset.contains(#[trigger] p[0]) && is_eps_path(tseq, p)
                            && p.last() == v;
                    assert forall|a: usize, b: usize|
                        #![trigger vis.contains(a), eps_edge(tseq, a, b)]
                        vis.contains(a) && eps_edge(tseq, a, b) implies vis.contains(b) by {}
                    lemma_closed_contains_reach(tseq, startset, vis, p);
                }
            }
            vstd::set_lib::lemma_set_subset_finite(pool, vis);
        }
        visited
    }

    /// The epsilon closure of the listed states, as a sorted vector of
    /// state ids at machine width.
    pub fn epsilon_closure(&self, start: &Vec<NfaStateID>) -> (r: Vec<usize>)
        ensures
            forall|v: usize|
                r@.contains(v) == eps_reach(self.spec_transitions(), idseq_set(start@), v),
            forall|i: int, j: int| 0 <= i < j < r@.len() ==> r@[i] < r@[j],
    {
        let ghost target_set = idseq_set(start@);
        let mut bits = bitset_new();
        let n = start.len();
        let mut i: usize = 0;
        while i < n
            invariant
                i <= n,
                n == start@.len(),
                bitset_view(&bits) == Set::new(
                    |u: usize|
                        exists|k: int|
                            0 <= k < i && (#[trigger] start@[k]) as usize == u,
                ),
                bitset_view(&bits).finite(),
            decreases n - i,
        {
            let ghost prev = bitset_view(&bits);
            bitset_insert(&mut bits, start[i] as usize);
            i = i + 1;
            proof {
                assert(bitset_view(&bits) =~= Set::new(
                    |u: usize|
                        exists|k: int|
                            0 <= k < i && (#[trigger] start@[k]) as usize == u,
                )) by {
                    assert forall|u: usize|
                        bitset_view(&bits).contains(u) == Set::new(
                            |uu: usize|
                                exists|k: int|
                                    0 <= k < i && (#[trigger] start@[k]) as usize == uu,
                        ).contains(u) by {
                        if bitset_view(&bits).contains(u) {
                            if u == start@[i - 1] as usize {
                                assert((#[trigger] start@[i - 1]) as usize == u);
                            } else {
                                assert(prev.contains(u));
                            }
                        } else {
                            if exists|k: int|
                                0 <= k < i && (#[trigger] start@[k]) as usize == u {
                                let k = choose|k: int|
                                    0 <= k < i && (#[trigger] start@[k]) as usize == u;
                                if k < i - 1 {
                                    assert(prev.contains(u));
                                }
                                assert(false);
                            }
                        }
                    }
                }
            }
        }
        proof {
            assert(bitset_view(&bits) =~= target_set);
        }
        let closure = self.epsilon_closure_with_bitset(&bits);
        bitset_to_vec(&closure)
    }
}

} // verus!
