use std::collections::HashMap;

use vstd::prelude::*;

use crate::lang::{
    lang_equiv, lemma_concat_cong, lemma_concat_empty_l, lemma_concat_empty_r,
    lemma_concat_epsilon_l, lemma_concat_epsilon_r, lemma_empty, lemma_epsilon,
    lemma_lang_equiv_refl, lemma_lang_equiv_sym, lemma_lang_equiv_trans, lemma_or, lemma_or_cong,
    lemma_plus_cong, lemma_plus_empty, lemma_question, lemma_question_cong, lemma_star_cong,
    lemma_star_trivial, matches_ast, nullable, spec_delta, spec_deriv,
};
use crate::parser::{ast_eq, clone_ast, AstNode};

verus! {

broadcast use vstd::std_specs::hash::group_hash_axioms;

/// The simplified form of a pattern: `Empty` absorbs concatenation and is
/// the identity of alternation, `Epsilon` is the identity of concatenation,
/// an alternation of two equal branches collapses, and the star or question
/// of a trivial pattern collapses. Simplification is applied bottom-up.
pub open spec fn spec_normalize(r: AstNode) -> AstNode
    decreases r,
{
    match r {
        AstNode::Or(l0, r0) => {
            let l = spec_normalize(*l0);
            let rr = spec_normalize(*r0);
            if l == AstNode::Empty {
                rr
            } else if rr == AstNode::Empty {
                l
            } else if l == rr {
                l
            } else {
                AstNode::Or(Box::new(l), Box::new(rr))
            }
        },
        AstNode::Concat(l0, r0) => {
            let l = spec_normalize(*l0);
            let rr = spec_normalize(*r0);
            if l == AstNode::Empty || rr == AstNode::Empty {
                AstNode::Empty
            } else if l == AstNode::Epsilon {
                rr
            } else if rr == AstNode::Epsilon {
                l
            } else {
                AstNode::Concat(Box::new(l), Box::new(rr))
            }
        },
        AstNode::Plus(i) => {
            let x = spec_normalize(*i);
            if x == AstNode::Empty {
                AstNode::Empty
            } else {
                AstNode::Plus(Box::new(x))
            }
        },
        AstNode::Star(i) => {
            let x = spec_normalize(*i);
            if x == AstNode::Empty || x == AstNode::Epsilon {
                AstNode::Epsilon
            } else {
                AstNode::Star(Box::new(x))
            }
        },
        AstNode::Question(i) => {
            let x = spec_normalize(*i);
            if x == AstNode::Empty {
                AstNode::Epsilon
            } else {
                AstNode::Question(Box::new(x))
            }
        },
        _ => r,
    }
}

/// A pattern on which the simplification laws have nothing left to do.
pub open spec fn is_normal(r: AstNode) -> bool
    decreases r,
{
    match r {
        AstNode::Or(a, b) => is_normal(*a) && is_normal(*b) && *a != AstNode::Empty && *b
            != AstNode::Empty && *a != *b,
        AstNode::Concat(a, b) => is_normal(*a) && is_normal(*b) && *a != AstNode::Empty && *b
            != AstNode::Empty && *a != AstNode::Epsilon && *b != AstNode::Epsilon,
        AstNode::Plus(x) => is_normal(*x) && *x != AstNode::Empty,
        AstNode::Star(x) => is_normal(*x) && *x != AstNode::Empty && *x != AstNode::Epsilon,
        AstNode::Question(x) => is_normal(*x) && *x != AstNode::Empty,
        _ => true,
    }
}

/// Simplifying leaves a simplified pattern.
pub proof fn lemma_normalize_normal(r: AstNode)
    ensures
        is_normal(spec_normalize(r)),
    decreases r,
{
    match r {
        AstNode::Or(l0, r0) => {
            lemma_normalize_normal(*l0);
            lemma_normalize_normal(*r0);
        },
        AstNode::Concat(l0, r0) => {
            lemma_normalize_normal(*l0);
            lemma_normalize_normal(*r0);
        },
        AstNode::Plus(i) => {
            lemma_normalize_normal(*i);
        },
        AstNode::Star(i) => {
            lemma_normalize_normal(*i);
        },
        AstNode::Question(i) => {
            lemma_normalize_normal(*i);
        },
        _ => {},
    }
}

/// Simplifying a simplified pattern changes nothing.
pub proof fn lemma_normalize_of_normal(r: AstNode)
    requires
        is_normal(r),
    ensures
        spec_normalize(r) == r,
    decreases r,
{
    match r {
        AstNode::Or(l0, r0) => {
            lemma_normalize_of_normal(*l0);
            lemma_normalize_of_normal(*r0);
        },
        AstNode::Concat(l0, r0) => {
            lemma_normalize_of_normal(*l0);
            lemma_normalize_of_normal(*r0);
        },
        AstNode::Plus(i) => {
            lemma_normalize_of_normal(*i);
        },
        AstNode::Star(i) => {
            lemma_normalize_of_normal(*i);
        },
        AstNode::Question(i) => {
            lemma_normalize_of_normal(*i);
        },
        _ => {},
    }
}

/// Simplification is idempotent: simplifying an already-simplified pattern
/// yields the same pattern, a fixed point.
pub proof fn lemma_normalize_idempotent(r: AstNode)
    ensures
        spec_normalize(spec_normalize(r)) == spec_normalize(r),
{
    lemma_normalize_normal(r);
    lemma_normalize_of_normal(spec_normalize(r));
}

/// Simplification preserves the language.
pub proof fn lemma_normalize_lang(r: AstNode)
    ensures
        lang_equiv(spec_normalize(r), r),
    decreases r,
{
    match r {
        AstNode::Or(l0, r0) => {
            let a = *l0;
            let b = *r0;
            let l = spec_normalize(a);
            let rr = spec_normalize(b);
            lemma_normalize_lang(a);
            lemma_normalize_lang(b);
            if l == AstNode::Empty {
                assert forall|s: Seq<char>| matches_ast(rr, s) == matches_ast(r, s) by {
                    lemma_or(a, b, s);
                    lemma_empty(s);
                    assert(matches_ast(a, s) == matches_ast(l, s));
                    assert(matches_ast(b, s) == matches_ast(rr, s));
                }
            } else if rr == AstNode::Empty {
                assert forall|s: Seq<char>| matches_ast(l, s) == matches_ast(r, s) by {
                    lemma_or(a, b, s);
                    lemma_empty(s);
                    assert(matches_ast(a, s) == matches_ast(l, s));
                    assert(matches_ast(b, s) == matches_ast(rr, s));
                }
            } else if l == rr {
                assert forall|s: Seq<char>| matches_ast(l, s) == matches_ast(r, s) by {
                    lemma_or(a, b, s);
                    assert(matches_ast(a, s) == matches_ast(l, s));
                    assert(matches_ast(b, s) == matches_ast(rr, s));
                }
            } else {
                lemma_or_cong(l, a, rr, b);
            }
        },
        AstNode::Concat(l0, r0) => {
            let a = *l0;
            let b = *r0;
            let l = spec_normalize(a);
            let rr = spec_normalize(b);
            lemma_normalize_lang(a);
            lemma_normalize_lang(b);
            lemma_concat_cong(l, a, rr, b);
            let cn = AstNode::Concat(Box::new(l), Box::new(rr));
            if l == AstNode::Empty || rr == AstNode::Empty {
                assert forall|s: Seq<char>| matches_ast(AstNode::Empty, s) == matches_ast(r, s) by {
                    lemma_empty(s);
                    if l == AstNode::Empty {
                        lemma_concat_empty_l(rr, s);
                    } else {
                        lemma_concat_empty_r(l, s);
                    }
                    assert(matches_ast(cn, s) == matches_ast(r, s));
                }
            } else if l == AstNode::Epsilon {
                assert forall|s: Seq<char>| matches_ast(rr, s) == matches_ast(r, s) by {
                    lemma_concat_epsilon_l(rr, s);
                    assert(matches_ast(cn, s) == matches_ast(r, s));
                }
            } else if rr == AstNode::Epsilon {
                assert forall|s: Seq<char>| matches_ast(l, s) == matches_ast(r, s) by {
                    lemma_concat_epsilon_r(l, s);
                    assert(matches_ast(cn, s) == matches_ast(r, s));
                }
            } else {
            }
        },
        AstNode::Plus(i) => {
            let a = *i;
            let x = spec_normalize(a);
            lemma_normalize_lang(a);
            if x == AstNode::Empty {
                lemma_lang_equiv_sym(x, a);
                lemma_plus_cong(a, AstNode::Empty);
                assert forall|s: Seq<char>| matches_ast(AstNode::Empty, s) == matches_ast(r, s) by {
                    lemma_empty(s);
                    lemma_plus_empty(s);
                    assert(matches_ast(r, s) == matches_ast(
                        AstNode::Plus(Box::new(AstNode::Empty)),
                        s,
                    ));
                }
            } else {
                lemma_plus_cong(x, a);
            }
        },
        AstNode::Star(i) => {
            let a = *i;
            let x = spec_normalize(a);
            lemma_normalize_lang(a);
            if x == AstNode::Empty || x == AstNode::Epsilon {
                lemma_lang_equiv_sym(x, a);
                lemma_star_cong(a, x);
                assert forall|s: Seq<char>| matches_ast(AstNode::Epsilon, s) == matches_ast(
                    r,
                    s,
                ) by {
                    lemma_epsilon(s);
                    lemma_star_trivial(x, s);
                    assert(matches_ast(r, s) == matches_ast(AstNode::Star(Box::new(x)), s));
                }
            } else {
                lemma_star_cong(x, a);
            }
        },
        AstNode::Question(i) => {
            let a = *i;
            let x = spec_normalize(a);
            lemma_normalize_lang(a);
            if x == AstNode::Empty {
                assert forall|s: Seq<char>| matches_ast(AstNode::Epsilon, s) == matches_ast(
                    r,
                    s,
                ) by {
                    lemma_epsilon(s);
                    lemma_question(a, s);
                    lemma_empty(s);
                    assert(matches_ast(a, s) == matches_ast(x, s));
                }
            } else {
                lemma_question_cong(x, a);
            }
        },
        _ => {},
    }
}

/// Applies the simplification laws bottom-up and returns the simplified
/// pattern, which has the same language as the input.
pub fn normalize_parser(ast: AstNode) -> (r: AstNode)
    ensures
        r == spec_normalize(ast),
    decreases ast,
{
    match ast {
        AstNode::Or(l0, r0) => {
            let l = normalize_parser(*l0);
            let rr = normalize_parser(*r0);
            if matches!(l, AstNode::Empty) {
                rr
            } else if matches!(rr, AstNode::Empty) {
                l
            } else if ast_eq(&l, &rr) {
                l
            } else {
                AstNode::Or(Box::new(l), Box::new(rr))
            }
        },
        AstNode::Concat(l0, r0) => {
            let l = normalize_parser(*l0);
            let rr = normalize_parser(*r0);
            if matches!(l, AstNode::Empty) || matches!(rr, AstNode::Empty) {
                AstNode::Empty
            } else if matches!(l, AstNode::Epsilon) {
                rr
            } else if matches!(rr, AstNode::Epsilon) {
                l
            } else {
                AstNode::Concat(Box::new(l), Box::new(rr))
            }
        },
        AstNode::Plus(i) => {
            let x = normalize_parser(*i);
            if matches!(x, AstNode::Empty) {
                AstNode::Empty
            } else {
                AstNode::Plus(Box::new(x))
            }
        },
        AstNode::Star(i) => {
            let x = normalize_parser(*i);
            if matches!(x, AstNode::Empty) || matches!(x, AstNode::Epsilon) {
                AstNode::Epsilon
            } else {
                AstNode::Star(Box::new(x))
            }
        },
        AstNode::Question(i) => {
            let x = normalize_parser(*i);
            if matches!(x, AstNode::Empty) {
                AstNode::Epsilon
            } else {
                AstNode::Question(Box::new(x))
            }
        },
        other => other,
    }
}

/// Whether the pattern matches the empty string.
pub fn contain_epsilon_parser(ast: &AstNode) -> (r: bool)
    ensures
        r == nullable(*ast),
    decreases ast,
{
    match ast {
        AstNode::Epsilon => true,
        AstNode::Star(_) => true,
        AstNode::Question(_) => true,
        AstNode::Empty => false,
        AstNode::Char(_) => false,
        AstNode::Plus(inner) => contain_epsilon_parser(inner),
        AstNode::Or(left, right) => contain_epsilon_parser(left) || contain_epsilon_parser(right),
        AstNode::Concat(left, right) => contain_epsilon_parser(left) && contain_epsilon_parser(
            right,
        ),
    }
}

/// `Epsilon` if the pattern matches the empty string, `Empty` otherwise.
pub fn delta_parser(ast: &AstNode) -> (r: AstNode)
    ensures
        r == spec_delta(*ast),
{
    if contain_epsilon_parser(ast) {
        AstNode::Epsilon
    } else {
        AstNode::Empty
    }
}

/// The simplified Brzozowski derivative of `ast` with respect to `c`. The
/// result matches `t` exactly when `ast` matches `c` followed by `t`.
pub fn derivative_parser(ast: &AstNode, c: char) -> (r: AstNode)
    ensures
        lang_equiv(r, spec_deriv(*ast, c)),
        is_normal(r),
    decreases ast,
{
    let raw = match ast {
        AstNode::Empty => AstNode::Empty,
        AstNode::Epsilon => AstNode::Empty,
        AstNode::Char(ch) => {
            if *ch == c {
                AstNode::Epsilon
            } else {
                AstNode::Empty
            }
        },
        AstNode::Plus(inner) => {
            let head = derivative_parser(inner, c);
            let tail = AstNode::Star(Box::new(clone_ast(inner)));
            proof {
                lemma_lang_equiv_refl(tail);
                lemma_concat_cong(head, spec_deriv(*(*inner), c), tail, tail);
            }
            AstNode::Concat(Box::new(head), Box::new(tail))
        },
        AstNode::Star(inner) => {
            let head = derivative_parser(inner, c);
            let tail = AstNode::Star(Box::new(clone_ast(inner)));
            proof {
                lemma_lang_equiv_refl(tail);
                lemma_concat_cong(head, spec_deriv(*(*inner), c), tail, tail);
            }
            AstNode::Concat(Box::new(head), Box::new(tail))
        },
        AstNode::Question(inner) => derivative_parser(inner, c),
        AstNode::Or(left, right) => {
            let dl = derivative_parser(left, c);
            let dr = derivative_parser(right, c);
            proof {
                lemma_or_cong(dl, spec_deriv(*(*left), c), dr, spec_deriv(*(*right), c));
            }
            AstNode::Or(Box::new(dl), Box::new(dr))
        },
        AstNode::Concat(left, right) => {
            let dl = derivative_parser(left, c);
            let first = AstNode::Concat(Box::new(dl), Box::new(clone_ast(right)));
            let delta_left = delta_parser(left);
            let dr = derivative_parser(right, c);
            let second = AstNode::Concat(Box::new(delta_left), Box::new(dr));
            proof {
                lemma_lang_equiv_refl(*(*right));
                lemma_lang_equiv_refl(spec_delta(*(*left)));
                lemma_concat_cong(
                    *(first->Concat_0),
                    spec_deriv(*(*left), c),
                    *(*right),
                    *(*right),
                );
                lemma_concat_cong(
                    spec_delta(*(*left)),
                    spec_delta(*(*left)),
                    *(second->Concat_1),
                    spec_deriv(*(*right), c),
                );
                lemma_or_cong(
                    first,
                    AstNode::Concat(
                        Box::new(spec_deriv(*(*left), c)),
                        Box::new(*(*right)),
                    ),
                    second,
                    AstNode::Concat(
                        Box::new(spec_delta(*(*left))),
                        Box::new(spec_deriv(*(*right), c)),
                    ),
                );
            }
            AstNode::Or(Box::new(first), Box::new(second))
        },
    };
    let ghost d = spec_deriv(*ast, c);
    proof {
        lemma_lang_equiv_refl(d);
    }
    assert(lang_equiv(raw, d));
    let result = normalize_parser(raw);
    proof {
        lemma_normalize_lang(raw);
        lemma_lang_equiv_trans(result, raw, d);
        lemma_normalize_normal(raw);
    }
    result
}

/// Matches `input` against `original` by taking one derivative per input
/// character and testing the final pattern for the empty string. This is the
/// memoization-free path, used when the arena grows past its bound; its
/// answer is exact for every pattern and input.
pub fn match_fallback(original: &AstNode, input: &Vec<char>) -> (r: bool)
    ensures
        r == matches_ast(*original, input@),
{
    let mut ast = clone_ast(original);
    let n = input.len();
    let mut i: usize = 0;
    proof {
        assert(input@.skip(0) =~= input@);
    }
    while i < n
        invariant
            i <= n,
            n == input@.len(),
            matches_ast(ast, input@.skip(i as int)) == matches_ast(*original, input@),
        decreases n - i,
    {
        let c = input[i];
        let next = derivative_parser(&ast, c);
        proof {
            let rem = input@.skip(i as int);
            assert(rem[0] == c);
            assert(rem.skip(1) =~= input@.skip(i as int + 1));
            assert(matches_ast(ast, rem) == matches_ast(spec_deriv(ast, c), rem.skip(1)));
            assert(matches_ast(next, input@.skip(i as int + 1)) == matches_ast(
                spec_deriv(ast, c),
                input@.skip(i as int + 1),
            ));
        }
        ast = next;
        i = i + 1;
    }
    proof {
        assert(input@.skip(n as int) =~= Seq::<char>::empty());
    }
    contain_epsilon_parser(&ast)
}

/// An index into the arena. Ids are dense and allocated in insertion order.
#[derive(Debug, Clone, Copy, PartialEq, Eq, Structural)]
struct AstId(usize);

impl AstId {
    fn index(self) -> (r: usize)
        ensures
            r == self.0,
    {
        self.0
    }
}

/// One node of the hash-consed pattern arena. Children are ids of earlier
/// arena entries, so the arena is an acyclic, topologically ordered DAG.
#[derive(Debug, Clone, Copy, PartialEq, Eq, Structural)]
enum NodeKind {
    Empty,
    Epsilon,
    Char(char),
    Plus(AstId),
    Star(AstId),
    Question(AstId),
    Or(AstId, AstId),
    Concat(AstId, AstId),
}

/// All child ids of `k` lie below `bound`.
spec fn kind_wf(k: NodeKind, bound: int) -> bool {
    match k {
        NodeKind::Empty => true,
        NodeKind::Epsilon => true,
        NodeKind::Char(_) => true,
        NodeKind::Plus(x) => (x.0 as int) < bound,
        NodeKind::Star(x) => (x.0 as int) < bound,
        NodeKind::Question(x) => (x.0 as int) < bound,
        NodeKind::Or(a, b) => (a.0 as int) < bound && (b.0 as int) < bound,
        NodeKind::Concat(a, b) => (a.0 as int) < bound && (b.0 as int) < bound,
    }
}

/// The arena invariant: the two sentinels sit at the bottom, every node
/// refers only to earlier nodes, and no node value occurs twice — so two
/// ids are equal exactly when they hold structurally equal nodes.
spec fn wf_nodes(nodes: Seq<NodeKind>) -> bool {
    &&& nodes.len() >= 2
    &&& nodes[0] == NodeKind::Empty
    &&& nodes[1] == NodeKind::Epsilon
    &&& forall|i: int| 0 <= i < nodes.len() ==> kind_wf(#[trigger] nodes[i], i)
    &&& forall|i: int, j: int|
        0 <= i < j < nodes.len() ==> #[trigger] nodes[i] != #[trigger] nodes[j]
}

/// The pattern that the arena entry `id` denotes.
spec fn view_id(nodes: Seq<NodeKind>, id: int) -> AstNode
    decreases id,
{
    if 0 <= id < nodes.len() {
        match nodes[id] {
            NodeKind::Empty => AstNode::Empty,
            NodeKind::Epsilon => AstNode::Epsilon,
            NodeKind::Char(c) => AstNode::Char(c),
            NodeKind::Plus(x) => if (x.0 as int) < id {
                AstNode::Plus(Box::new(view_id(nodes, x.0 as int)))
            } else {
                AstNode::Empty
            },
            NodeKind::Star(x) => if (x.0 as int) < id {
                AstNode::Star(Box::new(view_id(nodes, x.0 as int)))
            } else {
                AstNode::Empty
            },
            NodeKind::Question(x) => if (x.0 as int) < id {
                AstNode::Question(Box::new(view_id(nodes, x.0 as int)))
            } else {
                AstNode::Empty
            },
            NodeKind::Or(a, b) => if (a.0 as int) < id && (b.0 as int) < id {
                AstNode::Or(
                    Box::new(view_id(nodes, a.0 as int)),
                    Box::new(view_id(nodes, b.0 as int)),
                )
            } else {
                AstNode::Empty
            },
            NodeKind::Concat(a, b) => if (a.0 as int) < id && (b.0 as int) < id {
                AstNode::Concat(
                    Box::new(view_id(nodes, a.0 as int)),
                    Box::new(view_id(nodes, b.0 as int)),
                )
            } else {
                AstNode::Empty
            },
        }
    } else {
        AstNode::Empty
    }
}

/// The pattern denoted by a node value `k` whose children are read in
/// `nodes`.
spec fn kind_view(nodes: Seq<NodeKind>, k: NodeKind) -> AstNode {
    match k {
        NodeKind::Empty => AstNode::Empty,
        NodeKind::Epsilon => AstNode::Epsilon,
        NodeKind::Char(c) => AstNode::Char(c),
        NodeKind::Plus(x) => AstNode::Plus(Box::new(view_id(nodes, x.0 as int))),
        NodeKind::Star(x) => AstNode::Star(Box::new(view_id(nodes, x.0 as int))),
        NodeKind::Question(x) => AstNode::Question(Box::new(view_id(nodes, x.0 as int))),
        NodeKind::Or(a, b) => AstNode::Or(
            Box::new(view_id(nodes, a.0 as int)),
            Box::new(view_id(nodes, b.0 as int)),
        ),
        NodeKind::Concat(a, b) => AstNode::Concat(
            Box::new(view_id(nodes, a.0 as int)),
            Box::new(view_id(nodes, b.0 as int)),
        ),
    }
}

/// `b` extends `a`: the arena only grows.
spec fn extends(a: Seq<NodeKind>, b: Seq<NodeKind>) -> bool {
    a.len() <= b.len() && b.take(a.len() as int) == a
}

/// Growing the arena does not change what existing entries denote.
proof fn lemma_view_extends(a: Seq<NodeKind>, b: Seq<NodeKind>, id: int)
    requires
        extends(a, b),
        0 <= id < a.len(),
    ensures
        view_id(b, id) == view_id(a, id),
    decreases id,
{
    assert(b.take(a.len() as int)[id] == b[id]);
    assert(b[id] == a[id]);
    match a[id] {
        NodeKind::Plus(x) => {
            if (x.0 as int) < id {
                lemma_view_extends(a, b, x.0 as int);
            }
        },
        NodeKind::Star(x) => {
            if (x.0 as int) < id {
                lemma_view_extends(a, b, x.0 as int);
            }
        },
        NodeKind::Question(x) => {
            if (x.0 as int) < id {
                lemma_view_extends(a, b, x.0 as int);
            }
        },
        NodeKind::Or(x, y) => {
            if (x.0 as int) < id && (y.0 as int) < id {
                lemma_view_extends(a, b, x.0 as int);
                lemma_view_extends(a, b, y.0 as int);
            }
        },
        NodeKind::Concat(x, y) => {
            if (x.0 as int) < id && (y.0 as int) < id {
                lemma_view_extends(a, b, x.0 as int);
                lemma_view_extends(a, b, y.0 as int);
            }
        },
        _ => {},
    }
}

/// Quantified form of `lemma_view_extends`.
proof fn lemma_view_extends_all(a: Seq<NodeKind>, b: Seq<NodeKind>)
    requires
        extends(a, b),
    ensures
        forall|id: int| 0 <= id < a.len() ==> #[trigger] view_id(b, id) == view_id(a, id),
{
    assert forall|id: int| 0 <= id < a.len() implies #[trigger] view_id(b, id) == view_id(
        a,
        id,
    ) by {
        lemma_view_extends(a, b, id);
    }
}

/// The hash-consed arena of pattern nodes. Structurally identical nodes
/// share one id, so id equality implies structural equality; the arena only
/// grows. The two sentinels `Empty` and `Epsilon` are pre-interned.
#[derive(Debug)]
struct AstArena {
    nodes: Vec<NodeKind>,
    empty: AstId,
    epsilon: AstId,
}

impl AstArena {
    spec fn wf(&self) -> bool {
        &&& wf_nodes(self.nodes@)
        &&& self.empty == AstId(0)
        &&& self.epsilon == AstId(1)
    }

    spec fn view_of(&self, id: AstId) -> AstNode {
        view_id(self.nodes@, id.0 as int)
    }

    fn new() -> (a: AstArena)
        ensures
            a.wf(),
            a.nodes@.len() == 2,
    {
        let mut nodes: Vec<NodeKind> = Vec::new();
        nodes.push(NodeKind::Empty);
        nodes.push(NodeKind::Epsilon);
        let a = AstArena { nodes, empty: AstId(0), epsilon: AstId(1) };
        proof {
            assert(a.nodes@[0] == NodeKind::Empty);
            assert(a.nodes@[1] == NodeKind::Epsilon);
            assert forall|i: int| 0 <= i < a.nodes@.len() implies kind_wf(
                #[trigger] a.nodes@[i],
                i,
            ) by {}
        }
        a
    }

    fn empty(&self) -> (r: AstId)
        requires
            self.wf(),
        ensures
            r == AstId(0),
    {
        self.empty
    }

    fn epsilon(&self) -> (r: AstId)
        requires
            self.wf(),
        ensures
            r == AstId(1),
    {
        self.epsilon
    }

    fn kind(&self, id: AstId) -> (k: NodeKind)
        requires
            id.0 < self.nodes@.len(),
        ensures
            k == self.nodes@[id.0 as int],
    {
        self.nodes[id.index()]
    }

    fn len(&self) -> (n: usize)
        ensures
            n == self.nodes@.len(),
    {
        self.nodes.len()
    }

    /// Returns the id of a node equal to `kind`, interning it if it is new.
    fn intern(&mut self, kind: NodeKind) -> (r: AstId)
        requires
            old(self).wf(),
            kind_wf(kind, old(self).nodes@.len() as int),
        ensures
            final(self).wf(),
            final(self).empty == old(self).empty,
            final(self).epsilon == old(self).epsilon,
            extends(old(self).nodes@, final(self).nodes@),
            final(self).nodes@.len() <= old(self).nodes@.len() + 1,
            r.0 < final(self).nodes@.len(),
            final(self).nodes@[r.0 as int] == kind,
            view_id(final(self).nodes@, r.0 as int) == kind_view(final(self).nodes@, kind),
            forall|id: int|
                0 <= id < old(self).nodes@.len() ==> #[trigger] view_id(final(self).nodes@, id)
                    == view_id(old(self).nodes@, id),
            forall|j: int|
                0 <= j < final(self).nodes@.len() ==> ((#[trigger] final(self).nodes@[j] == kind)
                    <==> j == r.0 as int),
    {
        let n = self.nodes.len();
        let mut i: usize = 0;
        while i < n
            invariant
                i <= n,
                n == self.nodes@.len(),
                self == old(self),
                self.wf(),
                forall|j: int| 0 <= j < i ==> #[trigger] self.nodes@[j] != kind,
            decreases n - i,
        {
            if self.nodes[i] == kind {
                proof {
                    assert(extends(self.nodes@, self.nodes@)) by {
                        assert(self.nodes@.take(self.nodes@.len() as int) =~= self.nodes@);
                    }
                    lemma_view_extends_all(self.nodes@, self.nodes@);
                    assert(kind_wf(self.nodes@[i as int], i as int));
                }
                return AstId(i);
            }
            i = i + 1;
        }
        let ghost old_nodes = self.nodes@;
        self.nodes.push(kind);
        proof {
            assert(extends(old_nodes, self.nodes@)) by {
                assert(self.nodes@.take(old_nodes.len() as int) =~= old_nodes);
            }
            assert forall|j: int| 0 <= j < self.nodes@.len() implies kind_wf(
                #[trigger] self.nodes@[j],
                j,
            ) by {
                if j < old_nodes.len() {
                    assert(self.nodes@[j] == old_nodes[j]);
                }
            }
            assert forall|j1: int, j2: int|
                0 <= j1 < j2 < self.nodes@.len() implies #[trigger] self.nodes@[j1]
                != #[trigger] self.nodes@[j2] by {
                if j2 == self.nodes@.len() - 1 {
                    assert(self.nodes@[j1] == old_nodes[j1]);
                } else {
                    assert(self.nodes@[j1] == old_nodes[j1]);
                    assert(self.nodes@[j2] == old_nodes[j2]);
                }
            }
            lemma_view_extends_all(old_nodes, self.nodes@);
        }
        AstId(n)
    }

    /// Rebuilds the plain syntax tree that `id` denotes.
    fn export(&self, id: AstId) -> (r: AstNode)
        requires
            self.wf(),
            id.0 < self.nodes@.len(),
        ensures
            r == self.view_of(id),
        decreases id.0,
    {
        proof {
            assert(kind_wf(self.nodes@[id.0 as int], id.0 as int));
        }
        match self.kind(id) {
            NodeKind::Empty => AstNode::Empty,
            NodeKind::Epsilon => AstNode::Epsilon,
            NodeKind::Char(c) => AstNode::Char(c),
            NodeKind::Plus(x) => AstNode::Plus(Box::new(self.export(x))),
            NodeKind::Star(x) => AstNode::Star(Box::new(self.export(x))),
            NodeKind::Question(x) => AstNode::Question(Box::new(self.export(x))),
            NodeKind::Or(a, b) => AstNode::Or(
                Box::new(self.export(a)),
                Box::new(self.export(b)),
            ),
            NodeKind::Concat(a, b) => AstNode::Concat(
                Box::new(self.export(a)),
                Box::new(self.export(b)),
            ),
        }
    }

    /// A copy of the arena, used as per-call scratch so that matching can
    /// intern derivative nodes without touching the compiled pattern.
    fn duplicate(&self) -> (r: AstArena)
        ensures
            r.nodes@ == self.nodes@,
            r.empty == self.empty,
            r.epsilon == self.epsilon,
    {
        let n = self.nodes.len();
        let mut nodes: Vec<NodeKind> = Vec::new();
        let mut i: usize = 0;
        while i < n
            invariant
                i <= n,
                n == self.nodes@.len(),
                nodes@ == self.nodes@.take(i as int),
            decreases n - i,
        {
            nodes.push(self.nodes[i]);
            i = i + 1;
            proof {
                assert(nodes@ =~= self.nodes@.take(i as int));
            }
        }
        proof {
            assert(nodes@ =~= self.nodes@);
        }
        AstArena { nodes, empty: self.empty, epsilon: self.epsilon }
    }
}

/// The second arena state extends the first: same sentinels, old entries
/// unchanged, old views unchanged.
spec fn grows(a0: AstArena, a1: AstArena) -> bool {
    &&& a1.wf()
    &&& a1.empty == a0.empty
    &&& a1.epsilon == a0.epsilon
    &&& extends(a0.nodes@, a1.nodes@)
    &&& forall|id: int|
        0 <= id < a0.nodes@.len() ==> #[trigger] view_id(a1.nodes@, id) == view_id(a0.nodes@, id)
}

proof fn lemma_grows_refl(a: AstArena)
    requires
        a.wf(),
    ensures
        grows(a, a),
{
    assert(a.nodes@.take(a.nodes@.len() as int) =~= a.nodes@);
}

proof fn lemma_grows_trans(a: AstArena, b: AstArena, c: AstArena)
    requires
        grows(a, b),
        grows(b, c),
    ensures
        grows(a, c),
{
    assert(c.nodes@.take(a.nodes@.len() as int) =~= b.nodes@.take(a.nodes@.len() as int));
    assert(b.nodes@.take(a.nodes@.len() as int) =~= a.nodes@);
}

/// Interns `Char(c)`.
fn mk_char(arena: &mut AstArena, c: char) -> (r: AstId)
    requires
        old(arena).wf(),
    ensures
        grows(*old(arena), *final(arena)),
        r.0 < final(arena).nodes@.len(),
        view_id(final(arena).nodes@, r.0 as int) == AstNode::Char(c),
{
    arena.intern(NodeKind::Char(c))
}

/// Interns `Plus(inner)`, simplifying `Plus(Empty)` to `Empty`.
fn mk_plus(arena: &mut AstArena, inner: AstId) -> (r: AstId)
    requires
        old(arena).wf(),
        inner.0 < old(arena).nodes@.len(),
    ensures
        grows(*old(arena), *final(arena)),
        r.0 < final(arena).nodes@.len(),
        lang_equiv(
            view_id(final(arena).nodes@, r.0 as int),
            AstNode::Plus(Box::new(view_id(old(arena).nodes@, inner.0 as int))),
        ),
        inner == AstId(0) ==> r == AstId(0),
{
    let ghost vi = view_id(arena.nodes@, inner.0 as int);
    if inner == arena.empty() {
        let r = arena.empty();
        proof {
            lemma_grows_refl(*arena);
            assert(view_id(arena.nodes@, 0) == AstNode::Empty);
            assert forall|s: Seq<char>|
                matches_ast(AstNode::Empty, s) == matches_ast(
                    AstNode::Plus(Box::new(AstNode::Empty)),
                    s,
                ) by {
                lemma_empty(s);
                lemma_plus_empty(s);
            }
        }
        r
    } else {
        let r = arena.intern(NodeKind::Plus(inner));
        proof {
            assert(view_id(arena.nodes@, r.0 as int) == AstNode::Plus(
                Box::new(view_id(arena.nodes@, inner.0 as int)),
            ));
            lemma_lang_equiv_refl(view_id(arena.nodes@, r.0 as int));
        }
        r
    }
}

/// Interns `Star(inner)`, simplifying `Star(Empty)` and `Star(Epsilon)` to
/// `Epsilon`.
fn mk_star(arena: &mut AstArena, inner: AstId) -> (r: AstId)
    requires
        old(arena).wf(),
        inner.0 < old(arena).nodes@.len(),
    ensures
        grows(*old(arena), *final(arena)),
        r.0 < final(arena).nodes@.len(),
        lang_equiv(
            view_id(final(arena).nodes@, r.0 as int),
            AstNode::Star(Box::new(view_id(old(arena).nodes@, inner.0 as int))),
        ),
        inner == AstId(0) || inner == AstId(1) ==> r == AstId(1),
{
    let ghost vi = view_id(arena.nodes@, inner.0 as int);
    if inner == arena.empty() || inner == arena.epsilon() {
        let r = arena.epsilon();
        proof {
            lemma_grows_refl(*arena);
            assert(view_id(arena.nodes@, 0) == AstNode::Empty);
            assert(view_id(arena.nodes@, 1) == AstNode::Epsilon);
            assert(vi == AstNode::Empty || vi == AstNode::Epsilon);
            assert forall|s: Seq<char>|
                matches_ast(AstNode::Epsilon, s) == matches_ast(
                    AstNode::Star(Box::new(vi)),
                    s,
                ) by {
                lemma_epsilon(s);
                lemma_star_trivial(vi, s);
            }
        }
        r
    } else {
        let r = arena.intern(NodeKind::Star(inner));
        proof {
            assert(view_id(arena.nodes@, r.0 as int) == AstNode::Star(
                Box::new(view_id(arena.nodes@, inner.0 as int)),
            ));
            lemma_lang_equiv_refl(view_id(arena.nodes@, r.0 as int));
        }
        r
    }
}

/// Interns `Question(inner)`, simplifying `Question(Empty)` to `Epsilon`.
fn mk_question(arena: &mut AstArena, inner: AstId) -> (r: AstId)
    requires
        old(arena).wf(),
        inner.0 < old(arena).nodes@.len(),
    ensures
        grows(*old(arena), *final(arena)),
        r.0 < final(arena).nodes@.len(),
        lang_equiv(
            view_id(final(arena).nodes@, r.0 as int),
            AstNode::Question(Box::new(view_id(old(arena).nodes@, inner.0 as int))),
        ),
        inner == AstId(0) ==> r == AstId(1),
{
    let ghost vi = view_id(arena.nodes@, inner.0 as int);
    if inner == arena.empty() {
        let r = arena.epsilon();
        proof {
            lemma_grows_refl(*arena);
            assert(view_id(arena.nodes@, 0) == AstNode::Empty);
            assert(view_id(arena.nodes@, 1) == AstNode::Epsilon);
            assert forall|s: Seq<char>|
                matches_ast(AstNode::Epsilon, s) == matches_ast(
                    AstNode::Question(Box::new(AstNode::Empty)),
                    s,
                ) by {
                lemma_epsilon(s);
                lemma_question(AstNode::Empty, s);
                lemma_empty(s);
            }
        }
        r
    } else {
        let r = arena.intern(NodeKind::Question(inner));
        proof {
            assert(view_id(arena.nodes@, r.0 as int) == AstNode::Question(
                Box::new(view_id(arena.nodes@, inner.0 as int)),
            ));
            lemma_lang_equiv_refl(view_id(arena.nodes@, r.0 as int));
        }
        r
    }
}

/// Interns `Concat(left, right)`, applying the absorbing law for `Empty`
/// and the identity law for `Epsilon`.
fn mk_seq(arena: &mut AstArena, left: AstId, right: AstId) -> (r: AstId)
    requires
        old(arena).wf(),
        left.0 < old(arena).nodes@.len(),
        right.0 < old(arena).nodes@.len(),
    ensures
        grows(*old(arena), *final(arena)),
        r.0 < final(arena).nodes@.len(),
        lang_equiv(
            view_id(final(arena).nodes@, r.0 as int),
            AstNode::Concat(
                Box::new(view_id(old(arena).nodes@, left.0 as int)),
                Box::new(view_id(old(arena).nodes@, right.0 as int)),
            ),
        ),
        left == AstId(0) || right == AstId(0) ==> r == AstId(0),
        left == AstId(1) && right != AstId(0) ==> r == right,
        right == AstId(1) && left != AstId(0) && left != AstId(1) ==> r == left,
{
    let ghost vl = view_id(arena.nodes@, left.0 as int);
    let ghost vr = view_id(arena.nodes@, right.0 as int);
    proof {
        assert(view_id(arena.nodes@, 0) == AstNode::Empty);
        assert(view_id(arena.nodes@, 1) == AstNode::Epsilon);
    }
    if left == arena.empty() || right == arena.empty() {
        let r = arena.empty();
        proof {
            lemma_grows_refl(*arena);
            assert forall|s: Seq<char>|
                matches_ast(AstNode::Empty, s) == matches_ast(
                    AstNode::Concat(Box::new(vl), Box::new(vr)),
                    s,
                ) by {
                lemma_empty(s);
                if vl == AstNode::Empty {
                    lemma_concat_empty_l(vr, s);
                } else {
                    lemma_concat_empty_r(vl, s);
                }
            }
        }
        r
    } else if left == arena.epsilon() {
        proof {
            lemma_grows_refl(*arena);
            assert forall|s: Seq<char>|
                matches_ast(vr, s) == matches_ast(
                    AstNode::Concat(Box::new(vl), Box::new(vr)),
                    s,
                ) by {
                lemma_concat_epsilon_l(vr, s);
            }
        }
        right
    } else if right == arena.epsilon() {
        proof {
            lemma_grows_refl(*arena);
            assert forall|s: Seq<char>|
                matches_ast(vl, s) == matches_ast(
                    AstNode::Concat(Box::new(vl), Box::new(vr)),
                    s,
                ) by {
                lemma_concat_epsilon_r(vl, s);
            }
        }
        left
    } else {
        let r = arena.intern(NodeKind::Concat(left, right));
        proof {
            assert(view_id(arena.nodes@, r.0 as int) == AstNode::Concat(
                Box::new(view_id(arena.nodes@, left.0 as int)),
                Box::new(view_id(arena.nodes@, right.0 as int)),
            ));
            lemma_lang_equiv_refl(view_id(arena.nodes@, r.0 as int));
        }
        r
    }
}

/// The two ids in increasing order.
fn ordered_pair(a: AstId, b: AstId) -> (r: (AstId, AstId))
    ensures
        r == if a.0 > b.0 {
            (b, a)
        } else {
            (a, b)
        },
{
    if a.index() > b.index() {
        (b, a)
    } else {
        (a, b)
    }
}

/// Interns `Or(left, right)` with the operands in id order, dropping an
/// `Empty` operand and collapsing equal operands.
fn mk_or(arena: &mut AstArena, left: AstId, right: AstId) -> (r: AstId)
    requires
        old(arena).wf(),
        left.0 < old(arena).nodes@.len(),
        right.0 < old(arena).nodes@.len(),
    ensures
        grows(*old(arena), *final(arena)),
        r.0 < final(arena).nodes@.len(),
        lang_equiv(
            view_id(final(arena).nodes@, r.0 as int),
            AstNode::Or(
                Box::new(view_id(old(arena).nodes@, left.0 as int)),
                Box::new(view_id(old(arena).nodes@, right.0 as int)),
            ),
        ),
        left == right ==> r == left,
        left == AstId(0) && left != right ==> r == right,
        right == AstId(0) && left != right ==> r == left,
        left != right && left != AstId(0) && right != AstId(0)
            ==> final(arena).nodes@[r.0 as int] == (if left.0 <= right.0 {
            NodeKind::Or(left, right)
        } else {
            NodeKind::Or(right, left)
        }),
{
    let ghost vl = view_id(arena.nodes@, left.0 as int);
    let ghost vr = view_id(arena.nodes@, right.0 as int);
    proof {
        assert(view_id(arena.nodes@, 0) == AstNode::Empty);
    }
    if left == right {
        proof {
            lemma_grows_refl(*arena);
            assert forall|s: Seq<char>|
                matches_ast(vl, s) == matches_ast(AstNode::Or(Box::new(vl), Box::new(vr)), s) by {
                lemma_or(vl, vr, s);
            }
        }
        return left;
    }
    if left == arena.empty() {
        proof {
            lemma_grows_refl(*arena);
            assert forall|s: Seq<char>|
                matches_ast(vr, s) == matches_ast(AstNode::Or(Box::new(vl), Box::new(vr)), s) by {
                lemma_or(vl, vr, s);
                lemma_empty(s);
            }
        }
        return right;
    }
    if right == arena.empty() {
        proof {
            lemma_grows_refl(*arena);
            assert forall|s: Seq<char>|
                matches_ast(vl, s) == matches_ast(AstNode::Or(Box::new(vl), Box::new(vr)), s) by {
                lemma_or(vl, vr, s);
                lemma_empty(s);
            }
        }
        return left;
    }
    let (lo, hi) = ordered_pair(left, right);
    let r = arena.intern(NodeKind::Or(lo, hi));
    proof {
        let vlo = view_id(arena.nodes@, lo.0 as int);
        let vhi = view_id(arena.nodes@, hi.0 as int);
        assert(view_id(arena.nodes@, r.0 as int) == AstNode::Or(
            Box::new(vlo),
            Box::new(vhi),
        ));
        assert forall|s: Seq<char>|
            matches_ast(AstNode::Or(Box::new(vlo), Box::new(vhi)), s) == matches_ast(
                AstNode::Or(Box::new(vl), Box::new(vr)),
                s,
            ) by {
            lemma_or(vlo, vhi, s);
            lemma_or(vl, vr, s);
        }
    }
    r
}

/// Imports a plain syntax tree into the arena, simplifying as it goes. The
/// returned entry has the same language as `node`.
fn from_parser(arena: &mut AstArena, node: &AstNode) -> (r: AstId)
    requires
        old(arena).wf(),
    ensures
        grows(*old(arena), *final(arena)),
        r.0 < final(arena).nodes@.len(),
        lang_equiv(view_id(final(arena).nodes@, r.0 as int), *node),
    decreases node,
{
    match node {
        AstNode::Empty => {
            let r = arena.empty();
            proof {
                lemma_grows_refl(*arena);
                assert(view_id(arena.nodes@, 0) == AstNode::Empty);
                lemma_lang_equiv_refl(AstNode::Empty);
            }
            r
        },
        AstNode::Epsilon => {
            let r = arena.epsilon();
            proof {
                lemma_grows_refl(*arena);
                assert(view_id(arena.nodes@, 1) == AstNode::Epsilon);
                lemma_lang_equiv_refl(AstNode::Epsilon);
            }
            r
        },
        AstNode::Char(c) => {
            let r = mk_char(arena, *c);
            proof {
                lemma_lang_equiv_refl(AstNode::Char(*c));
            }
            r
        },
        AstNode::Plus(inner) => {
            let ghost a0 = *arena;
            let i1 = from_parser(arena, inner);
            let ghost a1 = *arena;
            let ghost v1 = view_id(a1.nodes@, i1.0 as int);
            let r = mk_plus(arena, i1);
            proof {
                lemma_grows_trans(a0, a1, *arena);
                lemma_plus_cong(v1, *(*inner));
                lemma_lang_equiv_trans(
                    view_id(arena.nodes@, r.0 as int),
                    AstNode::Plus(Box::new(v1)),
                    *node,
                );
            }
            r
        },
        AstNode::Star(inner) => {
            let ghost a0 = *arena;
            let i1 = from_parser(arena, inner);
            let ghost a1 = *arena;
            let ghost v1 = view_id(a1.nodes@, i1.0 as int);
            let r = mk_star(arena, i1);
            proof {
                lemma_grows_trans(a0, a1, *arena);
                lemma_star_cong(v1, *(*inner));
                lemma_lang_equiv_trans(
                    view_id(arena.nodes@, r.0 as int),
                    AstNode::Star(Box::new(v1)),
                    *node,
                );
            }
            r
        },
        AstNode::Question(inner) => {
            let ghost a0 = *arena;
            let i1 = from_parser(arena, inner);
            let ghost a1 = *arena;
            let ghost v1 = view_id(a1.nodes@, i1.0 as int);
            let r = mk_question(arena, i1);
            proof {
                lemma_grows_trans(a0, a1, *arena);
                lemma_question_cong(v1, *(*inner));
                lemma_lang_equiv_trans(
                    view_id(arena.nodes@, r.0 as int),
                    AstNode::Question(Box::new(v1)),
                    *node,
                );
            }
            r
        },
        AstNode::Or(left, right) => {
            let ghost a0 = *arena;
            let li = from_parser(arena, left);
            let ghost a1 = *arena;
            let ri = from_parser(arena, right);
            let ghost a2 = *arena;
            let ghost vlft = view_id(a2.nodes@, li.0 as int);
            let ghost vrgt = view_id(a2.nodes@, ri.0 as int);
            let r = mk_or(arena, li, ri);
            proof {
                lemma_grows_trans(a0, a1, a2);
                lemma_grows_trans(a0, a2, *arena);
                assert(vlft == view_id(a1.nodes@, li.0 as int));
                lemma_or_cong(vlft, *(*left), vrgt, *(*right));
                lemma_lang_equiv_trans(
                    view_id(arena.nodes@, r.0 as int),
                    AstNode::Or(Box::new(vlft), Box::new(vrgt)),
                    *node,
                );
            }
            r
        },
        AstNode::Concat(left, right) => {
            let ghost a0 = *arena;
            let li = from_parser(arena, left);
            let ghost a1 = *arena;
            let ri = from_parser(arena, right);
            let ghost a2 = *arena;
            let ghost vlft = view_id(a2.nodes@, li.0 as int);
            let ghost vrgt = view_id(a2.nodes@, ri.0 as int);
            let r = mk_seq(arena, li, ri);
            proof {
                lemma_grows_trans(a0, a1, a2);
                lemma_grows_trans(a0, a2, *arena);
                assert(vlft == view_id(a1.nodes@, li.0 as int));
                lemma_concat_cong(vlft, *(*left), vrgt, *(*right));
                lemma_lang_equiv_trans(
                    view_id(arena.nodes@, r.0 as int),
                    AstNode::Concat(Box::new(vlft), Box::new(vrgt)),
                    *node,
                );
            }
            r
        },
    }
}

/// Entries of the nullability memo agree with the arena.
spec fn ce_memo_inv(memo: Seq<Option<bool>>, nodes: Seq<NodeKind>) -> bool {
    &&& memo.len() == nodes.len()
    &&& forall|i: int|
        0 <= i < memo.len() ==> match #[trigger] memo[i] {
            Some(b) => b == nullable(view_id(nodes, i)),
            None => true,
        }
}

/// Whether the arena entry `id` matches the empty string, with a memo per
/// entry so that shared subtrees are visited once.
fn ce_helper(arena: &AstArena, id: AstId, memo: &mut Vec<Option<bool>>) -> (r: bool)
    requires
        arena.wf(),
        id.0 < arena.nodes@.len(),
        ce_memo_inv(old(memo)@, arena.nodes@),
    ensures
        ce_memo_inv(final(memo)@, arena.nodes@),
        r == nullable(view_id(arena.nodes@, id.0 as int)),
    decreases id.0,
{
    if let Some(b) = memo[id.index()] {
        return b;
    }
    proof {
        assert(kind_wf(arena.nodes@[id.0 as int], id.0 as int));
    }
    let value = match arena.kind(id) {
        NodeKind::Empty => false,
        NodeKind::Epsilon => true,
        NodeKind::Char(_) => false,
        NodeKind::Plus(x) => ce_helper(arena, x, memo),
        NodeKind::Star(_) => true,
        NodeKind::Question(_) => true,
        NodeKind::Or(a, b) => ce_helper(arena, a, memo) || ce_helper(arena, b, memo),
        NodeKind::Concat(a, b) => ce_helper(arena, a, memo) && ce_helper(arena, b, memo),
    };
    memo.set(id.index(), Some(value));
    value
}

/// Whether the arena entry `id` matches the empty string.
fn contains_epsilon_id(arena: &AstArena, id: AstId) -> (r: bool)
    requires
        arena.wf(),
        id.0 < arena.nodes@.len(),
    ensures
        r == nullable(view_id(arena.nodes@, id.0 as int)),
{
    let n = arena.len();
    let mut memo: Vec<Option<bool>> = Vec::new();
    let mut i: usize = 0;
    while i < n
        invariant
            i <= n,
            memo@.len() == i,
            forall|j: int| 0 <= j < i ==> #[trigger] memo@[j] is None,
        decreases n - i,
    {
        memo.push(None);
        i = i + 1;
    }
    ce_helper(arena, id, &mut memo)
}

/// `Epsilon` if the entry matches the empty string, `Empty` otherwise.
fn delta_id(arena: &AstArena, id: AstId) -> (r: AstId)
    requires
        arena.wf(),
        id.0 < arena.nodes@.len(),
    ensures
        r.0 < arena.nodes@.len(),
        view_id(arena.nodes@, r.0 as int) == spec_delta(view_id(arena.nodes@, id.0 as int)),
{
    proof {
        assert(view_id(arena.nodes@, 0) == AstNode::Empty);
        assert(view_id(arena.nodes@, 1) == AstNode::Epsilon);
    }
    if contains_epsilon_id(arena, id) {
        arena.epsilon()
    } else {
        arena.empty()
    }
}

/// The simplified derivative of the arena entry `id` with respect to `c`,
/// interned into the arena.
fn derivative_id(arena: &mut AstArena, id: AstId, c: char) -> (r: AstId)
    requires
        old(arena).wf(),
        id.0 < old(arena).nodes@.len(),
    ensures
        grows(*old(arena), *final(arena)),
        r.0 < final(arena).nodes@.len(),
        lang_equiv(
            view_id(final(arena).nodes@, r.0 as int),
            spec_deriv(view_id(old(arena).nodes@, id.0 as int), c),
        ),
    decreases id.0,
{
    proof {
        assert(kind_wf(arena.nodes@[id.0 as int], id.0 as int));
    }
    let ghost v = view_id(arena.nodes@, id.0 as int);
    match arena.kind(id) {
        NodeKind::Empty => {
            let r = arena.empty();
            proof {
                lemma_grows_refl(*arena);
                assert(view_id(arena.nodes@, 0) == AstNode::Empty);
                lemma_lang_equiv_refl(AstNode::Empty);
            }
            r
        },
        NodeKind::Epsilon => {
            let r = arena.empty();
            proof {
                lemma_grows_refl(*arena);
                assert(view_id(arena.nodes@, 0) == AstNode::Empty);
                lemma_lang_equiv_refl(AstNode::Empty);
            }
            r
        },
        NodeKind::Char(ch) => {
            let r = if ch == c {
                arena.epsilon()
            } else {
                arena.empty()
            };
            proof {
                lemma_grows_refl(*arena);
                assert(view_id(arena.nodes@, 0) == AstNode::Empty);
                assert(view_id(arena.nodes@, 1) == AstNode::Epsilon);
                lemma_lang_equiv_refl(view_id(arena.nodes@, r.0 as int));
            }
            r
        },
        NodeKind::Plus(inner) => {
            let ghost a0 = *arena;
            let ghost vi = view_id(a0.nodes@, inner.0 as int);
            let head = derivative_id(arena, inner, c);
            let ghost a1 = *arena;
            let tail = mk_star(arena, inner);
            let ghost a2 = *arena;
            let ghost vh = view_id(a2.nodes@, head.0 as int);
            let ghost vt = view_id(a2.nodes@, tail.0 as int);
            let r = mk_seq(arena, head, tail);
            proof {
                lemma_grows_trans(a0, a1, a2);
                lemma_grows_trans(a0, a2, *arena);
                assert(vh == view_id(a1.nodes@, head.0 as int));
                assert(lang_equiv(vh, spec_deriv(vi, c)));
                assert(lang_equiv(vt, AstNode::Star(Box::new(vi))));
                lemma_concat_cong(vh, spec_deriv(vi, c), vt, AstNode::Star(Box::new(vi)));
                assert(spec_deriv(v, c) == AstNode::Concat(
                    Box::new(spec_deriv(vi, c)),
                    Box::new(AstNode::Star(Box::new(vi))),
                ));
                lemma_lang_equiv_trans(
                    view_id(arena.nodes@, r.0 as int),
                    AstNode::Concat(Box::new(vh), Box::new(vt)),
                    spec_deriv(v, c),
                );
            }
            r
        },
        NodeKind::Star(inner) => {
            let ghost a0 = *arena;
            let ghost vi = view_id(a0.nodes@, inner.0 as int);
            let head = derivative_id(arena, inner, c);
            let ghost a1 = *arena;
            let tail = mk_star(arena, inner);
            let ghost a2 = *arena;
            let ghost vh = view_id(a2.nodes@, head.0 as int);
            let ghost vt = view_id(a2.nodes@, tail.0 as int);
            let r = mk_seq(arena, head, tail);
            proof {
                lemma_grows_trans(a0, a1, a2);
                lemma_grows_trans(a0, a2, *arena);
                assert(vh == view_id(a1.nodes@, head.0 as int));
                assert(lang_equiv(vh, spec_deriv(vi, c)));
                assert(lang_equiv(vt, AstNode::Star(Box::new(vi))));
                lemma_concat_cong(vh, spec_deriv(vi, c), vt, AstNode::Star(Box::new(vi)));
                assert(spec_deriv(v, c) == AstNode::Concat(
                    Box::new(spec_deriv(vi, c)),
                    Box::new(AstNode::Star(Box::new(vi))),
                ));
                lemma_lang_equiv_trans(
                    view_id(arena.nodes@, r.0 as int),
                    AstNode::Concat(Box::new(vh), Box::new(vt)),
                    spec_deriv(v, c),
                );
            }
            r
        },
        NodeKind::Question(inner) => {
            let r = derivative_id(arena, inner, c);
            proof {
                assert(spec_deriv(v, c) == spec_deriv(
                    view_id(old(arena).nodes@, inner.0 as int),
                    c,
                ));
            }
            r
        },
        NodeKind::Or(a, b) => {
            let ghost a0 = *arena;
            let ghost va = view_id(a0.nodes@, a.0 as int);
            let ghost vb = view_id(a0.nodes@, b.0 as int);
            let da = derivative_id(arena, a, c);
            let ghost a1 = *arena;
            let db = derivative_id(arena, b, c);
            let ghost a2 = *arena;
            let ghost vda = view_id(a2.nodes@, da.0 as int);
            let ghost vdb = view_id(a2.nodes@, db.0 as int);
            let r = mk_or(arena, da, db);
            proof {
                lemma_grows_trans(a0, a1, a2);
                lemma_grows_trans(a0, a2, *arena);
                assert(vda == view_id(a1.nodes@, da.0 as int));
                assert(lang_equiv(vda, spec_deriv(va, c)));
                assert(lang_equiv(vdb, spec_deriv(vb, c)));
                lemma_or_cong(vda, spec_deriv(va, c), vdb, spec_deriv(vb, c));
                assert(spec_deriv(v, c) == AstNode::Or(
                    Box::new(spec_deriv(va, c)),
                    Box::new(spec_deriv(vb, c)),
                ));
                lemma_lang_equiv_trans(
                    view_id(arena.nodes@, r.0 as int),
                    AstNode::Or(Box::new(vda), Box::new(vdb)),
                    spec_deriv(v, c),
                );
            }
            r
        },
        NodeKind::Concat(a, b) => {
            let ghost a0 = *arena;
            let ghost va = view_id(a0.nodes@, a.0 as int);
            let ghost vb = view_id(a0.nodes@, b.0 as int);
            let da = derivative_id(arena, a, c);
            let ghost a1 = *arena;
            let first = mk_seq(arena, da, b);
            let ghost a2 = *arena;
            let ghost vfirst = view_id(a2.nodes@, first.0 as int);
            let dl = delta_id(arena, a);
            let db = derivative_id(arena, b, c);
            let ghost a3 = *arena;
            let second = mk_seq(arena, dl, db);
            let ghost a4 = *arena;
            let ghost vsecond = view_id(a4.nodes@, second.0 as int);
            let r = mk_or(arena, first, second);
            proof {
                lemma_grows_trans(a0, a1, a2);
                lemma_grows_trans(a2, a3, a4);
                lemma_grows_trans(a0, a2, a4);
                lemma_grows_trans(a0, a4, *arena);
                // first covers d(a) followed by b
                let vda = view_id(a1.nodes@, da.0 as int);
                assert(lang_equiv(vda, spec_deriv(va, c)));
                assert(view_id(a1.nodes@, b.0 as int) == vb);
                assert(lang_equiv(vfirst, AstNode::Concat(Box::new(vda), Box::new(vb))));
                lemma_lang_equiv_refl(vb);
                lemma_concat_cong(vda, spec_deriv(va, c), vb, vb);
                lemma_lang_equiv_trans(
                    vfirst,
                    AstNode::Concat(Box::new(vda), Box::new(vb)),
                    AstNode::Concat(Box::new(spec_deriv(va, c)), Box::new(vb)),
                );
                // second covers delta(a) followed by d(b)
                let vdl = view_id(a2.nodes@, dl.0 as int);
                assert(view_id(a2.nodes@, a.0 as int) == va);
                assert(vdl == spec_delta(va));
                let vdb = view_id(a3.nodes@, db.0 as int);
                assert(lang_equiv(vdb, spec_deriv(view_id(a2.nodes@, b.0 as int), c)));
                assert(view_id(a2.nodes@, b.0 as int) == vb);
                assert(view_id(a3.nodes@, dl.0 as int) == vdl);
                assert(lang_equiv(
                    vsecond,
                    AstNode::Concat(Box::new(vdl), Box::new(view_id(a3.nodes@, db.0 as int))),
                ));
                assert(view_id(a3.nodes@, db.0 as int) == vdb);
                lemma_lang_equiv_refl(vdl);
                lemma_concat_cong(vdb, spec_deriv(vb, c), vdl, vdl);
                lemma_concat_cong(vdl, vdl, vdb, spec_deriv(vb, c));
                lemma_lang_equiv_trans(
                    vsecond,
                    AstNode::Concat(Box::new(vdl), Box::new(vdb)),
                    AstNode::Concat(Box::new(spec_delta(va)), Box::new(spec_deriv(vb, c))),
                );
                // the whole derivative
                assert(view_id(a4.nodes@, first.0 as int) == vfirst);
                lemma_or_cong(
                    vfirst,
                    AstNode::Concat(Box::new(spec_deriv(va, c)), Box::new(vb)),
                    vsecond,
                    AstNode::Concat(Box::new(spec_delta(va)), Box::new(spec_deriv(vb, c))),
                );
                assert(spec_deriv(v, c) == AstNode::Or(
                    Box::new(AstNode::Concat(Box::new(spec_deriv(va, c)), Box::new(vb))),
                    Box::new(
                        AstNode::Concat(Box::new(spec_delta(va)), Box::new(spec_deriv(vb, c))),
                    ),
                ));
                lemma_lang_equiv_trans(
                    view_id(arena.nodes@, r.0 as int),
                    AstNode::Or(Box::new(vfirst), Box::new(vsecond)),
                    spec_deriv(v, c),
                );
            }
            r
        },
    }
}

/// The bound on the live size of a derivative before matching falls back to
/// the memoization-free path.
const DEFAULT_MAX_AST_SIZE: usize = 1000;

/// The memo key for the derivative of entry `id` with respect to `c`.
spec fn ukey(id: int, c: char) -> u128 {
    (id * 0x1_0000_0000 + (c as u32) as int) as u128
}

/// Distinct (entry, character) pairs get distinct memo keys.
proof fn lemma_ukey_inj(id1: int, c1: char, id2: int, c2: char)
    requires
        0 <= id1 < 0x1_0000_0000_0000_0000,
        0 <= id2 < 0x1_0000_0000_0000_0000,
        ukey(id1, c1) == ukey(id2, c2),
    ensures
        id1 == id2,
        c1 == c2,
{
    let u1 = (c1 as u32) as int;
    let u2 = (c2 as u32) as int;
    assert(0 <= u1 < 0x1_0000_0000);
    assert(0 <= u2 < 0x1_0000_0000);
    let v1 = id1 * 0x1_0000_0000 + u1;
    let v2 = id2 * 0x1_0000_0000 + u2;
    assert(0 <= v1 < 0x1_0000_0000_0000_0000_0000_0000) by (nonlinear_arith)
        requires
            0 <= id1 < 0x1_0000_0000_0000_0000,
            0 <= u1 < 0x1_0000_0000,
            v1 == id1 * 0x1_0000_0000 + u1,
    {
    }
    assert(0 <= v2 < 0x1_0000_0000_0000_0000_0000_0000) by (nonlinear_arith)
        requires
            0 <= id2 < 0x1_0000_0000_0000_0000,
            0 <= u2 < 0x1_0000_0000,
            v2 == id2 * 0x1_0000_0000 + u2,
    {
    }
    assert(v1 as u128 == ukey(id1, c1));
    assert(v2 as u128 == ukey(id2, c2));
    assert(v1 == v2);
    assert(id1 == id2 && u1 == u2) by (nonlinear_arith)
        requires
            v1 == v2,
            v1 == id1 * 0x1_0000_0000 + u1,
            v2 == id2 * 0x1_0000_0000 + u2,
            0 <= u1 < 0x1_0000_0000,
            0 <= u2 < 0x1_0000_0000,
            id1 >= 0,
            id2 >= 0,
    {
    }
    assert(c1 as u32 == c2 as u32);
    assert(c1 == c2);
}

/// Entries of the derivative memo point at arena entries whose language is
/// the derivative of the keyed entry.
spec fn dmemo_inv(m: Map<u128, usize>, nodes: Seq<NodeKind>) -> bool {
    forall|id: int, c: char|
        0 <= id < 0x1_0000_0000_0000_0000 && #[trigger] m.contains_key(ukey(id, c)) ==> {
            &&& id < nodes.len()
            &&& (m[ukey(id, c)] as int) < nodes.len()
            &&& lang_equiv(
                view_id(nodes, m[ukey(id, c)] as int),
                spec_deriv(view_id(nodes, id), c),
            )
        }
}

/// The derivative of entry `id` with respect to `c`, memoized per
/// (entry, character) pair for the lifetime of one match call.
fn derivative_with_cache(
    arena: &mut AstArena,
    id: AstId,
    c: char,
    memo: &mut HashMap<u128, usize>,
) -> (r: AstId)
    requires
        old(arena).wf(),
        id.0 < old(arena).nodes@.len(),
        dmemo_inv(old(memo)@, old(arena).nodes@),
    ensures
        grows(*old(arena), *final(arena)),
        r.0 < final(arena).nodes@.len(),
        lang_equiv(
            view_id(final(arena).nodes@, r.0 as int),
            spec_deriv(view_id(old(arena).nodes@, id.0 as int), c),
        ),
        dmemo_inv(final(memo)@, final(arena).nodes@),
{
    let k: u128 = (id.index() as u128) * 0x1_0000_0000 + (c as u32 as u128);
    proof {
        assert(k == ukey(id.0 as int, c));
    }
    if let Some(v) = memo.get(&k) {
        let vv = *v;
        proof {
            lemma_grows_refl(*arena);
            assert(memo@.contains_key(ukey(id.0 as int, c)));
        }
        return AstId(vv);
    }
    let ghost a0 = *arena;
    let r = derivative_id(arena, id, c);
    let ghost m0 = memo@;
    memo.insert(k, r.index());
    proof {
        let a1 = *arena;
        assert forall|id2: int, c2: char|
            0 <= id2 < 0x1_0000_0000_0000_0000 && #[trigger] memo@.contains_key(
                ukey(id2, c2),
            ) implies {
            &&& id2 < a1.nodes@.len()
            &&& (memo@[ukey(id2, c2)] as int) < a1.nodes@.len()
            &&& lang_equiv(
                view_id(a1.nodes@, memo@[ukey(id2, c2)] as int),
                spec_deriv(view_id(a1.nodes@, id2), c2),
            )
        } by {
            if ukey(id2, c2) == k {
                lemma_ukey_inj(id2, c2, id.0 as int, c);
                assert(memo@[ukey(id2, c2)] == r.0);
                assert(view_id(a1.nodes@, id2) == view_id(a0.nodes@, id2));
            } else {
                assert(m0.contains_key(ukey(id2, c2)));
                let val = m0[ukey(id2, c2)] as int;
                assert(memo@[ukey(id2, c2)] == m0[ukey(id2, c2)]);
                assert(id2 < a0.nodes@.len());
                assert(val < a0.nodes@.len());
                assert(view_id(a1.nodes@, val) == view_id(a0.nodes@, val));
                assert(view_id(a1.nodes@, id2) == view_id(a0.nodes@, id2));
            }
        }
    }
    r
}

/// Marks every entry reachable from `id` in `visited`.
fn size_dfs(arena: &AstArena, id: AstId, visited: &mut Vec<bool>) -> (u: ())
    requires
        arena.wf(),
        id.0 < arena.nodes@.len(),
        old(visited)@.len() == arena.nodes@.len(),
    ensures
        final(visited)@.len() == arena.nodes@.len(),
    decreases id.0,
{
    if !visited[id.index()] {
        visited.set(id.index(), true);
        proof {
            assert(kind_wf(arena.nodes@[id.0 as int], id.0 as int));
        }
        match arena.kind(id) {
            NodeKind::Plus(x) => {
                size_dfs(arena, x, visited);
            },
            NodeKind::Star(x) => {
                size_dfs(arena, x, visited);
            },
            NodeKind::Question(x) => {
                size_dfs(arena, x, visited);
            },
            NodeKind::Or(a, b) => {
                size_dfs(arena, a, visited);
                size_dfs(arena, b, visited);
            },
            NodeKind::Concat(a, b) => {
                size_dfs(arena, a, visited);
                size_dfs(arena, b, visited);
            },
            _ => {},
        }
    }
}

/// The number of distinct arena entries reachable from `root`: the live
/// size of the pattern that `root` denotes.
fn structural_size(arena: &AstArena, root: AstId) -> (r: usize)
    requires
        arena.wf(),
        root.0 < arena.nodes@.len(),
{
    let n = arena.len();
    let mut visited: Vec<bool> = Vec::new();
    let mut i: usize = 0;
    while i < n
        invariant
            i <= n,
            visited@.len() == i,
        decreases n - i,
    {
        visited.push(false);
        i = i + 1;
    }
    size_dfs(arena, root, &mut visited);
    let mut count: usize = 0;
    let mut j: usize = 0;
    while j < n
        invariant
            j <= n,
            count <= j,
            visited@.len() == n,
        decreases n - j,
    {
        if visited[j] {
            count = count + 1;
        }
        j = j + 1;
    }
    count
}

/// The derivative-based matching engine: the pattern lives in a hash-consed
/// arena and matching takes one simplified, memoized derivative per input
/// character. When a derivative grows past `max_ast_size` live nodes, the
/// call falls back to plain recursive derivatives over `canonical`.
pub struct Derivative {
    arena: AstArena,
    start: AstId,
    canonical: AstNode,
    max_ast_size: usize,
}

impl Derivative {
    /// The compiled pattern, in plain syntax-tree form. Its language is the
    /// language of the pattern the engine was built from.
    pub closed spec fn view(&self) -> AstNode {
        self.canonical
    }

    #[verifier::type_invariant]
    spec fn inv(&self) -> bool {
        &&& self.arena.wf()
        &&& self.start.0 < self.arena.nodes@.len()
        &&& self.canonical == view_id(self.arena.nodes@, self.start.0 as int)
    }

    /// Builds the engine: imports the tree into the arena, simplifying and
    /// sharing identical subtrees, and keeps the simplified export for the
    /// fallback path.
    pub fn new(ast: AstNode) -> (d: Derivative)
        ensures
            lang_equiv(d.view(), ast),
    {
        let mut arena = AstArena::new();
        let start = from_parser(&mut arena, &ast);
        let canonical = arena.export(start);
        Derivative { arena, start, canonical, max_ast_size: DEFAULT_MAX_AST_SIZE }
    }

    /// Whether the pattern matches the whole input.
    pub fn is_match(&self, input: &str) -> (r: bool)
        ensures
            r == matches_ast(self.view(), input@),
    {
        proof {
            use_type_invariant(self);
        }
        let chars = crate::lexer::chars_of(input);
        let mut arena = self.arena.duplicate();
        let mut state = self.start;
        let mut memo: HashMap<u128, usize> = HashMap::new();
        let n = chars.len();
        let mut i: usize = 0;
        proof {
            assert(chars@.skip(0) =~= chars@);
            assert(view_id(arena.nodes@, state.0 as int) == self.canonical);
        }
        while i < n
            invariant
                i <= n,
                n == chars@.len(),
                chars@ == input@,
                arena.wf(),
                state.0 < arena.nodes@.len(),
                dmemo_inv(memo@, arena.nodes@),
                matches_ast(view_id(arena.nodes@, state.0 as int), chars@.skip(i as int))
                    == matches_ast(self.canonical, chars@),
                self.max_ast_size == self.max_ast_size,
            decreases n - i,
        {
            let c = chars[i];
            let ghost pre_view = view_id(arena.nodes@, state.0 as int);
            let next = derivative_with_cache(&mut arena, state, c, &mut memo);
            proof {
                let rem = chars@.skip(i as int);
                assert(rem[0] == c);
                assert(rem.skip(1) =~= chars@.skip(i as int + 1));
                assert(matches_ast(pre_view, rem) == matches_ast(
                    spec_deriv(pre_view, c),
                    rem.skip(1),
                ));
                assert(matches_ast(view_id(arena.nodes@, next.0 as int), chars@.skip(i as int + 1))
                    == matches_ast(spec_deriv(pre_view, c), chars@.skip(i as int + 1)));
            }
            state = next;
            i = i + 1;
            if structural_size(&arena, state) > self.max_ast_size {
                return match_fallback(&self.canonical, &chars);
            }
        }
        proof {
            assert(chars@.skip(n as int) =~= Seq::<char>::empty());
        }
        contains_epsilon_id(&arena, state)
    }

    /// Whether the pattern matches the empty string, read off the compiled
    /// pattern without taking any derivative.
    pub fn is_empty_match(&self) -> (r: bool)
        ensures
            r == matches_ast(self.view(), Seq::<char>::empty()),
    {
        proof {
            use_type_invariant(self);
        }
        contains_epsilon_id(&self.arena, self.start)
    }
}

} // verus!
