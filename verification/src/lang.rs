use vstd::prelude::*;

use crate::parser::AstNode;

verus! {

/// Whether `r` matches the empty string, read off the structure of `r`.
pub open spec fn nullable(r: AstNode) -> bool
    decreases r,
{
    match r {
        AstNode::Empty => false,
        AstNode::Epsilon => true,
        AstNode::Char(_) => false,
        AstNode::Plus(x) => nullable(*x),
        AstNode::Star(_) => true,
        AstNode::Question(_) => true,
        AstNode::Or(a, b) => nullable(*a) || nullable(*b),
        AstNode::Concat(a, b) => nullable(*a) && nullable(*b),
    }
}

/// `Epsilon` if `r` matches the empty string, `Empty` otherwise.
pub open spec fn spec_delta(r: AstNode) -> AstNode {
    if nullable(r) {
        AstNode::Epsilon
    } else {
        AstNode::Empty
    }
}

/// The Brzozowski derivative of `r` with respect to the character `c`: the
/// pattern matching exactly the strings `t` such that `r` matches `c`
/// followed by `t`. This is the raw structural derivative, without any
/// simplification.
pub open spec fn spec_deriv(r: AstNode, c: char) -> AstNode
    decreases r,
{
    match r {
        AstNode::Empty => AstNode::Empty,
        AstNode::Epsilon => AstNode::Empty,
        AstNode::Char(x) => if x == c {
            AstNode::Epsilon
        } else {
            AstNode::Empty
        },
        AstNode::Plus(x) => AstNode::Concat(
            Box::new(spec_deriv(*x, c)),
            Box::new(AstNode::Star(x)),
        ),
        AstNode::Star(x) => AstNode::Concat(
            Box::new(spec_deriv(*x, c)),
            Box::new(AstNode::Star(x)),
        ),
        AstNode::Question(x) => spec_deriv(*x, c),
        AstNode::Or(a, b) => AstNode::Or(
            Box::new(spec_deriv(*a, c)),
            Box::new(spec_deriv(*b, c)),
        ),
        AstNode::Concat(a, b) => AstNode::Or(
            Box::new(AstNode::Concat(Box::new(spec_deriv(*a, c)), b)),
            Box::new(AstNode::Concat(Box::new(spec_delta(*a)), Box::new(spec_deriv(*b, c)))),
        ),
    }
}

/// The language of a pattern: `r` matches the whole string `s`. Matching a
/// string consumes its characters one by one through the derivative; the
/// empty string is matched exactly by the nullable patterns. This is the
/// reference semantics that the engines are held to.
pub open spec fn matches_ast(r: AstNode, s: Seq<char>) -> bool
    decreases s.len(),
{
    if s.len() == 0 {
        nullable(r)
    } else {
        matches_ast(spec_deriv(r, s[0]), s.skip(1))
    }
}

/// `Empty` matches nothing.
pub proof fn lemma_empty(s: Seq<char>)
    ensures
        !matches_ast(AstNode::Empty, s),
    decreases s.len(),
{
    if s.len() > 0 {
        lemma_empty(s.skip(1));
    }
}

/// `Epsilon` matches exactly the empty string.
pub proof fn lemma_epsilon(s: Seq<char>)
    ensures
        matches_ast(AstNode::Epsilon, s) == (s.len() == 0),
{
    if s.len() > 0 {
        lemma_empty(s.skip(1));
    }
}

/// A single-character pattern matches exactly that one-character string.
pub proof fn lemma_char(c: char, s: Seq<char>)
    ensures
        matches_ast(AstNode::Char(c), s) == (s =~= seq![c]),
{
    if s.len() > 0 {
        if s[0] == c {
            lemma_epsilon(s.skip(1));
        } else {
            lemma_empty(s.skip(1));
        }
    }
}

/// Alternation is union of languages.
pub proof fn lemma_or(a: AstNode, b: AstNode, s: Seq<char>)
    ensures
        matches_ast(AstNode::Or(Box::new(a), Box::new(b)), s) == (matches_ast(a, s)
            || matches_ast(b, s)),
    decreases s.len(),
{
    if s.len() > 0 {
        lemma_or(spec_deriv(a, s[0]), spec_deriv(b, s[0]), s.skip(1));
    }
}

/// `Question(x)` matches the empty string and whatever `x` matches.
pub proof fn lemma_question(x: AstNode, s: Seq<char>)
    ensures
        matches_ast(AstNode::Question(Box::new(x)), s) == (s.len() == 0 || matches_ast(x, s)),
{
}

/// A concatenation with `Empty` on the left matches nothing.
pub proof fn lemma_concat_empty_l(x: AstNode, s: Seq<char>)
    ensures
        !matches_ast(AstNode::Concat(Box::new(AstNode::Empty), Box::new(x)), s),
    decreases s.len(),
{
    if s.len() > 0 {
        let c = s[0];
        let t = s.skip(1);
        assert(spec_deriv(AstNode::Empty, c) == AstNode::Empty);
        assert(spec_delta(AstNode::Empty) == AstNode::Empty);
        lemma_or(
            AstNode::Concat(Box::new(AstNode::Empty), Box::new(x)),
            AstNode::Concat(Box::new(AstNode::Empty), Box::new(spec_deriv(x, c))),
            t,
        );
        lemma_concat_empty_l(x, t);
        lemma_concat_empty_l(spec_deriv(x, c), t);
    }
}

/// A concatenation with `Empty` on the right matches nothing.
pub proof fn lemma_concat_empty_r(x: AstNode, s: Seq<char>)
    ensures
        !matches_ast(AstNode::Concat(Box::new(x), Box::new(AstNode::Empty)), s),
    decreases s.len(),
{
    assert(!nullable(AstNode::Empty));
    if s.len() > 0 {
        let c = s[0];
        let t = s.skip(1);
        assert(spec_deriv(AstNode::Empty, c) == AstNode::Empty);
        lemma_or(
            AstNode::Concat(Box::new(spec_deriv(x, c)), Box::new(AstNode::Empty)),
            AstNode::Concat(Box::new(spec_delta(x)), Box::new(AstNode::Empty)),
            t,
        );
        lemma_concat_empty_r(spec_deriv(x, c), t);
        lemma_concat_empty_r(spec_delta(x), t);
    }
}

/// `Epsilon` is a left identity of concatenation.
pub proof fn lemma_concat_epsilon_l(x: AstNode, s: Seq<char>)
    ensures
        matches_ast(AstNode::Concat(Box::new(AstNode::Epsilon), Box::new(x)), s) == matches_ast(
            x,
            s,
        ),
    decreases s.len(),
{
    if s.len() > 0 {
        let c = s[0];
        let t = s.skip(1);
        assert(spec_deriv(AstNode::Epsilon, c) == AstNode::Empty);
        assert(spec_delta(AstNode::Epsilon) == AstNode::Epsilon);
        lemma_or(
            AstNode::Concat(Box::new(AstNode::Empty), Box::new(x)),
            AstNode::Concat(Box::new(AstNode::Epsilon), Box::new(spec_deriv(x, c))),
            t,
        );
        lemma_concat_empty_l(x, t);
        lemma_concat_epsilon_l(spec_deriv(x, c), t);
    }
}

/// `Epsilon` is a right identity of concatenation.
pub proof fn lemma_concat_epsilon_r(x: AstNode, s: Seq<char>)
    ensures
        matches_ast(AstNode::Concat(Box::new(x), Box::new(AstNode::Epsilon)), s) == matches_ast(
            x,
            s,
        ),
    decreases s.len(),
{
    assert(nullable(AstNode::Epsilon));
    if s.len() > 0 {
        let c = s[0];
        let t = s.skip(1);
        assert(spec_deriv(AstNode::Epsilon, c) == AstNode::Empty);
        lemma_or(
            AstNode::Concat(Box::new(spec_deriv(x, c)), Box::new(AstNode::Epsilon)),
            AstNode::Concat(Box::new(spec_delta(x)), Box::new(AstNode::Empty)),
            t,
        );
        lemma_concat_epsilon_r(spec_deriv(x, c), t);
        lemma_concat_empty_r(spec_delta(x), t);
    }
}

/// The star of a pattern that matches nothing, or only the empty string,
/// matches exactly the empty string.
pub proof fn lemma_star_trivial(x: AstNode, s: Seq<char>)
    requires
        x == AstNode::Empty || x == AstNode::Epsilon,
    ensures
        matches_ast(AstNode::Star(Box::new(x)), s) == (s.len() == 0),
    decreases s.len(),
{
    if s.len() > 0 {
        let t = s.skip(1);
        assert(spec_deriv(x, s[0]) == AstNode::Empty);
        lemma_concat_empty_l(AstNode::Star(Box::new(x)), t);
    }
}

/// `Plus(Empty)` matches nothing.
pub proof fn lemma_plus_empty(s: Seq<char>)
    ensures
        !matches_ast(AstNode::Plus(Box::new(AstNode::Empty)), s),
{
    assert(!nullable(AstNode::Empty));
    if s.len() > 0 {
        assert(spec_deriv(AstNode::Empty, s[0]) == AstNode::Empty);
        lemma_concat_empty_l(AstNode::Star(Box::new(AstNode::Empty)), s.skip(1));
    }
}

/// `Question(Empty)` matches exactly the empty string.
pub proof fn lemma_question_empty(s: Seq<char>)
    ensures
        matches_ast(AstNode::Question(Box::new(AstNode::Empty)), s) == (s.len() == 0),
{
    lemma_question(AstNode::Empty, s);
    lemma_empty(s);
}

/// `Star(x)` always matches the empty string.
pub proof fn lemma_star_matches_empty(x: AstNode)
    ensures
        matches_ast(AstNode::Star(Box::new(x)), Seq::<char>::empty()),
{
}

/// `Question(x)` always matches the empty string.
pub proof fn lemma_question_matches_empty(x: AstNode)
    ensures
        matches_ast(AstNode::Question(Box::new(x)), Seq::<char>::empty()),
{
}

/// `Plus(x)` matches the empty string exactly when `x` does.
pub proof fn lemma_plus_matches_empty(x: AstNode)
    ensures
        matches_ast(AstNode::Plus(Box::new(x)), Seq::<char>::empty()) == matches_ast(
            x,
            Seq::<char>::empty(),
        ),
{
}

/// Two patterns have the same language on all strings of length at most `n`.
pub open spec fn lang_equiv_upto(a: AstNode, b: AstNode, n: nat) -> bool {
    forall|s: Seq<char>|
        #![trigger matches_ast(a, s)]
        #![trigger matches_ast(b, s)]
        s.len() <= n ==> matches_ast(a, s) == matches_ast(b, s)
}

/// Two patterns have the same language.
pub open spec fn lang_equiv(a: AstNode, b: AstNode) -> bool {
    forall|s: Seq<char>|
        #![trigger matches_ast(a, s)]
        #![trigger matches_ast(b, s)]
        matches_ast(a, s) == matches_ast(b, s)
}

/// Language equivalence up to `n` carries over to the derivatives, one
/// character shorter.
proof fn lemma_deriv_equiv_upto(a: AstNode, a2: AstNode, c: char, n: nat)
    requires
        lang_equiv_upto(a, a2, n + 1),
    ensures
        lang_equiv_upto(spec_deriv(a, c), spec_deriv(a2, c), n),
{
    assert forall|u: Seq<char>| u.len() <= n implies matches_ast(spec_deriv(a, c), u)
        == matches_ast(spec_deriv(a2, c), u) by {
        let cu = seq![c] + u;
        assert(cu.len() == u.len() + 1);
        assert(cu[0] == c);
        assert(cu.skip(1) =~= u);
        assert(matches_ast(a, cu) == matches_ast(spec_deriv(a, c), u));
        assert(matches_ast(a2, cu) == matches_ast(spec_deriv(a2, c), u));
        assert(matches_ast(a, cu) == matches_ast(a2, cu));
    }
}

/// Patterns equivalent up to `n` agree on nullability.
proof fn lemma_equiv_upto_nullable(a: AstNode, a2: AstNode, n: nat)
    requires
        lang_equiv_upto(a, a2, n),
    ensures
        nullable(a) == nullable(a2),
        spec_delta(a) == spec_delta(a2),
{
    let e = Seq::<char>::empty();
    assert(matches_ast(a, e) == matches_ast(a2, e));
    assert(matches_ast(a, e) == nullable(a));
    assert(matches_ast(a2, e) == nullable(a2));
}

/// Concatenation respects language equivalence (bounded form).
pub proof fn lemma_concat_cong_upto(a: AstNode, a2: AstNode, b: AstNode, b2: AstNode, n: nat)
    requires
        lang_equiv_upto(a, a2, n),
        lang_equiv_upto(b, b2, n),
    ensures
        lang_equiv_upto(
            AstNode::Concat(Box::new(a), Box::new(b)),
            AstNode::Concat(Box::new(a2), Box::new(b2)),
            n,
        ),
    decreases n,
{
    let ca = AstNode::Concat(Box::new(a), Box::new(b));
    let cb = AstNode::Concat(Box::new(a2), Box::new(b2));
    assert forall|s: Seq<char>| s.len() <= n implies matches_ast(ca, s) == matches_ast(cb, s) by {
        if s.len() == 0 {
            lemma_equiv_upto_nullable(a, a2, n);
            lemma_equiv_upto_nullable(b, b2, n);
            assert(matches_ast(ca, s) == nullable(ca));
            assert(matches_ast(cb, s) == nullable(cb));
            assert(nullable(ca) == (nullable(a) && nullable(b)));
            assert(nullable(cb) == (nullable(a2) && nullable(b2)));
        } else {
            let c = s[0];
            let t = s.skip(1);
            let m = (n - 1) as nat;
            let da = spec_deriv(a, c);
            let da2 = spec_deriv(a2, c);
            let db = spec_deriv(b, c);
            let db2 = spec_deriv(b2, c);
            lemma_deriv_equiv_upto(a, a2, c, m);
            lemma_deriv_equiv_upto(b, b2, c, m);
            lemma_equiv_upto_nullable(a, a2, n);
            let dl = spec_delta(a);
            assert(lang_equiv_upto(b, b2, m));
            assert(lang_equiv_upto(dl, dl, m));
            lemma_concat_cong_upto(da, da2, b, b2, m);
            lemma_concat_cong_upto(dl, dl, db, db2, m);
            assert(spec_deriv(ca, c) == AstNode::Or(
                Box::new(AstNode::Concat(Box::new(da), Box::new(b))),
                Box::new(AstNode::Concat(Box::new(dl), Box::new(db))),
            ));
            assert(spec_deriv(cb, c) == AstNode::Or(
                Box::new(AstNode::Concat(Box::new(da2), Box::new(b2))),
                Box::new(AstNode::Concat(Box::new(dl), Box::new(db2))),
            ));
            lemma_or(
                AstNode::Concat(Box::new(da), Box::new(b)),
                AstNode::Concat(Box::new(dl), Box::new(db)),
                t,
            );
            lemma_or(
                AstNode::Concat(Box::new(da2), Box::new(b2)),
                AstNode::Concat(Box::new(dl), Box::new(db2)),
                t,
            );
            assert(t.len() <= m);
            assert(matches_ast(AstNode::Concat(Box::new(da), Box::new(b)), t) == matches_ast(
                AstNode::Concat(Box::new(da2), Box::new(b2)),
                t,
            ));
            assert(matches_ast(AstNode::Concat(Box::new(dl), Box::new(db)), t) == matches_ast(
                AstNode::Concat(Box::new(dl), Box::new(db2)),
                t,
            ));
            assert(matches_ast(ca, s) == matches_ast(spec_deriv(ca, c), t));
            assert(matches_ast(cb, s) == matches_ast(spec_deriv(cb, c), t));
        }
    }
}

/// Star respects language equivalence (bounded form).
pub proof fn lemma_star_cong_upto(x: AstNode, y: AstNode, n: nat)
    requires
        lang_equiv_upto(x, y, n),
    ensures
        lang_equiv_upto(AstNode::Star(Box::new(x)), AstNode::Star(Box::new(y)), n),
    decreases n,
{
    let sx = AstNode::Star(Box::new(x));
    let sy = AstNode::Star(Box::new(y));
    assert forall|s: Seq<char>| s.len() <= n implies matches_ast(sx, s) == matches_ast(sy, s) by {
        if s.len() == 0 {
            assert(matches_ast(sx, s) == nullable(sx));
            assert(matches_ast(sy, s) == nullable(sy));
        } else {
            let c = s[0];
            let t = s.skip(1);
            let m = (n - 1) as nat;
            let dx = spec_deriv(x, c);
            let dy = spec_deriv(y, c);
            lemma_deriv_equiv_upto(x, y, c, m);
            assert(lang_equiv_upto(x, y, m));
            lemma_star_cong_upto(x, y, m);
            lemma_concat_cong_upto(dx, dy, sx, sy, m);
            assert(spec_deriv(sx, c) == AstNode::Concat(Box::new(dx), Box::new(sx)));
            assert(spec_deriv(sy, c) == AstNode::Concat(Box::new(dy), Box::new(sy)));
            assert(t.len() <= m);
            assert(matches_ast(AstNode::Concat(Box::new(dx), Box::new(sx)), t) == matches_ast(
                AstNode::Concat(Box::new(dy), Box::new(sy)),
                t,
            ));
            assert(matches_ast(sx, s) == matches_ast(spec_deriv(sx, c), t));
            assert(matches_ast(sy, s) == matches_ast(spec_deriv(sy, c), t));
        }
    }
}

/// Concatenation respects language equivalence.
pub proof fn lemma_concat_cong(a: AstNode, a2: AstNode, b: AstNode, b2: AstNode)
    requires
        lang_equiv(a, a2),
        lang_equiv(b, b2),
    ensures
        lang_equiv(
            AstNode::Concat(Box::new(a), Box::new(b)),
            AstNode::Concat(Box::new(a2), Box::new(b2)),
        ),
{
    let ca = AstNode::Concat(Box::new(a), Box::new(b));
    let cb = AstNode::Concat(Box::new(a2), Box::new(b2));
    assert forall|s: Seq<char>| matches_ast(ca, s) == matches_ast(cb, s) by {
        let n = s.len();
        assert(lang_equiv_upto(a, a2, n));
        assert(lang_equiv_upto(b, b2, n));
        lemma_concat_cong_upto(a, a2, b, b2, n);
        assert(matches_ast(ca, s) == matches_ast(cb, s));
    }
}

/// Star respects language equivalence.
pub proof fn lemma_star_cong(x: AstNode, y: AstNode)
    requires
        lang_equiv(x, y),
    ensures
        lang_equiv(AstNode::Star(Box::new(x)), AstNode::Star(Box::new(y))),
{
    let sx = AstNode::Star(Box::new(x));
    let sy = AstNode::Star(Box::new(y));
    assert forall|s: Seq<char>| matches_ast(sx, s) == matches_ast(sy, s) by {
        let n = s.len();
        assert(lang_equiv_upto(x, y, n));
        lemma_star_cong_upto(x, y, n);
        assert(matches_ast(sx, s) == matches_ast(sy, s));
    }
}

/// Alternation respects language equivalence.
pub proof fn lemma_or_cong(a: AstNode, a2: AstNode, b: AstNode, b2: AstNode)
    requires
        lang_equiv(a, a2),
        lang_equiv(b, b2),
    ensures
        lang_equiv(
            AstNode::Or(Box::new(a), Box::new(b)),
            AstNode::Or(Box::new(a2), Box::new(b2)),
        ),
{
    let oa = AstNode::Or(Box::new(a), Box::new(b));
    let ob = AstNode::Or(Box::new(a2), Box::new(b2));
    assert forall|s: Seq<char>| matches_ast(oa, s) == matches_ast(ob, s) by {
        lemma_or(a, b, s);
        lemma_or(a2, b2, s);
        assert(matches_ast(a, s) == matches_ast(a2, s));
        assert(matches_ast(b, s) == matches_ast(b2, s));
    }
}

/// `Plus(x)` has the same language as `x` concatenated with `Star(x)`.
pub proof fn lemma_plus_is_concat_star(x: AstNode, s: Seq<char>)
    ensures
        matches_ast(AstNode::Plus(Box::new(x)), s) == matches_ast(
            AstNode::Concat(Box::new(x), Box::new(AstNode::Star(Box::new(x)))),
            s,
        ),
{
    let p = AstNode::Plus(Box::new(x));
    let cs = AstNode::Concat(Box::new(x), Box::new(AstNode::Star(Box::new(x))));
    if s.len() == 0 {
        assert(matches_ast(p, s) == nullable(p));
        assert(matches_ast(cs, s) == nullable(cs));
        assert(nullable(AstNode::Star(Box::new(x))));
    } else {
        let c = s[0];
        let t = s.skip(1);
        let dx = spec_deriv(x, c);
        let sx = AstNode::Star(Box::new(x));
        assert(spec_deriv(p, c) == AstNode::Concat(Box::new(dx), Box::new(sx)));
        assert(spec_deriv(cs, c) == AstNode::Or(
            Box::new(AstNode::Concat(Box::new(dx), Box::new(sx))),
            Box::new(AstNode::Concat(Box::new(spec_delta(x)), Box::new(spec_deriv(sx, c)))),
        ));
        lemma_or(
            AstNode::Concat(Box::new(dx), Box::new(sx)),
            AstNode::Concat(Box::new(spec_delta(x)), Box::new(spec_deriv(sx, c))),
            t,
        );
        if nullable(x) {
            assert(spec_delta(x) == AstNode::Epsilon);
            assert(spec_deriv(sx, c) == AstNode::Concat(Box::new(dx), Box::new(sx)));
            lemma_concat_epsilon_l(AstNode::Concat(Box::new(dx), Box::new(sx)), t);
        } else {
            assert(spec_delta(x) == AstNode::Empty);
            lemma_concat_empty_l(spec_deriv(sx, c), t);
        }
    }
}

/// `Plus` respects language equivalence.
pub proof fn lemma_plus_cong(x: AstNode, y: AstNode)
    requires
        lang_equiv(x, y),
    ensures
        lang_equiv(AstNode::Plus(Box::new(x)), AstNode::Plus(Box::new(y))),
{
    let px = AstNode::Plus(Box::new(x));
    let py = AstNode::Plus(Box::new(y));
    lemma_star_cong(x, y);
    lemma_concat_cong(x, y, AstNode::Star(Box::new(x)), AstNode::Star(Box::new(y)));
    assert forall|s: Seq<char>| matches_ast(px, s) == matches_ast(py, s) by {
        lemma_plus_is_concat_star(x, s);
        lemma_plus_is_concat_star(y, s);
        assert(matches_ast(
            AstNode::Concat(Box::new(x), Box::new(AstNode::Star(Box::new(x)))),
            s,
        ) == matches_ast(
            AstNode::Concat(Box::new(y), Box::new(AstNode::Star(Box::new(y)))),
            s,
        ));
    }
}

/// `Question` respects language equivalence.
pub proof fn lemma_question_cong(x: AstNode, y: AstNode)
    requires
        lang_equiv(x, y),
    ensures
        lang_equiv(AstNode::Question(Box::new(x)), AstNode::Question(Box::new(y))),
{
    let qx = AstNode::Question(Box::new(x));
    let qy = AstNode::Question(Box::new(y));
    assert forall|s: Seq<char>| matches_ast(qx, s) == matches_ast(qy, s) by {
        lemma_question(x, s);
        lemma_question(y, s);
        assert(matches_ast(x, s) == matches_ast(y, s));
    }
}

/// Language equivalence is reflexive.
pub proof fn lemma_lang_equiv_refl(a: AstNode)
    ensures
        lang_equiv(a, a),
{
}

/// Language equivalence is symmetric.
pub proof fn lemma_lang_equiv_sym(a: AstNode, b: AstNode)
    requires
        lang_equiv(a, b),
    ensures
        lang_equiv(b, a),
{
    assert forall|s: Seq<char>| matches_ast(b, s) == matches_ast(a, s) by {
        assert(matches_ast(a, s) == matches_ast(b, s));
    }
}

/// Language equivalence is transitive.
pub proof fn lemma_lang_equiv_trans(a: AstNode, b: AstNode, c: AstNode)
    requires
        lang_equiv(a, b),
        lang_equiv(b, c),
    ensures
        lang_equiv(a, c),
{
    assert forall|s: Seq<char>| matches_ast(a, s) == matches_ast(c, s) by {
        assert(matches_ast(a, s) == matches_ast(b, s));
        assert(matches_ast(b, s) == matches_ast(c, s));
    }
}

/// Concatenation means splitting: the concatenation matches `s` exactly
/// when `s` splits into a prefix matched by the left operand and a suffix
/// matched by the right one.
pub proof fn lemma_concat_split(a: AstNode, b: AstNode, s: Seq<char>)
    ensures
        matches_ast(AstNode::Concat(Box::new(a), Box::new(b)), s) == (exists|i: int|
            0 <= i <= s.len() && (#[trigger] matches_ast(a, s.take(i))) && matches_ast(
                b,
                s.skip(i),
            )),
    decreases s.len(),
{
    let cn = AstNode::Concat(Box::new(a), Box::new(b));
    if s.len() == 0 {
        assert(s.take(0) =~= s);
        assert(s.skip(0) =~= s);
        if nullable(a) && nullable(b) {
            assert(matches_ast(a, s.take(0)) && matches_ast(b, s.skip(0)));
        }
        if exists|i: int|
            0 <= i <= s.len() && (#[trigger] matches_ast(a, s.take(i))) && matches_ast(
                b,
                s.skip(i),
            ) {
            let i = choose|i: int|
                0 <= i <= s.len() && (#[trigger] matches_ast(a, s.take(i))) && matches_ast(
                    b,
                    s.skip(i),
                );
            assert(i == 0);
        }
    } else {
        let c = s[0];
        let t = s.skip(1);
        let da = spec_deriv(a, c);
        let db = spec_deriv(b, c);
        let dl = spec_delta(a);
        assert(spec_deriv(cn, c) == AstNode::Or(
            Box::new(AstNode::Concat(Box::new(da), Box::new(b))),
            Box::new(AstNode::Concat(Box::new(dl), Box::new(db))),
        ));
        lemma_or(
            AstNode::Concat(Box::new(da), Box::new(b)),
            AstNode::Concat(Box::new(dl), Box::new(db)),
            t,
        );
        lemma_concat_split(da, b, t);
        if nullable(a) {
            lemma_concat_epsilon_l(db, t);
        } else {
            lemma_concat_empty_l(db, t);
        }
        if matches_ast(cn, s) {
            if matches_ast(AstNode::Concat(Box::new(da), Box::new(b)), t) {
                let j = choose|j: int|
                    0 <= j <= t.len() && (#[trigger] matches_ast(da, t.take(j))) && matches_ast(
                        b,
                        t.skip(j),
                    );
                let i = j + 1;
                assert(s.take(i).len() > 0);
                assert(s.take(i)[0] == c);
                assert(s.take(i).skip(1) =~= t.take(j));
                assert(matches_ast(a, s.take(i)) == matches_ast(da, t.take(j)));
                assert(s.skip(i) =~= t.skip(j));
                assert(matches_ast(a, s.take(i)) && matches_ast(b, s.skip(i)));
            } else {
                assert(nullable(a) && matches_ast(db, t));
                assert(matches_ast(b, s) == matches_ast(db, t));
                assert(s.take(0) =~= Seq::<char>::empty());
                assert(s.skip(0) =~= s);
                assert(matches_ast(a, s.take(0)) && matches_ast(b, s.skip(0)));
            }
        }
        if exists|i: int|
            0 <= i <= s.len() && (#[trigger] matches_ast(a, s.take(i))) && matches_ast(
                b,
                s.skip(i),
            ) {
            let i = choose|i: int|
                0 <= i <= s.len() && (#[trigger] matches_ast(a, s.take(i))) && matches_ast(
                    b,
                    s.skip(i),
                );
            if i == 0 {
                assert(s.take(0) =~= Seq::<char>::empty());
                assert(s.skip(0) =~= s);
                assert(nullable(a));
                assert(matches_ast(b, s) == matches_ast(db, t));
                assert(matches_ast(AstNode::Concat(Box::new(dl), Box::new(db)), t));
            } else {
                let j = i - 1;
                assert(s.take(i).len() > 0);
                assert(s.take(i)[0] == c);
                assert(s.take(i).skip(1) =~= t.take(j));
                assert(matches_ast(da, t.take(j)) == matches_ast(a, s.take(i)));
                assert(s.skip(i) =~= t.skip(j));
                assert(matches_ast(da, t.take(j)) && matches_ast(b, t.skip(j)));
                assert(matches_ast(AstNode::Concat(Box::new(da), Box::new(b)), t));
            }
            assert(matches_ast(cn, s));
        }
    }
}

/// Star means iteration: on a nonempty string, the star matches exactly
/// when a nonempty prefix is matched by the body and the star matches the
/// rest.
pub proof fn lemma_star_unroll(x: AstNode, s: Seq<char>)
    ensures
        matches_ast(AstNode::Star(Box::new(x)), s) == (s.len() == 0 || exists|i: int|
            1 <= i <= s.len() && (#[trigger] matches_ast(x, s.take(i))) && matches_ast(
                AstNode::Star(Box::new(x)),
                s.skip(i),
            )),
{
    let sx = AstNode::Star(Box::new(x));
    if s.len() > 0 {
        let c = s[0];
        let t = s.skip(1);
        let dx = spec_deriv(x, c);
        assert(spec_deriv(sx, c) == AstNode::Concat(Box::new(dx), Box::new(sx)));
        lemma_concat_split(dx, sx, t);
        if matches_ast(sx, s) {
            let j = choose|j: int|
                0 <= j <= t.len() && (#[trigger] matches_ast(dx, t.take(j))) && matches_ast(
                    sx,
                    t.skip(j),
                );
            let i = j + 1;
            assert(s.take(i).len() > 0);
            assert(s.take(i)[0] == c);
            assert(s.take(i).skip(1) =~= t.take(j));
            assert(matches_ast(x, s.take(i)) == matches_ast(dx, t.take(j)));
            assert(s.skip(i) =~= t.skip(j));
            assert(matches_ast(x, s.take(i)) && matches_ast(sx, s.skip(i)));
        }
        if exists|i: int|
            1 <= i <= s.len() && (#[trigger] matches_ast(x, s.take(i))) && matches_ast(
                sx,
                s.skip(i),
            ) {
            let i = choose|i: int|
                1 <= i <= s.len() && (#[trigger] matches_ast(x, s.take(i))) && matches_ast(
                    sx,
                    s.skip(i),
                );
            let j = i - 1;
            assert(s.take(i).len() > 0);
            assert(s.take(i)[0] == c);
            assert(s.take(i).skip(1) =~= t.take(j));
            assert(matches_ast(dx, t.take(j)) == matches_ast(x, s.take(i)));
            assert(s.skip(i) =~= t.skip(j));
            assert(matches_ast(dx, t.take(j)) && matches_ast(sx, t.skip(j)));
            assert(matches_ast(AstNode::Concat(Box::new(dx), Box::new(sx)), t));
            assert(matches_ast(sx, s));
        }
    }
}

/// Plus means one pass of the body followed by its star.
pub proof fn lemma_plus_split(x: AstNode, s: Seq<char>)
    ensures
        matches_ast(AstNode::Plus(Box::new(x)), s) == (exists|i: int|
            0 <= i <= s.len() && (#[trigger] matches_ast(x, s.take(i))) && matches_ast(
                AstNode::Star(Box::new(x)),
                s.skip(i),
            )),
{
    lemma_plus_is_concat_star(x, s);
    lemma_concat_split(x, AstNode::Star(Box::new(x)), s);
}

/// A string matched by the body, followed by one matched by the star,
/// is matched by the star.
pub proof fn lemma_star_absorb(x: AstNode, w: Seq<char>, v: Seq<char>)
    requires
        matches_ast(x, w),
        matches_ast(AstNode::Star(Box::new(x)), v),
    ensures
        matches_ast(AstNode::Star(Box::new(x)), w + v),
{
    let sx = AstNode::Star(Box::new(x));
    let u = w + v;
    if w.len() == 0 {
        assert(u =~= v);
    } else {
        lemma_star_unroll(x, u);
        let j = w.len() as int;
        assert(u.take(j) =~= w);
        assert(u.skip(j) =~= v);
        assert(matches_ast(x, u.take(j)));
    }
}

/// A string matched by the body, followed by one matched by the plus,
/// is matched by the plus.
pub proof fn lemma_plus_extend(x: AstNode, w: Seq<char>, v: Seq<char>)
    requires
        matches_ast(x, w),
        matches_ast(AstNode::Plus(Box::new(x)), v),
    ensures
        matches_ast(AstNode::Plus(Box::new(x)), w + v),
{
    let sx = AstNode::Star(Box::new(x));
    let u = w + v;
    lemma_plus_split(x, v);
    let j = choose|j: int|
        0 <= j <= v.len() && (#[trigger] matches_ast(x, v.take(j))) && matches_ast(sx, v.skip(j));
    lemma_star_absorb(x, v.take(j), v.skip(j));
    assert(v.take(j) + v.skip(j) =~= v);
    assert(matches_ast(sx, v));
    lemma_plus_split(x, u);
    let k = w.len() as int;
    assert(u.take(k) =~= w);
    assert(u.skip(k) =~= v);
    assert(matches_ast(x, u.take(k)));
}

} // verus!
