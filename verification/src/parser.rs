use vstd::prelude::*;

verus! {

/// The abstract syntax of a pattern. `Empty` matches nothing, `Epsilon` the
/// empty string; `Concat` is binary, left-associated concatenation.
#[derive(Debug)]
pub enum AstNode {
    Char(char),
    Plus(Box<AstNode>),
    Star(Box<AstNode>),
    Question(Box<AstNode>),
    Or(Box<AstNode>, Box<AstNode>),
    Concat(Box<AstNode>, Box<AstNode>),
    Empty,
    Epsilon,
}

/// Structural equality on syntax trees.
pub fn ast_eq(a: &AstNode, b: &AstNode) -> (r: bool)
    ensures
        r == (a == b),
    decreases a,
{
    match (a, b) {
        (AstNode::Char(c1), AstNode::Char(c2)) => c1 == c2,
        (AstNode::Plus(x1), AstNode::Plus(x2)) => ast_eq(x1, x2),
        (AstNode::Star(x1), AstNode::Star(x2)) => ast_eq(x1, x2),
        (AstNode::Question(x1), AstNode::Question(x2)) => ast_eq(x1, x2),
        (AstNode::Or(l1, r1), AstNode::Or(l2, r2)) => ast_eq(l1, l2) && ast_eq(r1, r2),
        (AstNode::Concat(l1, r1), AstNode::Concat(l2, r2)) => ast_eq(l1, l2) && ast_eq(r1, r2),
        (AstNode::Empty, AstNode::Empty) => true,
        (AstNode::Epsilon, AstNode::Epsilon) => true,
        _ => false,
    }
}

impl PartialEq for AstNode {
    fn eq(&self, other: &Self) -> (r: bool) {
        ast_eq(self, other)
    }
}

impl vstd::std_specs::cmp::PartialEqSpecImpl for AstNode {
    open spec fn obeys_eq_spec() -> bool {
        true
    }

    open spec fn eq_spec(&self, other: &Self) -> bool {
        *self == *other
    }
}

impl Clone for AstNode {
    fn clone(&self) -> (r: Self)
        ensures
            r == *self,
    {
        clone_ast(self)
    }
}

/// A deep copy of a syntax tree.
pub fn clone_ast(a: &AstNode) -> (r: AstNode)
    ensures
        r == *a,
    decreases a,
{
    match a {
        AstNode::Char(c) => AstNode::Char(*c),
        AstNode::Plus(x) => AstNode::Plus(Box::new(clone_ast(x))),
        AstNode::Star(x) => AstNode::Star(Box::new(clone_ast(x))),
        AstNode::Question(x) => AstNode::Question(Box::new(clone_ast(x))),
        AstNode::Or(l, r) => AstNode::Or(Box::new(clone_ast(l)), Box::new(clone_ast(r))),
        AstNode::Concat(l, r) => AstNode::Concat(Box::new(clone_ast(l)), Box::new(clone_ast(r))),
        AstNode::Empty => AstNode::Empty,
        AstNode::Epsilon => AstNode::Epsilon,
    }
}

/// The parser never produces an `Empty` node: `Empty` arises only from
/// simplification inside the engines.
pub open spec fn no_empty(r: AstNode) -> bool
    decreases r,
{
    match r {
        AstNode::Empty => false,
        AstNode::Char(_) => true,
        AstNode::Epsilon => true,
        AstNode::Plus(x) => no_empty(*x),
        AstNode::Star(x) => no_empty(*x),
        AstNode::Question(x) => no_empty(*x),
        AstNode::Or(a, b) => no_empty(*a) && no_empty(*b),
        AstNode::Concat(a, b) => no_empty(*a) && no_empty(*b),
    }
}

/// What remains to be read: unread characters plus the one-token
/// lookahead. Every parsing step consumes from this measure.
pub open spec fn sp_rem(input: Seq<char>, pos: int, look: crate::lexer::Token) -> int {
    input.len() - pos + if look == crate::lexer::Token::Empty {
        0int
    } else {
        1int
    }
}

/// The grammar, as a function: expr ::= term ('|' expr)?. Each spec
/// function takes the scanner state (input, position, lookahead) and
/// yields the parsed tree with the state after it, or `None` on a syntax
/// error. Recursive calls are guarded by the measure; the guards are
/// always true, as the parser's contracts show.
pub open spec fn sp_expr(input: Seq<char>, pos: int, look: crate::lexer::Token) -> Option<
    (AstNode, int, crate::lexer::Token),
>
    decreases sp_rem(input, pos, look), 3int,
{
    let first = if look == crate::lexer::Token::RightParen {
        Some((AstNode::Epsilon, pos, look))
    } else {
        sp_term(input, pos, look)
    };
    match first {
        None => None,
        Some((ast, p1, l1)) => if l1 == crate::lexer::Token::UnionOperator {
            match crate::lexer::spec_scan_step(input, p1) {
                None => None,
                Some((l2, p2)) => if 0 <= sp_rem(input, p2, l2) < sp_rem(input, pos, look) {
                    match sp_expr(input, p2, l2) {
                        None => None,
                        Some((rast, p3, l3)) => Some(
                            (AstNode::Or(Box::new(ast), Box::new(rast)), p3, l3),
                        ),
                    }
                } else {
                    None
                },
            }
        } else {
            Some((ast, p1, l1))
        },
    }
}

/// term ::= factor* — an empty term is the epsilon pattern.
pub open spec fn sp_term(input: Seq<char>, pos: int, look: crate::lexer::Token) -> Option<
    (AstNode, int, crate::lexer::Token),
>
    decreases sp_rem(input, pos, look), 2int,
{
    if look == crate::lexer::Token::RightParen || look == crate::lexer::Token::UnionOperator
        || look == crate::lexer::Token::Empty {
        Some((AstNode::Epsilon, pos, look))
    } else {
        match sp_factor(input, pos, look) {
            None => None,
            Some((f, p1, l1)) => if 0 <= sp_rem(input, p1, l1) < sp_rem(input, pos, look) {
                sp_term_acc(input, p1, l1, f)
            } else {
                None
            },
        }
    }
}

/// The remaining factors of a term, folded onto `acc` left-associatively.
pub open spec fn sp_term_acc(
    input: Seq<char>,
    pos: int,
    look: crate::lexer::Token,
    acc: AstNode,
) -> Option<(AstNode, int, crate::lexer::Token)>
    decreases sp_rem(input, pos, look), 2int,
{
    if look == crate::lexer::Token::RightParen || look == crate::lexer::Token::UnionOperator
        || look == crate::lexer::Token::Empty {
        Some((acc, pos, look))
    } else {
        match sp_factor(input, pos, look) {
            None => None,
            Some((f, p1, l1)) => if 0 <= sp_rem(input, p1, l1) < sp_rem(input, pos, look) {
                sp_term_acc(input, p1, l1, AstNode::Concat(Box::new(acc), Box::new(f)))
            } else {
                None
            },
        }
    }
}

/// factor ::= atom ('+' | '*' | '?')?
pub open spec fn sp_factor(input: Seq<char>, pos: int, look: crate::lexer::Token) -> Option<
    (AstNode, int, crate::lexer::Token),
>
    decreases sp_rem(input, pos, look), 1int,
{
    match sp_atom(input, pos, look) {
        None => None,
        Some((a, p1, l1)) => match l1 {
            crate::lexer::Token::PlusOperator => match crate::lexer::spec_scan_step(input, p1) {
                None => None,
                Some((l2, p2)) => Some((AstNode::Plus(Box::new(a)), p2, l2)),
            },
            crate::lexer::Token::StarOperator => match crate::lexer::spec_scan_step(input, p1) {
                None => None,
                Some((l2, p2)) => Some((AstNode::Star(Box::new(a)), p2, l2)),
            },
            crate::lexer::Token::QuestionOperator => match crate::lexer::spec_scan_step(
                input,
                p1,
            ) {
                None => None,
                Some((l2, p2)) => Some((AstNode::Question(Box::new(a)), p2, l2)),
            },
            _ => Some((a, p1, l1)),
        },
    }
}

/// atom ::= literal | '(' expr ')'
pub open spec fn sp_atom(input: Seq<char>, pos: int, look: crate::lexer::Token) -> Option<
    (AstNode, int, crate::lexer::Token),
>
    decreases sp_rem(input, pos, look), 0int,
{
    match look {
        crate::lexer::Token::Character(c) => match crate::lexer::spec_scan_step(input, pos) {
            None => None,
            Some((l1, p1)) => Some((AstNode::Char(c), p1, l1)),
        },
        crate::lexer::Token::LeftParen => match crate::lexer::spec_scan_step(input, pos) {
            None => None,
            Some((l1, p1)) => if 0 <= sp_rem(input, p1, l1) < sp_rem(input, pos, look) {
                match sp_expr(input, p1, l1) {
                    None => None,
                    Some((a, p2, l2)) => if l2 == crate::lexer::Token::RightParen {
                        match crate::lexer::spec_scan_step(input, p2) {
                            None => None,
                            Some((l3, p3)) => Some((a, p3, l3)),
                        }
                    } else {
                        None
                    },
                }
            } else {
                None
            },
        },
        _ => None,
    }
}

/// What parsing a whole pattern yields: the scanner's first token, the
/// expression grammar, and the requirement that the input is fully
/// consumed. `None` is a syntax error.
pub open spec fn spec_parse(input: Seq<char>) -> Option<AstNode> {
    match crate::lexer::spec_scan_step(input, 0) {
        None => None,
        Some((look0, p0)) => match sp_expr(input, p0, look0) {
            None => None,
            Some((ast, p, l)) => if l == crate::lexer::Token::Empty {
                Some(ast)
            } else {
                None
            },
        },
    }
}

/// The recursive-descent parser for the pattern grammar: alternation of
/// terms, terms are concatenations of factors, a factor is an atom with an
/// optional postfix quantifier, an atom is a literal or a parenthesized
/// group. It reads one token of lookahead from the scanner it owns.
#[derive(Debug)]
pub struct Parser {
    lexer: crate::lexer::Lexer,
    looking: crate::lexer::Token,
}

impl Parser {
    pub closed spec fn wf(&self) -> bool {
        self.lexer.wf()
    }

    pub closed spec fn spec_input(&self) -> Seq<char> {
        self.lexer.input()
    }

    pub closed spec fn spec_pos(&self) -> int {
        self.lexer.position()
    }

    pub closed spec fn spec_looking(&self) -> crate::lexer::Token {
        self.looking
    }

    /// How much input is left: unread characters plus the lookahead token.
    /// Every parsing step consumes from this measure.
    pub closed spec fn remaining(&self) -> int {
        sp_rem(self.spec_input(), self.spec_pos(), self.spec_looking())
    }

    /// Builds a parser, reading the first lookahead token. Fails only on a
    /// pattern ending in a lone backslash.
    pub fn new(lexer: crate::lexer::Lexer) -> (r: Result<Parser, crate::error::Error>)
        requires
            lexer.wf(),
        ensures
            r matches Ok(p) ==> {
                &&& p.wf()
                &&& p.spec_input() == lexer.input()
                &&& crate::lexer::spec_scan_step(lexer.input(), lexer.position()) == Some(
                    (p.spec_looking(), p.spec_pos()),
                )
            },
            r is Err ==> crate::lexer::spec_scan_step(lexer.input(), lexer.position()) is None,
    {
        let mut lexer = lexer;
        let looking = match lexer.scan() {
            Ok(t) => t,
            Err(e) => {
                return Err(e);
            },
        };
        Ok(Parser { lexer, looking })
    }

    /// Advances past the expected token. On success the lookahead was
    /// `token`, the new state is one scan step on, and, unless the token
    /// was the end marker, the measure shrank.
    fn consume(&mut self, token: crate::lexer::Token) -> (r: Result<(), crate::error::Error>)
        requires
            old(self).wf(),
        ensures
            final(self).wf(),
            final(self).spec_input() == old(self).spec_input(),
            final(self).remaining() <= old(self).remaining(),
            r is Ok ==> {
                &&& old(self).spec_looking() == token
                &&& crate::lexer::spec_scan_step(old(self).spec_input(), old(self).spec_pos())
                    == Some((final(self).spec_looking(), final(self).spec_pos()))
            },
            r is Ok && token != crate::lexer::Token::Empty ==> final(self).remaining() < old(
                self,
            ).remaining(),
            r is Err ==> old(self).spec_looking() != token || crate::lexer::spec_scan_step(
                old(self).spec_input(),
                old(self).spec_pos(),
            ) is None,
    {
        if self.looking == token {
            let next = match self.lexer.scan() {
                Ok(t) => t,
                Err(e) => {
                    return Err(e);
                },
            };
            self.looking = next;
            Ok(())
        } else {
            Err(crate::error::Error::Expected(token))
        }
    }

    /// Parses a whole pattern; the input must be fully consumed. The
    /// result is exactly what the grammar says: `spec_parse` of the input,
    /// when this parser starts at the first token.
    pub fn parse(&mut self) -> (r: Result<AstNode, crate::error::Error>)
        requires
            old(self).wf(),
        ensures
            final(self).wf(),
            r matches Ok(ast) ==> no_empty(ast),
            r matches Ok(ast) ==> sp_expr(
                old(self).spec_input(),
                old(self).spec_pos(),
                old(self).spec_looking(),
            ) matches Some(t) && t.0 == ast && t.2 == crate::lexer::Token::Empty,
            r is Err ==> (sp_expr(
                old(self).spec_input(),
                old(self).spec_pos(),
                old(self).spec_looking(),
            ) is None || sp_expr(
                old(self).spec_input(),
                old(self).spec_pos(),
                old(self).spec_looking(),
            )->Some_0.2 != crate::lexer::Token::Empty),
    {
        let ast = match self.parse_expr() {
            Ok(a) => a,
            Err(e) => {
                return Err(e);
            },
        };
        if self.looking != crate::lexer::Token::Empty {
            return Err(crate::error::Error::UnexpectedChar(self.looking));
        }
        Ok(ast)
    }

    /// expr ::= term ('|' expr)? — an alternative may be empty.
    fn parse_expr(&mut self) -> (r: Result<AstNode, crate::error::Error>)
        requires
            old(self).wf(),
        ensures
            final(self).wf(),
            final(self).spec_input() == old(self).spec_input(),
            final(self).remaining() <= old(self).remaining(),
            r matches Ok(ast) ==> no_empty(ast),
            r matches Ok(ast) ==> sp_expr(
                old(self).spec_input(),
                old(self).spec_pos(),
                old(self).spec_looking(),
            ) == Some((ast, final(self).spec_pos(), final(self).spec_looking())),
            r is Err ==> sp_expr(
                old(self).spec_input(),
                old(self).spec_pos(),
                old(self).spec_looking(),
            ) is None,
        decreases old(self).remaining(), 3int,
    {
        let ghost inp = self.spec_input();
        let ghost pos0 = self.spec_pos();
        let ghost look0 = self.spec_looking();
        let mut ast = if self.looking == crate::lexer::Token::RightParen {
            AstNode::Epsilon
        } else {
            match self.parse_term() {
                Ok(a) => a,
                Err(e) => {
                    return Err(e);
                },
            }
        };
        if self.looking == crate::lexer::Token::UnionOperator {
            let ghost pos1 = self.spec_pos();
            match self.consume(crate::lexer::Token::UnionOperator) {
                Ok(()) => (),
                Err(e) => {
                    return Err(e);
                },
            }
            let right = match self.parse_expr() {
                Ok(a) => a,
                Err(e) => {
                    return Err(e);
                },
            };
            ast = AstNode::Or(Box::new(ast), Box::new(right));
        }
        Ok(ast)
    }

    /// term ::= factor* — implicit concatenation, left-associated; an empty
    /// term is the epsilon pattern.
    fn parse_term(&mut self) -> (r: Result<AstNode, crate::error::Error>)
        requires
            old(self).wf(),
        ensures
            final(self).wf(),
            final(self).spec_input() == old(self).spec_input(),
            final(self).remaining() <= old(self).remaining(),
            r matches Ok(ast) ==> no_empty(ast),
            r matches Ok(ast) ==> sp_term(
                old(self).spec_input(),
                old(self).spec_pos(),
                old(self).spec_looking(),
            ) == Some((ast, final(self).spec_pos(), final(self).spec_looking())),
            r is Err ==> sp_term(
                old(self).spec_input(),
                old(self).spec_pos(),
                old(self).spec_looking(),
            ) is None,
        decreases old(self).remaining(), 2int,
    {
        let ghost inp = self.spec_input();
        let ghost pos0 = self.spec_pos();
        let ghost look0 = self.spec_looking();
        if matches!(self.looking, crate::lexer::Token::RightParen) || matches!(
            self.looking,
            crate::lexer::Token::UnionOperator,
        ) || matches!(self.looking, crate::lexer::Token::Empty) {
            return Ok(AstNode::Epsilon);
        }
        let mut ast = match self.parse_factor() {
            Ok(a) => a,
            Err(e) => {
                proof {
                    assert(sp_term(inp, pos0, look0) is None);
                }
                return Err(e);
            },
        };
        let ghost entry_pos = self.spec_pos();
        let ghost entry_look = self.spec_looking();
        let ghost entry_ast = ast;
        proof {
            assert(0 <= sp_rem(inp, entry_pos, entry_look) < sp_rem(inp, pos0, look0));
            assert(sp_term(inp, pos0, look0) == sp_term_acc(inp, entry_pos, entry_look, ast));
        }
        while !(matches!(self.looking, crate::lexer::Token::RightParen) || matches!(
            self.looking,
            crate::lexer::Token::UnionOperator,
        ) || matches!(self.looking, crate::lexer::Token::Empty))
            invariant
                self.wf(),
                inp == old(self).spec_input(),
                pos0 == old(self).spec_pos(),
                look0 == old(self).spec_looking(),
                self.spec_input() == inp,
                self.remaining() < sp_rem(inp, pos0, look0),
                no_empty(ast),
                sp_term(inp, pos0, look0) == sp_term_acc(
                    inp,
                    self.spec_pos(),
                    self.spec_looking(),
                    ast,
                ),
            decreases self.remaining(),
        {
            let ghost cur_pos = self.spec_pos();
            let ghost cur_look = self.spec_looking();
            let ghost cur_ast = ast;
            let f = match self.parse_factor() {
                Ok(a) => a,
                Err(e) => {
                    proof {
                        assert(sp_term_acc(inp, cur_pos, cur_look, cur_ast) is None);
                    }
                    return Err(e);
                },
            };
            ast = AstNode::Concat(Box::new(ast), Box::new(f));
            proof {
                assert(0 <= sp_rem(inp, self.spec_pos(), self.spec_looking()) < sp_rem(
                    inp,
                    cur_pos,
                    cur_look,
                ));
                assert(sp_term_acc(inp, cur_pos, cur_look, cur_ast) == sp_term_acc(
                    inp,
                    self.spec_pos(),
                    self.spec_looking(),
                    ast,
                ));
            }
        }
        proof {
            assert(sp_term_acc(inp, self.spec_pos(), self.spec_looking(), ast) == Some(
                (ast, self.spec_pos(), self.spec_looking()),
            ));
        }
        Ok(ast)
    }

    /// factor ::= atom ('+' | '*' | '?')?
    fn parse_factor(&mut self) -> (r: Result<AstNode, crate::error::Error>)
        requires
            old(self).wf(),
        ensures
            final(self).wf(),
            final(self).spec_input() == old(self).spec_input(),
            final(self).remaining() <= old(self).remaining(),
            r is Ok ==> final(self).remaining() < old(self).remaining(),
            r matches Ok(ast) ==> no_empty(ast),
            r matches Ok(ast) ==> sp_factor(
                old(self).spec_input(),
                old(self).spec_pos(),
                old(self).spec_looking(),
            ) == Some((ast, final(self).spec_pos(), final(self).spec_looking())),
            r is Err ==> sp_factor(
                old(self).spec_input(),
                old(self).spec_pos(),
                old(self).spec_looking(),
            ) is None,
        decreases old(self).remaining(), 1int,
    {
        let mut ast = match self.parse_atom() {
            Ok(a) => a,
            Err(e) => {
                return Err(e);
            },
        };
        match self.looking {
            crate::lexer::Token::PlusOperator => {
                match self.consume(crate::lexer::Token::PlusOperator) {
                    Ok(()) => (),
                    Err(e) => {
                        return Err(e);
                    },
                }
                ast = AstNode::Plus(Box::new(ast));
            },
            crate::lexer::Token::StarOperator => {
                match self.consume(crate::lexer::Token::StarOperator) {
                    Ok(()) => (),
                    Err(e) => {
                        return Err(e);
                    },
                }
                ast = AstNode::Star(Box::new(ast));
            },
            crate::lexer::Token::QuestionOperator => {
                match self.consume(crate::lexer::Token::QuestionOperator) {
                    Ok(()) => (),
                    Err(e) => {
                        return Err(e);
                    },
                }
                ast = AstNode::Question(Box::new(ast));
            },
            _ => {},
        }
        Ok(ast)
    }

    /// atom ::= literal | '(' expr ')'
    fn parse_atom(&mut self) -> (r: Result<AstNode, crate::error::Error>)
        requires
            old(self).wf(),
        ensures
            final(self).wf(),
            final(self).spec_input() == old(self).spec_input(),
            final(self).remaining() <= old(self).remaining(),
            r is Ok ==> final(self).remaining() < old(self).remaining(),
            r matches Ok(ast) ==> no_empty(ast),
            r matches Ok(ast) ==> sp_atom(
                old(self).spec_input(),
                old(self).spec_pos(),
                old(self).spec_looking(),
            ) == Some((ast, final(self).spec_pos(), final(self).spec_looking())),
            r is Err ==> sp_atom(
                old(self).spec_input(),
                old(self).spec_pos(),
                old(self).spec_looking(),
            ) is None,
        decreases old(self).remaining(), 0int,
    {
        match self.looking {
            crate::lexer::Token::Character(c) => {
                match self.consume(crate::lexer::Token::Character(c)) {
                    Ok(()) => (),
                    Err(e) => {
                        return Err(e);
                    },
                }
                Ok(AstNode::Char(c))
            },
            crate::lexer::Token::LeftParen => {
                match self.consume(crate::lexer::Token::LeftParen) {
                    Ok(()) => (),
                    Err(e) => {
                        return Err(e);
                    },
                }
                let ast = match self.parse_expr() {
                    Ok(a) => a,
                    Err(e) => {
                        return Err(e);
                    },
                };
                match self.consume(crate::lexer::Token::RightParen) {
                    Ok(()) => (),
                    Err(e) => {
                        return Err(e);
                    },
                }
                Ok(ast)
            },
            _ => Err(crate::error::Error::UnexpectedChar(self.looking)),
        }
    }
}

} // verus!
