use vstd::prelude::*;

verus! {

/// One token of the pattern grammar: a literal character (possibly produced
/// by a backslash escape), one of the meta characters, or the end marker.
#[derive(Clone, Copy, Debug, PartialEq, Eq, Structural)]
pub enum Token {
    Character(char),
    UnionOperator,
    StarOperator,
    PlusOperator,
    QuestionOperator,
    LeftParen,
    RightParen,
    Empty,
}

/// The character scanner. It owns the pattern as a sequence of characters
/// and hands out one token per `scan` call; `Token::Empty` marks the end.
#[derive(Debug)]
pub struct Lexer {
    chars: Vec<char>,
    pos: usize,
}

/// The token that one `scan` step yields on `input` at position `pos`,
/// together with the position after the step. A backslash escapes the next
/// character; a backslash with nothing after it is a syntax error (`None`).
pub open spec fn spec_scan_step(input: Seq<char>, pos: int) -> Option<(Token, int)> {
    if pos >= input.len() {
        Some((Token::Empty, pos))
    } else if input[pos] == '\\' {
        if pos + 1 < input.len() {
            Some((Token::Character(input[pos + 1]), pos + 2))
        } else {
            None
        }
    } else if input[pos] == '|' {
        Some((Token::UnionOperator, pos + 1))
    } else if input[pos] == '(' {
        Some((Token::LeftParen, pos + 1))
    } else if input[pos] == ')' {
        Some((Token::RightParen, pos + 1))
    } else if input[pos] == '*' {
        Some((Token::StarOperator, pos + 1))
    } else if input[pos] == '+' {
        Some((Token::PlusOperator, pos + 1))
    } else if input[pos] == '?' {
        Some((Token::QuestionOperator, pos + 1))
    } else {
        Some((Token::Character(input[pos]), pos + 1))
    }
}

impl Lexer {
    pub closed spec fn input(&self) -> Seq<char> {
        self.chars@
    }

    pub closed spec fn position(&self) -> int {
        self.pos as int
    }

    pub open spec fn wf(&self) -> bool {
        0 <= self.position() <= self.input().len()
    }

    pub fn new(string: &str) -> (lexer: Lexer)
        ensures
            lexer.input() == string@,
            lexer.position() == 0,
            lexer.wf(),
    {
        Lexer { chars: chars_of(string), pos: 0 }
    }

    /// Yields the next token. A lone backslash at the end of the pattern has
    /// no character to escape and is reported as `Error::UnexpectedEnd`.
    pub fn scan(&mut self) -> (r: Result<Token, crate::error::Error>)
        requires
            old(self).wf(),
        ensures
            final(self).wf(),
            final(self).input() == old(self).input(),
            match r {
                Ok(t) => {
                    &&& spec_scan_step(old(self).input(), old(self).position()) == Some(
                        (t, final(self).position()),
                    )
                    &&& (t != Token::Empty ==> final(self).position() > old(self).position())
                },
                Err(e) => {
                    &&& spec_scan_step(old(self).input(), old(self).position()) is None
                    &&& e is UnexpectedEnd
                    &&& final(self).position() == old(self).position()
                },
            },
    {
        if self.pos >= self.chars.len() {
            return Ok(Token::Empty);
        }
        let c = self.chars[self.pos];
        if c == '\\' {
            if self.pos + 1 < self.chars.len() {
                let escaped = self.chars[self.pos + 1];
                self.pos = self.pos + 2;
                Ok(Token::Character(escaped))
            } else {
                Err(crate::error::Error::UnexpectedEnd)
            }
        } else {
            self.pos = self.pos + 1;
            if c == '|' {
                Ok(Token::UnionOperator)
            } else if c == '(' {
                Ok(Token::LeftParen)
            } else if c == ')' {
                Ok(Token::RightParen)
            } else if c == '*' {
                Ok(Token::StarOperator)
            } else if c == '+' {
                Ok(Token::PlusOperator)
            } else if c == '?' {
                Ok(Token::QuestionOperator)
            } else {
                Ok(Token::Character(c))
            }
        }
    }
}

/// The characters of a string slice, in order.
pub fn chars_of(s: &str) -> (v: Vec<char>)
    ensures
        v@ == s@,
{
    let len = s.unicode_len();
    let mut v: Vec<char> = Vec::new();
    let mut i: usize = 0;
    while i < len
        invariant
            i <= len,
            len == s@.len(),
            v@ == s@.take(i as int),
        decreases len - i,
    {
        let c = s.get_char(i);
        v.push(c);
        i = i + 1;
        proof {
            assert(v@ =~= s@.take(i as int));
        }
    }
    proof {
        assert(v@ =~= s@);
    }
    v
}

} // verus!
