use rust_regex::lexer::{Lexer, Token};

#[test]
fn scan() {
    let mut lexer = Lexer::new("a|b");
    assert_eq!(lexer.scan().unwrap(), Token::Character('a'));
    assert_eq!(lexer.scan().unwrap(), Token::UnionOperator);
    assert_eq!(lexer.scan().unwrap(), Token::Character('b'));
    assert_eq!(lexer.scan().unwrap(), Token::Empty);

    let mut lexer = Lexer::new("a|b*");
    assert_eq!(lexer.scan().unwrap(), Token::Character('a'));
    assert_eq!(lexer.scan().unwrap(), Token::UnionOperator);
    assert_eq!(lexer.scan().unwrap(), Token::Character('b'));
    assert_eq!(lexer.scan().unwrap(), Token::StarOperator);
    assert_eq!(lexer.scan().unwrap(), Token::Empty);

    let mut lexer = Lexer::new("a|b+");
    assert_eq!(lexer.scan().unwrap(), Token::Character('a'));
    assert_eq!(lexer.scan().unwrap(), Token::UnionOperator);
    assert_eq!(lexer.scan().unwrap(), Token::Character('b'));
    assert_eq!(lexer.scan().unwrap(), Token::PlusOperator);
    assert_eq!(lexer.scan().unwrap(), Token::Empty);

    let mut lexer = Lexer::new("a|b?");
    assert_eq!(lexer.scan().unwrap(), Token::Character('a'));
    assert_eq!(lexer.scan().unwrap(), Token::UnionOperator);
    assert_eq!(lexer.scan().unwrap(), Token::Character('b'));
    assert_eq!(lexer.scan().unwrap(), Token::QuestionOperator);
    assert_eq!(lexer.scan().unwrap(), Token::Empty);

    let mut lexer = Lexer::new("a|b()");
    assert_eq!(lexer.scan().unwrap(), Token::Character('a'));
    assert_eq!(lexer.scan().unwrap(), Token::UnionOperator);
    assert_eq!(lexer.scan().unwrap(), Token::Character('b'));
    assert_eq!(lexer.scan().unwrap(), Token::LeftParen);
    assert_eq!(lexer.scan().unwrap(), Token::RightParen);
    assert_eq!(lexer.scan().unwrap(), Token::Empty);

    let mut lexer = Lexer::new("abc|def");
    assert_eq!(lexer.scan().unwrap(), Token::Character('a'));
    assert_eq!(lexer.scan().unwrap(), Token::Character('b'));
    assert_eq!(lexer.scan().unwrap(), Token::Character('c'));
    assert_eq!(lexer.scan().unwrap(), Token::UnionOperator);
    assert_eq!(lexer.scan().unwrap(), Token::Character('d'));
    assert_eq!(lexer.scan().unwrap(), Token::Character('e'));
    assert_eq!(lexer.scan().unwrap(), Token::Character('f'));
    assert_eq!(lexer.scan().unwrap(), Token::Empty);

    let mut lexer = Lexer::new("a|(b|c)");
    assert_eq!(lexer.scan().unwrap(), Token::Character('a'));
    assert_eq!(lexer.scan().unwrap(), Token::UnionOperator);
    assert_eq!(lexer.scan().unwrap(), Token::LeftParen);
    assert_eq!(lexer.scan().unwrap(), Token::Character('b'));
    assert_eq!(lexer.scan().unwrap(), Token::UnionOperator);
    assert_eq!(lexer.scan().unwrap(), Token::Character('c'));
    assert_eq!(lexer.scan().unwrap(), Token::RightParen);
    assert_eq!(lexer.scan().unwrap(), Token::Empty);
}

#[test]
fn with_escape() {
    let mut lexer = Lexer::new(r"a|\|\\(\)");
    assert_eq!(lexer.scan().unwrap(), Token::Character('a'));
    assert_eq!(lexer.scan().unwrap(), Token::UnionOperator);
    assert_eq!(lexer.scan().unwrap(), Token::Character('|'));
    assert_eq!(lexer.scan().unwrap(), Token::Character('\\'));
    assert_eq!(lexer.scan().unwrap(), Token::LeftParen);
    assert_eq!(lexer.scan().unwrap(), Token::Character(')'));
    assert_eq!(lexer.scan().unwrap(), Token::Empty);

    let mut lexer = Lexer::new(r"a|b\*");
    assert_eq!(lexer.scan().unwrap(), Token::Character('a'));
    assert_eq!(lexer.scan().unwrap(), Token::UnionOperator);
    assert_eq!(lexer.scan().unwrap(), Token::Character('b'));
    assert_eq!(lexer.scan().unwrap(), Token::Character('*'));
    assert_eq!(lexer.scan().unwrap(), Token::Empty);

    let mut lexer = Lexer::new(r"a|b\+");
    assert_eq!(lexer.scan().unwrap(), Token::Character('a'));
    assert_eq!(lexer.scan().unwrap(), Token::UnionOperator);
    assert_eq!(lexer.scan().unwrap(), Token::Character('b'));
    assert_eq!(lexer.scan().unwrap(), Token::Character('+'));
    assert_eq!(lexer.scan().unwrap(), Token::Empty);
}

#[test]
fn empty() {
    let mut lexer = Lexer::new(r"");
    assert_eq!(lexer.scan().unwrap(), Token::Empty);
}

#[test]
fn trailing_backslash_is_an_error() {
    let mut lexer = Lexer::new(r"ab\");
    assert_eq!(lexer.scan().unwrap(), Token::Character('a'));
    assert_eq!(lexer.scan().unwrap(), Token::Character('b'));
    assert!(lexer.scan().is_err());
}
