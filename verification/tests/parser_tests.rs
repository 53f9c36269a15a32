use rust_regex::error::Error;
use rust_regex::lexer::Lexer;
use rust_regex::parser::{AstNode, Parser};

fn parse_pattern(pattern: &str) -> Result<AstNode, Error> {
    let mut parser = Parser::new(Lexer::new(pattern))?;
    parser.parse()
}

#[test]
fn parse() {
    assert_eq!(
        parse_pattern("a|b").unwrap(),
        AstNode::Or(Box::new(AstNode::Char('a')), Box::new(AstNode::Char('b')))
    );

    assert_eq!(
        parse_pattern("a|b*").unwrap(),
        AstNode::Or(
            Box::new(AstNode::Char('a')),
            Box::new(AstNode::Star(Box::new(AstNode::Char('b'))))
        )
    );

    assert_eq!(
        parse_pattern("a|b+").unwrap(),
        AstNode::Or(
            Box::new(AstNode::Char('a')),
            Box::new(AstNode::Plus(Box::new(AstNode::Char('b'))))
        )
    );

    assert_eq!(
        parse_pattern("a|b?").unwrap(),
        AstNode::Or(
            Box::new(AstNode::Char('a')),
            Box::new(AstNode::Question(Box::new(AstNode::Char('b'))))
        )
    );

    assert_eq!(
        parse_pattern("a|b|c").unwrap(),
        AstNode::Or(
            Box::new(AstNode::Char('a')),
            Box::new(AstNode::Or(
                Box::new(AstNode::Char('b')),
                Box::new(AstNode::Char('c'))
            ))
        )
    );

    assert_eq!(
        parse_pattern("a(b|c)").unwrap(),
        AstNode::Concat(
            Box::new(AstNode::Char('a')),
            Box::new(AstNode::Or(
                Box::new(AstNode::Char('b')),
                Box::new(AstNode::Char('c'))
            ))
        )
    );

    assert_eq!(
        parse_pattern("((a|b)+)*").unwrap(),
        AstNode::Star(Box::new(AstNode::Plus(Box::new(AstNode::Or(
            Box::new(AstNode::Char('a')),
            Box::new(AstNode::Char('b'))
        )))))
    );

    assert_eq!(
        parse_pattern("a|b*|c?").unwrap(),
        AstNode::Or(
            Box::new(AstNode::Char('a')),
            Box::new(AstNode::Or(
                Box::new(AstNode::Star(Box::new(AstNode::Char('b')))),
                Box::new(AstNode::Question(Box::new(AstNode::Char('c'))))
            ))
        )
    );
}

#[test]
fn parse_errors_name_the_obstacle() {
    assert!(matches!(parse_pattern("*"), Err(Error::UnexpectedChar(_))));
    assert!(matches!(parse_pattern("+"), Err(Error::UnexpectedChar(_))));
    assert!(matches!(parse_pattern(")c"), Err(Error::UnexpectedChar(_))));
    assert!(matches!(parse_pattern("a(b"), Err(Error::Expected(_))));
    assert!(matches!(parse_pattern(r"ab\"), Err(Error::UnexpectedEnd)));
}
