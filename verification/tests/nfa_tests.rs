use std::collections::HashSet;

use rust_regex::automaton::nfa::{Nfa, NfaState};
use rust_regex::lexer::Lexer;
use rust_regex::parser::{AstNode, Parser};

fn accept_set(nfa: &Nfa) -> HashSet<u64> {
    nfa.accept().iter().cloned().collect()
}

fn trans_set(nfa: &Nfa) -> HashSet<(u64, Option<char>, u64)> {
    nfa.transitions().iter().cloned().collect()
}

fn nfa_of(pattern: &str) -> Nfa {
    let mut parser = Parser::new(Lexer::new(pattern)).unwrap();
    Nfa::new_from_node(parser.parse().unwrap(), &mut NfaState::new()).unwrap()
}

#[test]
fn new_from_node() {
    // a
    let nfa = Nfa::new_from_node(AstNode::Char('a'), &mut NfaState::new()).unwrap();
    assert_eq!(nfa.start(), 0);
    assert_eq!(accept_set(&nfa), [1].into());
    assert_eq!(trans_set(&nfa), vec![(0, Some('a'), 1)].into_iter().collect());

    // [empty]
    let nfa = Nfa::new_from_node(AstNode::Epsilon, &mut NfaState::new()).unwrap();
    assert_eq!(nfa.start(), 0);
    assert_eq!(accept_set(&nfa), [1].into());
    assert_eq!(trans_set(&nfa), vec![(0, None, 1)].into_iter().collect());

    // a*
    let nfa = Nfa::new_from_node(
        AstNode::Star(Box::new(AstNode::Char('a'))),
        &mut NfaState::new(),
    )
    .unwrap();
    assert_eq!(nfa.start(), 2);
    assert_eq!(accept_set(&nfa), [1, 2].into());
    assert_eq!(
        trans_set(&nfa),
        vec![(0, Some('a'), 1), (2, None, 0), (1, None, 0)]
            .into_iter()
            .collect()
    );

    // a|b
    let nfa = Nfa::new_from_node(
        AstNode::Or(Box::new(AstNode::Char('a')), Box::new(AstNode::Char('b'))),
        &mut NfaState::new(),
    )
    .unwrap();
    assert_eq!(nfa.start(), 4);
    assert_eq!(accept_set(&nfa), [1, 3].into());
    assert_eq!(
        trans_set(&nfa),
        vec![
            (0, Some('a'), 1),
            (2, Some('b'), 3),
            (4, None, 0),
            (4, None, 2)
        ]
        .into_iter()
        .collect()
    );

    // a? — the fresh start enters the body once; there is no looping back
    let nfa = Nfa::new_from_node(
        AstNode::Question(Box::new(AstNode::Char('a'))),
        &mut NfaState::new(),
    )
    .unwrap();
    assert_eq!(nfa.start(), 2);
    assert_eq!(accept_set(&nfa), [1, 2].into());
    assert_eq!(
        trans_set(&nfa),
        vec![(0, Some('a'), 1), (2, None, 0)].into_iter().collect()
    );

    // a+ — the body runs at least once before the fresh accept
    let nfa = Nfa::new_from_node(
        AstNode::Plus(Box::new(AstNode::Char('a'))),
        &mut NfaState::new(),
    )
    .unwrap();
    assert_eq!(nfa.start(), 2);
    assert_eq!(accept_set(&nfa), [3].into());
    assert_eq!(
        trans_set(&nfa),
        vec![(1, None, 3), (0, Some('a'), 1), (1, None, 0), (2, None, 0)]
            .into_iter()
            .collect()
    );

    // ab — the left accepts link on to the right start; the left cannot
    // be skipped
    let nfa = Nfa::new_from_node(
        AstNode::Concat(Box::new(AstNode::Char('a')), Box::new(AstNode::Char('b'))),
        &mut NfaState::new(),
    )
    .unwrap();
    assert_eq!(nfa.start(), 0);
    assert_eq!(accept_set(&nfa), [3].into());
    assert_eq!(
        trans_set(&nfa),
        vec![(0, Some('a'), 1), (2, Some('b'), 3), (1, None, 2)]
            .into_iter()
            .collect()
    );
}

#[test]
fn from_str_to_nfa() {
    let nfa = nfa_of("a|b");
    assert_eq!(nfa.start(), 4);
    assert_eq!(accept_set(&nfa), [1, 3].into());
    assert_eq!(
        trans_set(&nfa),
        vec![
            (0, Some('a'), 1),
            (2, Some('b'), 3),
            (4, None, 0),
            (4, None, 2)
        ]
        .into_iter()
        .collect()
    );

    let nfa = nfa_of("a|b*");
    assert_eq!(nfa.start(), 5);
    assert_eq!(accept_set(&nfa), [1, 3, 4].into());
    assert_eq!(
        trans_set(&nfa),
        vec![
            (5, None, 0),
            (0, Some('a'), 1),
            (2, Some('b'), 3),
            (3, None, 2),
            (5, None, 4),
            (4, None, 2)
        ]
        .into_iter()
        .collect()
    );

    let nfa = nfa_of("a|b+");
    assert_eq!(nfa.start(), 6);
    assert_eq!(accept_set(&nfa), [1, 5].into());
    assert_eq!(
        trans_set(&nfa),
        vec![
            (4, None, 2),
            (3, None, 2),
            (0, Some('a'), 1),
            (2, Some('b'), 3),
            (3, None, 5),
            (6, None, 4),
            (6, None, 0)
        ]
        .into_iter()
        .collect()
    );

    let nfa = nfa_of("a|b?");
    assert_eq!(nfa.start(), 5);
    assert_eq!(accept_set(&nfa), [1, 3, 4].into());
    assert_eq!(
        trans_set(&nfa),
        vec![
            (4, None, 2),
            (5, None, 0),
            (2, Some('b'), 3),
            (5, None, 4),
            (0, Some('a'), 1)
        ]
        .into_iter()
        .collect()
    );

    let nfa = nfa_of("a|b|c");
    assert_eq!(nfa.start(), 7);
    assert_eq!(accept_set(&nfa), [1, 3, 5].into());
    assert_eq!(
        trans_set(&nfa),
        vec![
            (0, Some('a'), 1),
            (6, None, 4),
            (6, None, 2),
            (4, Some('c'), 5),
            (7, None, 0),
            (2, Some('b'), 3),
            (7, None, 6)
        ]
        .into_iter()
        .collect()
    );

    let nfa = nfa_of("a(b|c)");
    assert_eq!(nfa.start(), 0);
    assert_eq!(accept_set(&nfa), [3, 5].into());
    assert_eq!(
        trans_set(&nfa),
        vec![
            (1, None, 6),
            (0, Some('a'), 1),
            (2, Some('b'), 3),
            (6, None, 4),
            (6, None, 2),
            (4, Some('c'), 5)
        ]
        .into_iter()
        .collect()
    );

    let nfa = nfa_of("((a|b)+)*");
    assert_eq!(nfa.start(), 7);
    assert_eq!(accept_set(&nfa), [6, 7].into());
    assert_eq!(
        trans_set(&nfa),
        vec![
            (5, None, 4),
            (1, None, 4),
            (2, Some('b'), 3),
            (7, None, 5),
            (1, None, 6),
            (4, None, 0),
            (4, None, 2),
            (0, Some('a'), 1),
            (3, None, 6),
            (6, None, 5),
            (3, None, 4)
        ]
        .into_iter()
        .collect()
    );

    let nfa = nfa_of("a|b*|c?");
    assert_eq!(nfa.start(), 9);
    assert_eq!(accept_set(&nfa), [1, 3, 4, 6, 7].into());
    assert_eq!(
        trans_set(&nfa),
        vec![
            (8, None, 4),
            (7, None, 5),
            (2, Some('b'), 3),
            (9, None, 8),
            (0, Some('a'), 1),
            (9, None, 0),
            (5, Some('c'), 6),
            (8, None, 7),
            (3, None, 2),
            (4, None, 2)
        ]
        .into_iter()
        .collect()
    );
}

#[test]
fn nfa_e_closure() {
    let nfa = nfa_of("a|b*");
    let closure = nfa.epsilon_closure(&vec![nfa.start()]);
    assert_eq!(closure, vec![0, 2, 4, 5]);

    let nfa = nfa_of("a|b|c");
    let closure = nfa.epsilon_closure(&vec![nfa.start()]);
    assert_eq!(closure, vec![0, 2, 4, 6, 7]);
}
