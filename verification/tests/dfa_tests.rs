use std::collections::BTreeSet;

use rust_regex::automaton::dfa::{epsilon_closure, Dfa};
use rust_regex::automaton::nfa::{Nfa, NfaState};
use rust_regex::lexer::Lexer;
use rust_regex::parser::{AstNode, Parser};

fn nfa_of(pattern: &str) -> Nfa {
    let mut parser = Parser::new(Lexer::new(pattern)).unwrap();
    Nfa::new_from_node(parser.parse().unwrap(), &mut NfaState::new()).unwrap()
}

fn dfa_transitions(dfa: &Dfa) -> BTreeSet<(u64, char, u64)> {
    dfa.transitions().iter().cloned().collect()
}

#[test]
fn dfa_e_closure() {
    let nfa = nfa_of("a|b*");
    let closure = epsilon_closure(&nfa, &vec![nfa.start()]);
    assert_eq!(closure, vec![0, 2, 4, 5]);

    let nfa = nfa_of("a|b|c");
    let closure = epsilon_closure(&nfa, &vec![nfa.start()]);
    assert_eq!(closure, vec![0, 2, 4, 6, 7]);
}

#[test]
fn dfa_test_dfa_from_nfa() {
    let nfa = Nfa::new_from_node(AstNode::Char('a'), &mut NfaState::new()).unwrap();
    let dfa = Dfa::from_nfa(&nfa, false).unwrap();
    assert_eq!(dfa.start(), 0);
    assert!(dfa.accepts_contains(1));
    assert_eq!(
        dfa_transitions(&dfa),
        [(0, 'a', 1)].iter().cloned().collect()
    );

    let nfa = Nfa::new_from_node(
        AstNode::Or(Box::new(AstNode::Char('a')), Box::new(AstNode::Char('b'))),
        &mut NfaState::new(),
    )
    .unwrap();
    let dfa = Dfa::from_nfa(&nfa, false).unwrap();
    assert_eq!(dfa.start(), 0);
    assert!(dfa.accepts_contains(1));
    assert!(dfa.accepts_contains(2));

    let transitions = dfa_transitions(&dfa);
    assert_eq!(transitions.len(), 2);
    assert!(transitions.contains(&(0, 'a', 1)) || transitions.contains(&(0, 'a', 2)));
    assert!(transitions.contains(&(0, 'b', 1)) || transitions.contains(&(0, 'b', 2)));
    assert!(transitions.contains(&(0, 'a', 1)) != transitions.contains(&(0, 'b', 1)));

    let nfa = Nfa::new_from_node(
        AstNode::Or(
            Box::new(AstNode::Char('a')),
            Box::new(AstNode::Star(Box::new(AstNode::Char('b')))),
        ),
        &mut NfaState::new(),
    )
    .unwrap();
    let dfa = Dfa::from_nfa(&nfa, false).unwrap();
    assert_eq!(dfa.start(), 0);
    assert!(dfa.accepts_contains(0));
    assert!(dfa.accepts_contains(1));
    assert!(dfa.accepts_contains(2));

    let transitions = dfa_transitions(&dfa);
    assert_eq!(transitions.len(), 3);

    let a_transitions: Vec<_> = transitions
        .iter()
        .filter(|(from, c, _)| *from == 0 && *c == 'a')
        .collect();
    let b_transitions: Vec<_> = transitions
        .iter()
        .filter(|(from, c, _)| *from == 0 && *c == 'b')
        .collect();

    assert_eq!(a_transitions.len(), 1);
    assert_eq!(b_transitions.len(), 1);

    let b_state = b_transitions[0].2;
    let b_loops: Vec<_> = transitions
        .iter()
        .filter(|(from, c, to)| *from == b_state && *c == 'b' && *to == b_state)
        .collect();

    assert_eq!(b_loops.len(), 1);
}

#[test]
fn next_transit_follows_the_table() {
    let nfa = nfa_of("ab");
    let dfa = Dfa::from_nfa(&nfa, true).unwrap();
    let s0 = dfa.start();
    let s1 = dfa.next_transit(s0, 'a', true).unwrap();
    assert!(dfa.next_transit(s0, 'b', true).is_none());
    let s2 = dfa.next_transit(s1, 'b', false).unwrap();
    assert!(dfa.accepts_contains(s2));
    assert!(!dfa.accepts_contains(s0));
    assert!(!dfa.accepts_contains(s1));
}
