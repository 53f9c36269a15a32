use rust_regex::derivative::{match_fallback, normalize_parser};
use rust_regex::lexer::Lexer;
use rust_regex::parser::{ast_eq, AstNode, Parser};
use rust_regex::RustRegex;

fn ast_of(pattern: &str) -> AstNode {
    let mut parser = Parser::new(Lexer::new(pattern)).unwrap();
    parser.parse().unwrap()
}

/// The three engines agree on every pattern and input tried, the empty
/// string and `+` included.
#[test]
fn cross_engine_agreement() {
    let patterns = [
        "a|b*",
        "(p(erl|ython|hp)|ruby)",
        "ab(cd|)ef",
        "a?b",
        "(ab)*",
        "a(b|c)*d",
        "(a|b)?(c|d)?",
        "z",
        "()",
        "a+",
        "a+b",
        "(a?)+",
        "(ab)+c",
    ];
    let inputs = [
        "", "a", "b", "ab", "abd", "abab", "acd", "abbbcd", "abcdef", "abef", "abc", "perl",
        "ruby", "rust", "z", "cd", "aab", "c",
    ];
    for pattern in patterns {
        let dfa = RustRegex::new(pattern, "dfa").unwrap();
        let vm = RustRegex::new(pattern, "vm").unwrap();
        let derivative = RustRegex::new(pattern, "derivative").unwrap();
        for input in inputs {
            let expected = derivative.is_match(input);
            assert_eq!(dfa.is_match(input), expected, "dfa vs derivative: {pattern} {input}");
            assert_eq!(vm.is_match(input), expected, "vm vs derivative: {pattern} {input}");
        }
    }
}

/// Star and question always match the empty string; plus matches it
/// exactly when its body does — on every engine.
#[test]
fn epsilon_boundary() {
    for method in ["dfa", "vm", "derivative"] {
        assert!(RustRegex::new("a*", method).unwrap().is_match(""), "{method}");
        assert!(RustRegex::new("(ab|c)*", method).unwrap().is_match(""), "{method}");
        assert!(RustRegex::new("a?", method).unwrap().is_match(""), "{method}");
        assert!(RustRegex::new("(abc)?", method).unwrap().is_match(""), "{method}");
        assert!(!RustRegex::new("a+", method).unwrap().is_match(""), "{method}");
        assert!(RustRegex::new("(a?)+", method).unwrap().is_match(""), "{method}");
        assert!(RustRegex::new("(b*)+", method).unwrap().is_match(""), "{method}");
    }
}

/// Simplifying an already-simplified pattern yields the same pattern.
#[test]
fn normalization_fixed_point() {
    for pattern in ["a|b*", "((a|b)+)*", "ab(cd|)ef", "a?b?c?", "(p(erl|ython|hp)|ruby)"] {
        let once = normalize_parser(ast_of(pattern));
        let twice = normalize_parser(once.clone());
        assert!(ast_eq(&once, &twice), "{pattern}");
    }
}

/// A pattern built to blow up derivative state still terminates and
/// answers correctly.
#[test]
fn derivative_fallback_safety() {
    let pattern = "((((((((a|b)*)*)*)*)*)*)*)*";
    let regex = RustRegex::new(pattern, "derivative").unwrap();
    let yes: String = "ab".repeat(12);
    let mut no = yes.clone();
    no.push('c');
    assert!(regex.is_match(&yes));
    assert!(regex.is_match(""));
    assert!(!regex.is_match(&no));
}

/// The memoization-free derivative path answers like the language.
#[test]
fn fallback_matches_directly() {
    let ast = ast_of("a|b*");
    assert!(match_fallback(&ast, &"bb".chars().collect()));
    assert!(match_fallback(&ast, &"a".chars().collect()));
    assert!(match_fallback(&ast, &"".chars().collect()));
    assert!(!match_fallback(&ast, &"ab".chars().collect()));
}

/// The group-with-empty-branch scenario across all three engines.
#[test]
fn optional_group_scenarios() {
    for method in ["dfa", "vm", "derivative"] {
        let regex = RustRegex::new("ab(cd|)ef", method).unwrap();
        assert!(regex.is_match("abcdef"), "{method}");
        assert!(regex.is_match("abef"), "{method}");
        assert!(!regex.is_match("abc"), "{method}");
    }
}

/// Escaped meta characters match themselves and only themselves.
#[test]
fn escape_round_trip() {
    for method in ["dfa", "vm", "derivative"] {
        let regex = RustRegex::new(r"\(\)\|\*\+\?\\", method).unwrap();
        assert!(regex.is_match(r"()|*+?\"), "{method}");
        assert!(!regex.is_match(r"()|*+?"), "{method}");
        assert!(!regex.is_match(""), "{method}");
    }
}

/// Multi-byte codepoints match the same codepoint sequences everywhere.
#[test]
fn unicode_codepoints_agree() {
    for method in ["dfa", "vm", "derivative"] {
        let regex = RustRegex::new("\u{3042}|\u{3044}*", method).unwrap();
        assert!(regex.is_match("\u{3042}"), "{method}");
        assert!(regex.is_match("\u{3044}\u{3044}"), "{method}");
        assert!(!regex.is_match("\u{3046}"), "{method}");
    }
}
