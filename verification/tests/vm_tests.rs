use rust_regex::lexer::Lexer;
use rust_regex::parser::{AstNode, Parser};
use rust_regex::vm::cache::{BitmapCache, Cache, FallbackCache};
use rust_regex::vm::compile::Compiler;
use rust_regex::vm::eval::eval;
use rust_regex::vm::instruction::Instruction;

fn ast_of(pattern: &str) -> AstNode {
    let mut parser = Parser::new(Lexer::new(pattern)).unwrap();
    parser.parse().unwrap()
}

#[test]
fn compile() {
    let mut compiler = Compiler::new();
    compiler.compile(ast_of("a|b")).unwrap();
    assert_eq!(
        compiler.instructions(),
        &vec![
            Instruction::Split(1, 3),
            Instruction::Char('a'),
            Instruction::Jmp(4),
            Instruction::Char('b'),
            Instruction::Match,
        ]
    );

    let mut compiler = Compiler::new();
    compiler.compile(ast_of("aa*bb*")).unwrap();
    assert_eq!(
        compiler.instructions(),
        &vec![
            Instruction::Char('a'),
            Instruction::Split(2, 4),
            Instruction::Char('a'),
            Instruction::Jmp(1),
            Instruction::Char('b'),
            Instruction::Split(6, 8),
            Instruction::Char('b'),
            Instruction::Jmp(5),
            Instruction::Match,
        ]
    );

    let mut compiler = Compiler::new();
    compiler.compile(ast_of("a|b*")).unwrap();
    assert_eq!(
        compiler.instructions(),
        &vec![
            Instruction::Split(1, 3),
            Instruction::Char('a'),
            Instruction::Jmp(6),
            Instruction::Split(4, 6),
            Instruction::Char('b'),
            Instruction::Jmp(3),
            Instruction::Match,
        ]
    );
}

#[test]
fn evaluation() {
    let mut compiler = Compiler::new();
    compiler.compile(ast_of("a|b*")).unwrap();
    let inst = compiler.instructions().clone();
    assert!(eval(&inst, "a", 0, 0));
    assert!(eval(&inst, "b", 0, 0));
    assert!(eval(&inst, "bb", 0, 0));
    assert!(!eval(&inst, "c", 0, 0));

    let mut compiler = Compiler::new();
    compiler.compile(ast_of("a|b+")).unwrap();
    let inst = compiler.instructions().clone();
    assert!(eval(&inst, "a", 0, 0));
    assert!(eval(&inst, "b", 0, 0));
    assert!(eval(&inst, "bb", 0, 0));
    assert!(!eval(&inst, "c", 0, 0));

    let mut compiler = Compiler::new();
    compiler.compile(ast_of("a|b?")).unwrap();
    let inst = compiler.instructions().clone();
    assert!(eval(&inst, "a", 0, 0));
    assert!(eval(&inst, "b", 0, 0));
    assert!(!eval(&inst, "bb", 0, 0));
    assert!(!eval(&inst, "c", 0, 0));
}

#[test]
fn test_bitmap_cache() {
    let mut cache = BitmapCache::new(10, 5);

    assert!(!cache.contains(0, 0));
    assert!(!cache.contains(3, 7));

    cache.insert(0, 0);
    cache.insert(3, 7);
    cache.insert(2, 9);

    assert!(cache.contains(0, 0));
    assert!(cache.contains(3, 7));
    assert!(cache.contains(2, 9));

    assert!(!cache.contains(1, 0));
    assert!(!cache.contains(0, 1));

    cache.clear();
    assert!(!cache.contains(0, 0));
    assert!(!cache.contains(3, 7));
}

#[test]
fn test_fallback_cache() {
    let mut cache = FallbackCache::new(3);

    assert!(!cache.contains(0, 0));

    cache.insert(0, 0);
    cache.insert(1, 1);
    cache.insert(2, 2);

    assert!(cache.contains(0, 0));
    assert!(cache.contains(1, 1));
    assert!(cache.contains(2, 2));
    assert_eq!(cache.len(), 3);

    cache.insert(3, 3);
    assert_eq!(cache.len(), 3);
    assert!(!cache.contains(0, 0));
    assert!(cache.contains(3, 3));

    cache.clear();
    assert!(!cache.contains(1, 1));
    assert!(!cache.contains(2, 2));
    assert!(!cache.contains(3, 3));
    assert_eq!(cache.len(), 0);
}

#[test]
fn test_cache_selection() {
    let cache = Cache::new(10, 10);
    assert!(matches!(cache, Cache::Bitmap(_)));

    let cache = Cache::new(10, 1_000_000);
    assert!(matches!(cache, Cache::Bitmap(_)));

    let cache = Cache::new(300, 10);
    assert!(matches!(cache, Cache::Fallback(_)));

    let cache = Cache::new(10, 10_000_000);
    assert!(matches!(cache, Cache::Fallback(_)));
}

#[test]
fn cache_records_pairs() {
    let mut cache = Cache::new(10, 10);
    assert!(!cache.contains(4, 2));
    cache.insert(4, 2);
    assert!(cache.contains(4, 2));
    assert!(!cache.contains(2, 4));
}
