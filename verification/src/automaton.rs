pub mod dfa;
pub mod nfa;
