//! Whole-string regular-expression matching over a small grammar (literals,
//! escapes, alternation, concatenation, `*`, `+`, `?`, grouping), executable
//! through three independent engines: a table-driven automaton built by
//! subset construction over a Thompson automaton, a bytecode virtual
//! machine, and a Brzozowski-derivative matcher over a hash-consed arena.

use vstd::prelude::*;

pub mod automaton;
pub mod derivative;
pub mod error;
pub mod lang;
pub mod lexer;
pub mod parser;
pub mod vm;

verus! {

/// One compiled pattern, behind the matching strategy chosen at
/// construction.
enum Regex {
    Dfa { dfa: automaton::dfa::Dfa },
    Vm { vm: vm::Vm },
    Derivative { derivative: derivative::Derivative },
}

/// A compiled pattern. `new` parses the pattern and builds the engine the
/// method name picks; `is_match` runs it on a whole input string.
pub struct RustRegex {
    regex: Regex,
}

impl RustRegex {
    /// What `is_match` returns on `s`: the run of whichever engine this
    /// pattern was compiled to.
    pub closed spec fn engine_matches(&self, s: Seq<char>) -> bool {
        match self.regex {
            Regex::Dfa { dfa } => automaton::dfa::dfa_run(
                dfa.spec_transitions(),
                dfa.spec_accepts(),
                dfa.spec_start(),
                s,
            ),
            Regex::Vm { vm } => vm::eval::vm_accepts(vm.program(), s, 0, 0),
            Regex::Derivative { derivative } => lang::matches_ast(derivative.view(), s),
        }
    }

    /// Whether the method name picks one of the three engines.
    pub open spec fn known_method(method: Seq<char>) -> bool {
        method == "dfa"@ || method == "vm"@ || method == "derivative"@
    }

    /// Compiles `input` for the engine `method` names: "dfa", "vm" or
    /// "derivative". Parsing comes first: a pattern outside the grammar
    /// gives the parser's error under any method; a parseable pattern
    /// under an unknown method name is `InvalidMethod`; the automaton path
    /// alone can fail with `StateIDOverflow`, and the other two engines
    /// always build. On success the engine decides exactly the language
    /// of the parsed pattern: outright for the bytecode and derivative
    /// engines, and through the subset abstraction of the pattern's
    /// Thompson automaton for the table-driven engine.
    pub fn new(input: &str, method: &'static str) -> (r: Result<RustRegex, error::Error>)
        ensures
            parser::spec_parse(input@) is None ==> r is Err,
            r is Ok ==> parser::spec_parse(input@) is Some,
            parser::spec_parse(input@) is Some && !Self::known_method(method@) ==> (r matches Err(
                e,
            ) && e is InvalidMethod),
            parser::spec_parse(input@) is Some && (method@ == "vm"@ || method@ == "derivative"@)
                ==> r is Ok,
            parser::spec_parse(input@) is Some && method@ == "dfa"@ ==> (r is Ok || (r matches Err(
                e,
            ) && e is StateIDOverflow)),
            r is Ok && (method@ == "vm"@ || method@ == "derivative"@) ==> forall|s: Seq<char>|
                #[trigger] (r->Ok_0).engine_matches(s) == lang::matches_ast(
                    parser::spec_parse(input@)->Some_0,
                    s,
                ),
            r is Ok && method@ == "dfa"@ ==> {
                let ast = parser::spec_parse(input@)->Some_0;
                let t = automaton::nfa::thompson(ast, 0);
                exists|
                    dt: Seq<(automaton::dfa::DfaStateID, char, automaton::dfa::DfaStateID)>,
                    da: Set<usize>,
                    subs: Seq<Set<usize>>,
                |
                    (#[trigger] automaton::dfa::dfa_abstraction(t.2, t.1, t.0, dt, da, 0, subs)
                        && (forall|s: Seq<char>|
                        #[trigger] (r->Ok_0).engine_matches(s) == automaton::dfa::dfa_run(
                            dt,
                            da,
                            0,
                            s,
                        )))
            },
    {
        let mv = lexer::chars_of(method);
        let is_dfa = mv.len() == 3 && mv[0] == 'd' && mv[1] == 'f' && mv[2] == 'a';
        let is_vm = mv.len() == 2 && mv[0] == 'v' && mv[1] == 'm';
        let is_derivative = mv.len() == 10 && mv[0] == 'd' && mv[1] == 'e' && mv[2] == 'r'
            && mv[3] == 'i' && mv[4] == 'v' && mv[5] == 'a' && mv[6] == 't' && mv[7] == 'i'
            && mv[8] == 'v' && mv[9] == 'e';
        proof {
            reveal_strlit("dfa");
            reveal_strlit("vm");
            reveal_strlit("derivative");
            if is_dfa {
                assert(method@ =~= "dfa"@);
            }
            if is_vm {
                assert(method@ =~= "vm"@);
            }
            if is_derivative {
                assert(method@ =~= "derivative"@);
            }
            if method@ == "dfa"@ {
                assert(is_dfa);
            }
            if method@ == "vm"@ {
                assert(is_vm);
            }
            if method@ == "derivative"@ {
                assert(is_derivative);
            }
        }
        let lexer = lexer::Lexer::new(input);
        let mut parser = match parser::Parser::new(lexer) {
            Ok(p) => p,
            Err(e) => {
                proof {
                    assert(parser::spec_parse(input@) is None);
                }
                return Err(e);
            },
        };
        let ghost p0 = parser.spec_pos();
        let ghost look0 = parser.spec_looking();
        let ast = match parser.parse() {
            Ok(a) => a,
            Err(e) => {
                proof {
                    assert(parser::spec_parse(input@) is None);
                }
                return Err(e);
            },
        };
        let ghost gast = ast;
        proof {
            assert(parser::spec_parse(input@) == Some(gast));
        }
        if is_dfa {
            let mut state = automaton::nfa::NfaState::new();
            let nfa = match automaton::nfa::Nfa::new_from_node(ast, &mut state) {
                Ok(n) => n,
                Err(e) => {
                    return Err(e);
                },
            };
            let dfa = match automaton::dfa::Dfa::from_nfa(&nfa, true) {
                Ok(d) => d,
                Err(e) => {
                    return Err(e);
                },
            };
            let ghost dt = dfa.spec_transitions();
            let ghost da = dfa.spec_accepts();
            let rr = RustRegex { regex: Regex::Dfa { dfa } };
            proof {
                let t = automaton::nfa::thompson(gast, 0);
                let subs = choose|subs: Seq<Set<usize>>|
                    automaton::dfa::dfa_abstraction(
                        nfa.spec_transitions(),
                        nfa.spec_accept(),
                        nfa.spec_start(),
                        dt,
                        da,
                        0,
                        subs,
                    );
                assert(automaton::dfa::dfa_abstraction(t.2, t.1, t.0, dt, da, 0, subs));
                assert(forall|s: Seq<char>|
                    #[trigger] rr.engine_matches(s) == automaton::dfa::dfa_run(dt, da, 0, s));
            }
            Ok(rr)
        } else if is_vm {
            let vm = match vm::Vm::new(ast) {
                Ok(v) => v,
                Err(e) => {
                    return Err(e);
                },
            };
            let rr = RustRegex { regex: Regex::Vm { vm } };
            proof {
                assert forall|s: Seq<char>|
                    #[trigger] rr.engine_matches(s) == lang::matches_ast(gast, s) by {
                    vm::compile::lemma_vm_matches_language(gast, s);
                }
            }
            Ok(rr)
        } else if is_derivative {
            let derivative = derivative::Derivative::new(ast);
            let ghost dview = derivative.view();
            let rr = RustRegex { regex: Regex::Derivative { derivative } };
            proof {
                assert forall|s: Seq<char>|
                    #[trigger] rr.engine_matches(s) == lang::matches_ast(gast, s) by {
                    assert(lang::matches_ast(dview, s) == lang::matches_ast(gast, s));
                }
            }
            Ok(rr)
        } else {
            Err(error::Error::InvalidMethod(method.to_owned()))
        }
    }

    /// Whether the pattern matches the whole input, by the engine chosen at
    /// construction. The empty input goes through the derivative engine's
    /// dedicated empty-string test.
    pub fn is_match(&self, input: &str) -> (r: bool)
        ensures
            r == self.engine_matches(input@),
    {
        match &self.regex {
            Regex::Dfa { dfa } => dfa.is_match(input),
            Regex::Vm { vm } => vm.is_match(input),
            Regex::Derivative { derivative } => {
                if input.is_empty() {
                    let r = derivative.is_empty_match();
                    proof {
                        assert(input@ =~= Seq::<char>::empty());
                    }
                    r
                } else {
                    derivative.is_match(input)
                }
            },
        }
    }
}

} // verus!
