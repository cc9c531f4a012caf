//! A minimal regular-expression engine.
//!
//! A pattern over literals, grouping `(`/`)`, alternation `|`, Kleene star
//! `*`, and implicit concatenation is parsed into postfix token order,
//! compiled into a nondeterministic finite automaton by Thompson's
//! construction, and matched against a haystack by simulating the automaton
//! with epsilon-closures over parallel active-state sets (no backtracking).
//! The matcher returns the leftmost starting offset that admits a completion
//! and the shortest completion from that offset.

pub mod matcher;
pub mod nfa;
pub mod parse;
pub mod props;

pub use matcher::Match;
pub use matcher::follow_epsilons;
pub use matcher::match_pattern;
pub use nfa::CompileError;
pub use nfa::NFA;
pub use nfa::State;
pub use nfa::Transition;
pub use nfa::compile;
pub use parse::SyntaxError;
pub use parse::Token;
pub use parse::operator_precedence;
pub use parse::parse;
