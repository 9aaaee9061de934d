//! Compiles textual regular expressions into automata and decides whether
//! a given input string is accepted.
//!
//! The expression tree, its smart constructors and its canonical rendering
//! live in [`ast`]; the textual grammar in [`parser`]. The automaton
//! capability and the matching engine live in [`lazy_nfa`], the
//! composition combinators over it in [`combinators`], and the proofs of
//! their language-level semantics in [`semantics`]. The explicit
//! deterministic and nondeterministic automata live in [`dfa`] and
//! [`nfa`]; [`monoid`] holds an independent algebraic utility, and
//! [`error`] the error values all of them share.

pub mod ast;
pub mod combinators;
pub mod dfa;
pub mod error;
pub mod lazy_nfa;
pub mod monoid;
pub mod nfa;
pub mod parser;
pub mod semantics;
