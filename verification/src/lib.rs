//! A regular-expression engine built from two verified stages: a
//! recursive-descent parser that turns pattern text into an abstract
//! syntax tree ([`parse::Regex`]), and a Thompson-style compiler that
//! turns the tree into a nondeterministic finite-state machine
//! ([`compile::RegexFsm`]) whose transitions reference nodes by index.
//!
//! A matching engine that walks the machine against an input string is
//! a separate concern and is not part of this crate; the machine it
//! needs is fully described by [`compile::RegexFsm`].

pub mod compile;
pub mod parse;
