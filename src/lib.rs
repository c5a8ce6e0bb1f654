//! An LR(1) / LALR(1) parser generator together with the table-driven
//! shift-reduce driver that runs the tables it produces.
//!
//! The pipeline: a grammar text is read by [`meta`] (with the bootstrapped
//! tables of [`meta_tables`] and the [`driver`]), indexed by [`indexed`],
//! analysed by [`first`], expanded into the LR(1) item graph of [`nfa`],
//! made deterministic by [`dfa`], and projected to tables by [`tables`];
//! [`lalr`] shows that fusing states by kernel adds only reduce-reduce
//! conflicts; [`emit`] writes tables as Rust source; [`chars`] holds the
//! character classes and line/column positions the lexers share. [`calculator`] and [`calc_tables`]
//! are the front of a small arithmetic calculator.

pub mod grammar;
pub mod text;
pub mod chars;
pub mod driver;
pub mod indexed;
pub mod first;
pub mod nfa;
pub mod dfa;
pub mod tables;
pub mod lalr;
pub mod emit;
pub mod meta;
pub mod meta_tables;
pub mod calculator;
pub mod calc_tables;
