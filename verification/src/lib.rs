//! mutash: mutation testing for shell scripts.
//!
//! Flips operators and flags token-by-token (no bash AST, no interpreter
//! patching), runs a test command against every mutant in a disposable
//! sandbox, and grades the suite by how many mutants it kills.
//!
//! Modules, in pipeline order:
//! - [`lexer`]: shell-aware scan (live tokens, contexts, pragmas)
//! - [`mutators`]: mutation operators over the token stream
//! - [`spans`], [`order`]: what every token and generated mutant
//!   satisfies (spans on character boundaries, so every mutant applies to
//!   its script; true lines and columns; mutants in source order)
//! - [`mutant`]: the mutant itself (span rewrite and display helpers)
//! - [`runner`]: baseline verdict, per-mutant outcomes, timeout policy
//! - [`report`]: scoring, grading, text and JSON rendering
//! - [`cli`]: argument parsing and the text the commands print
//! - [`text`], [`json`], [`duration`]: building blocks

use vstd::prelude::*;

pub mod cli;
pub mod duration;
pub mod json;
pub mod lexer;
pub mod mutant;
pub mod mutators;
pub mod order;
pub mod report;
pub mod runner;
pub mod spans;
pub mod text;

verus! {

/// Crate version, as shown by `--version` and in reports.
pub const VERSION: &'static str = "0.1.0";

} // verus!
