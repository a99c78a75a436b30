//! A Thompson-style NFA compiler whose transitions inspect a two-character
//! window: every transition matches on the current input symbol and may in
//! addition constrain the following symbol through a lookahead predicate
//! that is tested but never consumed.
//!
//! The crate has three parts:
//! - the NFA graph model and its builder primitives ([`nfa`]),
//! - the compiler that lowers a regular-expression tree into such a graph,
//!   encoding possessive quantifiers structurally ([`compiler`]),
//! - a matcher that simulates the graph over a character sequence ([`matcher`]).

use vstd::prelude::*;

pub mod compiler;
pub mod hir;
pub mod matcher;
pub mod nfa;
pub mod seq_facts;

pub use compiler::Compiler;
pub use matcher::Matcher;
pub use nfa::Fragment;
pub use nfa::NFA;
pub use nfa::State;
pub use nfa::StateId;
pub use nfa::TwoCharTransition;

verus! {

/// The result of compiling a pattern to a two-character Thompson NFA.
pub type CompileResult<T> = Result<T, CompileError>;

/// Errors that can occur during compilation.
#[derive(Debug, Clone, PartialEq)]
pub enum CompileError {
    /// The pattern is too complex to compile; reserved, never raised today.
    TooComplex,
    /// The pattern uses a feature outside the supported subset.
    UnsupportedFeature(String),
    /// An internal invariant was violated; the verified compiler never raises it.
    Internal(String),
}

/// The error taxonomy stripped of its human-readable detail: contracts
/// pin down which kind of error a given input produces, while the
/// message strings stay informational.
#[derive(Debug, Clone, Copy, PartialEq, Eq, Structural)]
pub enum ErrKind {
    TooComplex,
    Unsupported,
    Internal,
}

/// The kind of a compile error, used by contracts.
pub open spec fn err_kind(e: CompileError) -> ErrKind {
    match e {
        CompileError::TooComplex => ErrKind::TooComplex,
        CompileError::UnsupportedFeature(_) => ErrKind::Unsupported,
        CompileError::Internal(_) => ErrKind::Internal,
    }
}

impl CompileError {
    /// A human-readable description of the error.
    pub fn message(&self) -> String {
        match self {
            CompileError::TooComplex => "regex pattern is too complex".to_owned(),
            CompileError::UnsupportedFeature(feature) => {
                let mut m = "unsupported feature: ".to_owned();
                m.append(feature.as_str());
                m
            },
            CompileError::Internal(msg) => {
                let mut m = "internal error: ".to_owned();
                m.append(msg.as_str());
                m
            },
        }
    }
}

} // verus!
