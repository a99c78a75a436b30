//! The regular-expression tree the compiler lowers: a closed sum of the
//! constructs the compiler supports, holding plain values only. An outside
//! parser's output is converted into this shape before compilation.

use vstd::prelude::*;

use crate::nfa::CharRange;

verus! {

/// An assertion kind: the anchors, in their line-feed and CRLF variants,
/// and the word-boundary assertions (which the compiler rejects).
#[derive(Debug, Clone, Copy, PartialEq, Eq, Structural)]
pub enum LookKind {
    Start,
    End,
    StartLF,
    EndLF,
    StartCRLF,
    EndCRLF,
    WordAscii,
    WordAsciiNegate,
    WordUnicode,
    WordUnicodeNegate,
}

/// How a repetition matches: greedily, reluctantly, or possessively.
#[derive(Debug, Clone, Copy, PartialEq, Eq, Structural)]
pub enum RepKind {
    Greedy,
    Reluctant,
    Possessive,
}

/// A range of bytes, inclusive at both ends.
#[derive(Debug, Clone, Copy, PartialEq, Eq, Structural)]
pub struct ByteRange {
    pub lo: u8,
    pub hi: u8,
}

/// A character class: either ranges of Unicode scalar values or ranges of
/// raw bytes.
#[derive(Debug, PartialEq)]
pub enum ClassKind {
    Unicode(Vec<CharRange>),
    Bytes(Vec<ByteRange>),
}

/// A repetition of a sub-expression with the given bounds and kind.
#[derive(Debug, PartialEq)]
pub struct Repetition {
    pub min: u32,
    /// `None` means unbounded.
    pub max: Option<u32>,
    pub kind: RepKind,
    pub sub: Box<Hir>,
}

/// The high-level regex tree.
#[derive(Debug, PartialEq)]
pub enum Hir {
    /// Matches the empty string.
    Empty,
    /// A literal sequence of symbols, matched one after the other.
    Literal(Vec<char>),
    /// A character class.
    Class(ClassKind),
    /// A standalone assertion; unsupported by the compiler except in the
    /// pairwise positions the concatenation rules allow.
    Look(LookKind),
    /// A repetition.
    Repetition(Repetition),
    /// A group; semantically a no-op.
    Capture(Box<Hir>),
    /// A concatenation of sub-expressions.
    Concat(Vec<Hir>),
    /// An ordered alternation of sub-expressions.
    Alternation(Vec<Hir>),
}

impl LookKind {
    /// The anchors; word-boundary assertions are not anchors.
    pub open spec fn is_anchor(self) -> bool {
        match self {
            LookKind::Start => true,
            LookKind::End => true,
            LookKind::StartLF => true,
            LookKind::EndLF => true,
            LookKind::StartCRLF => true,
            LookKind::EndCRLF => true,
            _ => false,
        }
    }

    /// The end-of-input anchors.
    pub open spec fn is_end_anchor(self) -> bool {
        match self {
            LookKind::End => true,
            LookKind::EndLF => true,
            LookKind::EndCRLF => true,
            _ => false,
        }
    }
}

/// Whether `h` is an anchor assertion, the only `Look`s treated as
/// lookahead by the pairwise concatenation rules.
pub open spec fn hir_is_anchor(h: Hir) -> bool {
    match h {
        Hir::Look(k) => k.is_anchor(),
        _ => false,
    }
}

/// Whether `h` is a possessive repetition.
pub open spec fn hir_is_possessive(h: Hir) -> bool {
    match h {
        Hir::Repetition(r) => r.kind is Possessive,
        _ => false,
    }
}

} // verus!
