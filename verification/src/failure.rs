//! How a parse ends when it does not succeed, and the shape of one
//! parsing step.

use vstd::prelude::*;

verus! {

/// The ways in which parsing fails.
#[derive(Debug, Clone, Copy, PartialEq, Eq, Structural)]
pub enum FailureKind {
    /// A section header whose title is not one of the known sections.
    /// It ends the whole parse.
    UnrecognizedSection,
    /// The text at hand is not what the production asks for.  A choice
    /// goes on to its next alternative and a repetition ends; only where
    /// nothing else can be tried does the parse fail with it.
    GrammarMismatch,
    /// A numeral that denotes no signed 16-bit integer.  It ends the
    /// whole parse.
    NumericOverflow,
}

/// A failure inside the text: its kind, and the position at which the
/// text stopped fitting.
#[derive(Debug, Clone, Copy, PartialEq, Eq, Structural)]
pub struct Failure {
    pub kind: FailureKind,
    pub at: usize,
}

/// The result of one grammar function at one position: the value read and
/// the position after it, or the kind and position of the failure.
pub type Step<V> = Result<(V, int), (FailureKind, int)>;

/// The result of one parsing function: the value read and the position
/// after it, or the failure.
pub type Parsed<T> = Result<(T, usize), Failure>;

/// The step that fails to match at `at`.
pub open spec fn mismatch<V>(at: int) -> Step<V> {
    Err((FailureKind::GrammarMismatch, at))
}

/// Whether a step failed in the way that lets a choice or a repetition go
/// on.
pub open spec fn is_mismatch<V>(step: Step<V>) -> bool {
    step matches Err((kind, _)) && kind == FailureKind::GrammarMismatch
}

/// Ordered choice: `first`, unless it failed to match; then `second`.
pub open spec fn or_else<V>(first: Step<V>, second: Step<V>) -> Step<V> {
    if is_mismatch(first) {
        second
    } else {
        first
    }
}

/// What a parsing function returned, as a step of the grammar.
pub open spec fn step_of<T: View>(parsed: Parsed<T>) -> Step<T::V> {
    match parsed {
        Ok((value, next)) => Ok((value@, next as int)),
        Err(failure) => Err((failure.kind, failure.at as int)),
    }
}

/// Whether a parsing function that started at `pos` in a text of `len`
/// characters ended, or failed, between `pos` and the end of the text.
pub open spec fn in_bounds<T>(parsed: Parsed<T>, pos: usize, len: nat) -> bool {
    match parsed {
        Ok((_, next)) => pos <= next <= len,
        Err(failure) => pos <= failure.at <= len,
    }
}

impl Failure {
    /// The failure to match at `at`.
    pub fn mismatch(at: usize) -> (failure: Failure)
        ensures
            failure == (Failure { kind: FailureKind::GrammarMismatch, at }),
    {
        Failure { kind: FailureKind::GrammarMismatch, at }
    }

    /// Whether a choice or a repetition may go on after this failure.
    pub fn is_mismatch(&self) -> (b: bool)
        ensures
            b == (self.kind == FailureKind::GrammarMismatch),
    {
        self.kind == FailureKind::GrammarMismatch
    }
}

/// The label that goes with each kind of failure of a report.  A report
/// fails to match only at its first section header.
pub open spec fn context_of(kind: FailureKind) -> Seq<char> {
    match kind {
        FailureKind::UnrecognizedSection => "Section not found"@,
        FailureKind::GrammarMismatch => "Section header expected"@,
        FailureKind::NumericOverflow => "Number out of range"@,
    }
}

/// A failed parse of a report: what went wrong, and the input that was
/// left when it did.
#[derive(Debug, Clone, Copy, PartialEq, Eq)]
pub struct ParseFailure<'a> {
    pub kind: FailureKind,
    pub remaining: &'a str,
}

impl<'a> ParseFailure<'a> {
    /// A short label for messages, which says what was being read when
    /// the parse failed.
    pub fn context(&self) -> (label: &'static str)
        ensures
            label@ == context_of(self.kind),
    {
        match self.kind {
            FailureKind::UnrecognizedSection => "Section not found",
            FailureKind::GrammarMismatch => "Section header expected",
            FailureKind::NumericOverflow => "Number out of range",
        }
    }
}

} // verus!
