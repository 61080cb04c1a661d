//! Errors that the commands report.

use vstd::prelude::*;

verus! {

/// Standard input held no sequences.
#[derive(Debug, Clone, Copy, PartialEq, Eq, Structural)]
pub enum StdinError {
    NoSequence,
}

/// A regular expression did not compile.
#[derive(Debug, Clone, Copy, PartialEq, Eq, Structural)]
pub enum RegexError {
    CouldNotCompile,
}

/// A record could not be written.
#[derive(Debug, Clone, Copy, PartialEq, Eq, Structural)]
pub enum FastaWriteError {
    CouldNotWrite,
}

/// Why a region could not be read or taken.
#[derive(Debug, Clone, Copy, PartialEq, Eq, Structural)]
pub enum RegionError {
    /// The text is not two whole numbers joined by a dash.
    CouldNotParse,
    /// The region does not lie within the sequence.
    SeqExtractError,
}

/// A name or description is not valid UTF-8 text.
#[derive(Debug, Clone, Copy, PartialEq, Eq, Structural)]
pub enum TextError {
    NotUtf8,
}

} // verus!
