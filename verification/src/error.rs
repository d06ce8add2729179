//! The error taxonomy shared by all readers: I/O-level decompression
//! failures, structural format violations, and premature end of input.

use vstd::prelude::*;

verus! {

/// Why a reader gave up. Every variant is fatal for the reader that
/// produced it: no resynchronization to a later record is attempted.
#[derive(Clone, Copy, Debug, PartialEq, Eq, Structural)]
pub enum ParseError {
    /// The first non-blank line of a FASTA stream did not start with `>`.
    FastaMissingMarker,
    /// The first non-blank line of a FASTQ record did not start with `@`.
    FastqMissingMarker,
    /// A FASTQ `+` separator carried an identifier that differs from the
    /// record header's identifier.
    PlusLineMismatch,
    /// The stream ended while sequence lines of a FASTQ record were still
    /// expected (no `+` separator was seen).
    UnexpectedEofSequence,
    /// The stream ended before the quality string reached the sequence
    /// length.
    UnexpectedEofQuality,
    /// The accumulated quality string cannot equal the sequence length
    /// exactly: a quality line ran past the bytes still needed. The record
    /// is rejected, never truncated or padded.
    QualityLengthMismatch,
    /// A record field was not valid UTF-8.
    InvalidUtf8,
    /// The compressed stream could not be decompressed.
    Decompress,
}

impl ParseError {
    /// A human-readable description of the error.
    pub fn message(&self) -> (r: &'static str)
        ensures
            *self is FastaMissingMarker ==> r@ == "FASTA record must start with '>'"@,
            *self is FastqMissingMarker ==> r@ == "FASTQ record must start with '@'"@,
            *self is PlusLineMismatch ==> r@
                == "FASTQ '+' line ID does not match header ID"@,
            *self is UnexpectedEofSequence ==> r@
                == "Unexpected end of file while reading FASTQ sequence"@,
            *self is UnexpectedEofQuality ==> r@
                == "Unexpected end of file while reading FASTQ quality scores"@,
            *self is QualityLengthMismatch ==> r@
                == "FASTQ sequence length does not match quality length"@,
            *self is InvalidUtf8 ==> r@ == "stream did not contain valid UTF-8"@,
            *self is Decompress ==> r@ == "failed to decompress input"@,
    {
        match self {
            ParseError::FastaMissingMarker => "FASTA record must start with '>'",
            ParseError::FastqMissingMarker => "FASTQ record must start with '@'",
            ParseError::PlusLineMismatch => "FASTQ '+' line ID does not match header ID",
            ParseError::UnexpectedEofSequence => {
                "Unexpected end of file while reading FASTQ sequence"
            },
            ParseError::UnexpectedEofQuality => {
                "Unexpected end of file while reading FASTQ quality scores"
            },
            ParseError::QualityLengthMismatch => {
                "FASTQ sequence length does not match quality length"
            },
            ParseError::InvalidUtf8 => "stream did not contain valid UTF-8",
            ParseError::Decompress => "failed to decompress input",
        }
    }
}

} // verus!
