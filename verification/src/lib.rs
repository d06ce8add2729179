//! Verified FASTA/FASTQ record tokenization over byte streams, with
//! transparent gzip/bzip2 decompression behind a small trusted boundary.

pub mod compress;
pub mod error;
pub mod fasta;
pub mod fastq;
pub mod streaming;
pub mod text;
pub mod zero_copy;

pub use compress::Compression;
pub use error::ParseError;
pub use fasta::{FastaReader, FastaRecord};
pub use fastq::{FastqReader, FastqRecord};
pub use streaming::StreamingZeroCopyFastaReader;
pub use zero_copy::ZeroCopyFastaReader;

use vstd::prelude::*;

verus! {

/// True when the byte is ASCII whitespace as the readers understand it:
/// space, tab, line feed, vertical tab, form feed, or carriage return.
pub open spec fn is_space(b: u8) -> bool {
    b == 32 || b == 9 || b == 10 || b == 11 || b == 12 || b == 13
}

/// Executable counterpart of [`is_space`].
#[verifier::when_used_as_spec(is_space)]
pub fn is_space_byte(b: u8) -> (r: bool)
    ensures
        r == is_space(b),
{
    b == 32 || b == 9 || b == 10 || b == 11 || b == 12 || b == 13
}

} // verus!
