//! Compression sniffing and decompression. Detection is verified logic on
//! the leading magic bytes; the decompressors themselves are outside code
//! reached through trusted wrappers.

use vstd::prelude::*;

verus! {

use crate::error::ParseError;

/// The compression wrapping detected at the head of a stream.
#[derive(Clone, Copy, Debug, PartialEq, Eq, Structural)]
pub enum Compression {
    Plain,
    Gzip,
    Bzip2,
}

/// Classification of a stream by its leading magic bytes: `0x1f 0x8b` for
/// gzip, `BZh` for bzip2, anything else (including streams shorter than the
/// magic) plain.
pub open spec fn spec_detect(s: Seq<u8>) -> Compression {
    if s.len() >= 2 && s[0] == 0x1f && s[1] == 0x8b {
        Compression::Gzip
    } else if s.len() >= 3 && s[0] == 0x42 && s[1] == 0x5a && s[2] == 0x68 {
        Compression::Bzip2
    } else {
        Compression::Plain
    }
}

/// Inspects the first bytes of the input without consuming them.
pub fn detect_compression(data: &Vec<u8>) -> (c: Compression)
    ensures
        c == spec_detect(data@),
{
    if data.len() >= 2 && data[0] == 0x1f && data[1] == 0x8b {
        Compression::Gzip
    } else if data.len() >= 3 && data[0] == 0x42 && data[1] == 0x5a && data[2] == 0x68 {
        Compression::Bzip2
    } else {
        Compression::Plain
    }
}

/// What gzip decompression yields on the given bytes: the decoded stream,
/// or nothing when the bytes are not a well-formed gzip stream.
pub uninterp spec fn gunzip_of(s: Seq<u8>) -> Option<Seq<u8>>;

/// What bzip2 decompression yields on the given bytes: the decoded stream,
/// or nothing when the bytes are not a well-formed bzip2 stream.
pub uninterp spec fn bunzip_of(s: Seq<u8>) -> Option<Seq<u8>>;

/// Relies on `flate2::read::GzDecoder` driven by `std::io::Read::read_to_end`:
/// decompressing an in-memory gzip stream is a function of the bytes alone,
/// and fails exactly on malformed input.
#[verifier::external_body]
fn gunzip(data: &Vec<u8>) -> (r: Result<Vec<u8>, ParseError>)
    ensures
        r matches Ok(v) ==> gunzip_of(data@) == Some(v@),
        r matches Err(e) ==> gunzip_of(data@) is None && e == ParseError::Decompress,
{
    let mut out = Vec::new();
    let mut dec = flate2::read::GzDecoder::new(data.as_slice());
    match std::io::Read::read_to_end(&mut dec, &mut out) {
        Ok(_) => Ok(out),
        Err(_) => Err(ParseError::Decompress),
    }
}

/// Relies on `bzip2::read::BzDecoder` driven by `std::io::Read::read_to_end`:
/// decompressing an in-memory bzip2 stream is a function of the bytes alone,
/// and fails exactly on malformed input.
#[verifier::external_body]
fn bunzip(data: &Vec<u8>) -> (r: Result<Vec<u8>, ParseError>)
    ensures
        r matches Ok(v) ==> bunzip_of(data@) == Some(v@),
        r matches Err(e) ==> bunzip_of(data@) is None && e == ParseError::Decompress,
{
    let mut out = Vec::new();
    let mut dec = bzip2::read::BzDecoder::new(data.as_slice());
    match std::io::Read::read_to_end(&mut dec, &mut out) {
        Ok(_) => Ok(out),
        Err(_) => Err(ParseError::Decompress),
    }
}

/// The decoded form of a raw input stream: the decompressor's output when
/// the magic bytes announce one, the bytes themselves otherwise.
pub open spec fn spec_decode(s: Seq<u8>) -> Option<Seq<u8>> {
    match spec_detect(s) {
        Compression::Plain => Some(s),
        Compression::Gzip => gunzip_of(s),
        Compression::Bzip2 => bunzip_of(s),
    }
}

/// Sniffs the magic bytes and undoes the detected compression. The sniffed
/// bytes are never lost: an undetected stream is returned verbatim.
pub fn decode_input(data: Vec<u8>) -> (r: Result<Vec<u8>, ParseError>)
    ensures
        r matches Ok(v) ==> spec_decode(data@) == Some(v@),
        r matches Err(e) ==> spec_decode(data@) is None && e == ParseError::Decompress,
{
    match detect_compression(&data) {
        Compression::Plain => Ok(data),
        Compression::Gzip => gunzip(&data),
        Compression::Bzip2 => bunzip(&data),
    }
}

} // verus!
