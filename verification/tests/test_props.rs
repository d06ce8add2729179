// Property and edge-case tests: buffer-size independence, idempotent end
// of stream, the error taxonomy, and whitespace handling.
use prseq::{FastaReader, FastqReader, ParseError, StreamingZeroCopyFastaReader,
    ZeroCopyFastaReader};
use std::io::Write;

#[test]
fn test_buffer_size_independence() {
    // one sequence line is longer than the smallest buffer size
    let content = b">long record\nATCGATCGATCGATCGATCGATCG\nGG\n>tail\nCC\n";
    let mut outputs: Vec<Vec<(Vec<u8>, Vec<u8>, usize)>> = Vec::new();
    for size in [8usize, 32, 1024, 65536] {
        let mut reader =
            StreamingZeroCopyFastaReader::from_bytes(content.to_vec(), size).unwrap();
        let mut records = Vec::new();
        while let Some(result) = reader.next_record() {
            records.push(result.unwrap());
        }
        outputs.push(records);
    }
    for records in &outputs {
        assert_eq!(records.len(), 2);
        assert_eq!(records[0].0.as_slice(), b"long record");
        assert_eq!(records[0].1.as_slice(), b"ATCGATCGATCGATCGATCGATCGGG");
        assert_eq!(records[0].2, 26);
        assert_eq!(records[1].0.as_slice(), b"tail");
        assert_eq!(records[1].1.as_slice(), b"CC");
        assert_eq!(records[1].2, 2);
    }
    assert_eq!(outputs[0], outputs[1]);
    assert_eq!(outputs[1], outputs[2]);
    assert_eq!(outputs[2], outputs[3]);
}

#[test]
fn test_end_of_stream_idempotent_fasta() {
    let content = b">a\nAT\n\n\n".to_vec();
    let mut reader = FastaReader::from_reader_with_capacity(content, 64).unwrap();
    let rec = reader.next().unwrap().unwrap();
    assert_eq!(rec.header, "a");
    assert!(reader.next().is_none());
    assert!(reader.next().is_none());
    assert!(matches!(reader.read_next(), Ok(None)));
}

#[test]
fn test_end_of_stream_idempotent_fastq() {
    let content = b"@a\nAT\n+\nII\n".to_vec();
    let mut reader = FastqReader::from_reader_with_capacity(content, 64).unwrap();
    let rec = reader.next().unwrap().unwrap();
    assert_eq!(rec.id, "a");
    assert!(reader.next().is_none());
    assert!(reader.next().is_none());
}

#[test]
fn test_end_of_stream_idempotent_streaming() {
    let content = b">a\nAT\n".to_vec();
    let mut reader = StreamingZeroCopyFastaReader::from_bytes(content, 8).unwrap();
    assert!(reader.next_record().is_some());
    assert!(reader.next_record().is_none());
    assert!(reader.next_record().is_none());
}

#[test]
fn test_end_of_stream_idempotent_zero_copy() {
    let content = b">a\nAT\n".to_vec();
    let mut reader = ZeroCopyFastaReader::from_bytes(content, 64).unwrap();
    assert!(reader.next_record().is_some());
    assert!(reader.next_record().is_none());
    assert!(reader.next_record().is_none());
}

#[test]
fn test_fasta_missing_marker_message() {
    let content = b"no marker here\n".to_vec();
    let mut reader = FastaReader::from_reader_with_capacity(content, 64).unwrap();
    let err = reader.read_next().unwrap_err();
    assert_eq!(err, ParseError::FastaMissingMarker);
    assert!(err.message().contains("must start with '>'"));
}

#[test]
fn test_fastq_truncated_sequence() {
    // the stream ends before any '+' separator line
    let content = b"@a\nATCG\nGGTT\n".to_vec();
    let mut reader = FastqReader::from_reader_with_capacity(content, 64).unwrap();
    let err = reader.read_next().unwrap_err();
    assert_eq!(err, ParseError::UnexpectedEofSequence);
    assert!(err.message().contains("Unexpected end of file"));
}

#[test]
fn test_fastq_truncated_quality_variant() {
    let content = b"@s\nATCG\n+\nII\n".to_vec();
    let mut reader = FastqReader::from_reader_with_capacity(content, 64).unwrap();
    let err = reader.read_next().unwrap_err();
    assert_eq!(err, ParseError::UnexpectedEofQuality);
}

#[test]
fn test_fastq_overlong_quality_rejected() {
    // the quality line runs past the sequence length: the record is
    // rejected, never truncated or padded
    let content = b"@s\nAT\n+\nIIII\n".to_vec();
    let mut reader = FastqReader::from_reader_with_capacity(content, 64).unwrap();
    let err = reader.read_next().unwrap_err();
    assert_eq!(err, ParseError::QualityLengthMismatch);
    assert!(err.message().contains("does not match quality length"));
}

#[test]
fn test_fastq_overlong_quality_rejected_midway() {
    // the overshoot happens on the second quality line
    let content = b"@s\nATCG\n+\nII\nJJJ\n".to_vec();
    let mut reader = FastqReader::from_reader_with_capacity(content, 64).unwrap();
    let err = reader.read_next().unwrap_err();
    assert_eq!(err, ParseError::QualityLengthMismatch);
}

#[test]
fn test_invalid_utf8_header() {
    let content = vec![b'>', 0xff, 0xfe, b'\n', b'A', b'T', b'\n'];
    let mut reader = FastaReader::from_reader_with_capacity(content, 64).unwrap();
    let err = reader.read_next().unwrap_err();
    assert_eq!(err, ParseError::InvalidUtf8);
}

#[test]
fn test_corrupt_gzip_stream() {
    // gzip magic bytes followed by garbage
    let content = vec![0x1f, 0x8b, 0x00, 0x01, 0x02, 0x03];
    let result = FastaReader::from_reader_with_capacity(content, 64);
    assert!(matches!(result, Err(ParseError::Decompress)));
}

#[test]
fn test_tiny_inputs() {
    // inputs shorter than the magic byte patterns are treated as plain bytes
    let mut empty = FastaReader::from_reader_with_capacity(Vec::new(), 64).unwrap();
    assert!(empty.next().is_none());

    let mut bz_prefix = FastaReader::from_reader_with_capacity(b"BZ".to_vec(), 64).unwrap();
    let err = bz_prefix.read_next().unwrap_err();
    assert_eq!(err, ParseError::FastaMissingMarker);

    let mut lone_marker = FastaReader::from_reader_with_capacity(b">".to_vec(), 64).unwrap();
    let rec = lone_marker.next().unwrap().unwrap();
    assert_eq!(rec.header, "");
    assert_eq!(rec.sequence, "");
    assert!(lone_marker.next().is_none());
}

#[test]
fn test_whitespace_handling() {
    // leading whitespace before the marker is trimmed away; inner spacing
    // after the marker is kept; carriage returns are stripped
    let content = b"  >seq7\r\nAT CG\r\n  GG  \r\n".to_vec();
    let mut reader = FastaReader::from_reader_with_capacity(content, 64).unwrap();
    let rec = reader.next().unwrap().unwrap();
    assert_eq!(rec.header, "seq7");
    assert_eq!(rec.sequence, "AT CGGG");
    assert!(reader.next().is_none());
}

#[test]
fn test_empty_sequence_record() {
    let content = b">empty\n>full\nATCG\n".to_vec();
    let mut reader = FastaReader::from_reader_with_capacity(content, 64).unwrap();
    let rec1 = reader.next().unwrap().unwrap();
    assert_eq!(rec1.header, "empty");
    assert_eq!(rec1.sequence, "");
    let rec2 = reader.next().unwrap().unwrap();
    assert_eq!(rec2.header, "full");
    assert_eq!(rec2.sequence, "ATCG");
    assert!(reader.next().is_none());
}

#[test]
fn test_read_batch_fasta() {
    let content = b">a\nAT\n>b\nCG\n>c\nGG\n".to_vec();
    let mut reader = FastaReader::from_reader_with_capacity(content, 64).unwrap();
    let first = reader.read_batch(2).unwrap();
    assert_eq!(first.len(), 2);
    assert_eq!(first[0].header, "a");
    assert_eq!(first[1].header, "b");
    let second = reader.read_batch(5).unwrap();
    assert_eq!(second.len(), 1);
    assert_eq!(second[0].header, "c");
    let third = reader.read_batch(5).unwrap();
    assert!(third.is_empty());
}

#[test]
fn test_read_batch_fastq() {
    let content = b"@a\nAT\n+\nII\n@b\nCG\n+\nJJ\n".to_vec();
    let mut reader = FastqReader::from_reader_with_capacity(content, 64).unwrap();
    let first = reader.read_batch(1).unwrap();
    assert_eq!(first.len(), 1);
    assert_eq!(first[0].id, "a");
    let rest = reader.read_batch(10).unwrap();
    assert_eq!(rest.len(), 1);
    assert_eq!(rest[0].id, "b");
}

#[test]
fn test_fastq_bzip2_roundtrip() {
    let content = b"@z\nATCG\n+\nIIII\n";
    let mut encoder = bzip2::write::BzEncoder::new(Vec::new(), bzip2::Compression::default());
    encoder.write_all(content).unwrap();
    let compressed = encoder.finish().unwrap();
    assert_ne!(compressed.as_slice(), content.as_slice());

    let mut plain = FastqReader::from_reader_with_capacity(content.to_vec(), 64).unwrap();
    let mut packed = FastqReader::from_reader_with_capacity(compressed, 64).unwrap();
    let a = plain.read_all().unwrap();
    let b = packed.read_all().unwrap();
    assert_eq!(a, b);
    assert_eq!(a.len(), 1);
    assert_eq!(a[0].sequence, "ATCG");
}

#[test]
fn test_streaming_skips_leading_garbage() {
    // the streaming scanner looks for the next marker byte and ignores
    // whatever precedes it
    let content = b"junk\n>a\nATCG\n".to_vec();
    let mut reader = StreamingZeroCopyFastaReader::from_bytes(content, 8).unwrap();
    let (header, sequence, total) = reader.next_record().unwrap().unwrap();
    assert_eq!(header.as_slice(), b"a");
    assert_eq!(sequence.as_slice(), b"ATCG");
    assert_eq!(total, 4);
    assert!(reader.next_record().is_none());
}

#[test]
fn test_zero_copy_rejects_leading_garbage() {
    let content = b"junk\n>a\nATCG\n".to_vec();
    let mut reader = ZeroCopyFastaReader::from_bytes(content, 64).unwrap();
    let result = reader.next_record().unwrap();
    assert_eq!(result.unwrap_err(), ParseError::FastaMissingMarker);
}

#[test]
fn test_streaming_gzip_input() {
    let content = b">packed\nATCGATCGATCGATCG\n";
    let mut encoder = flate2::write::GzEncoder::new(Vec::new(), flate2::Compression::default());
    encoder.write_all(content).unwrap();
    let compressed = encoder.finish().unwrap();

    let mut reader = StreamingZeroCopyFastaReader::from_bytes(compressed, 8).unwrap();
    let (header, sequence, total) = reader.next_record().unwrap().unwrap();
    assert_eq!(header.as_slice(), b"packed");
    assert_eq!(sequence.as_slice(), b"ATCGATCGATCGATCG");
    assert_eq!(total, 16);
    assert!(reader.next_record().is_none());
}

#[test]
fn test_read_all_no_partial_result_fasta() {
    // the second record's header is not UTF-8, so the whole drain fails
    let mut content = b">a\nAT\n>".to_vec();
    content.extend_from_slice(&[0xff, 0xfe]);
    content.extend_from_slice(b"\nCG\n");
    let mut reader = FastaReader::from_reader_with_capacity(content, 64).unwrap();
    let err = reader.read_all().unwrap_err();
    assert_eq!(err, ParseError::InvalidUtf8);
}

#[test]
fn test_read_all_no_partial_result_fastq() {
    // the second record's separator carries the wrong identifier
    let content = b"@a\nAT\n+\nII\n@b\nCG\n+x\nJJ\n".to_vec();
    let mut reader = FastqReader::from_reader_with_capacity(content, 64).unwrap();
    let err = reader.read_all().unwrap_err();
    assert_eq!(err, ParseError::PlusLineMismatch);
}

#[test]
fn test_quality_never_shorter_or_longer() {
    // a record is only ever emitted with equal sequence and quality length
    let content = b"@a\nATCGAT\n+\nII\nJJ\nKK\n@b\nC\n+\nL\n".to_vec();
    let mut reader = FastqReader::from_reader_with_capacity(content, 64).unwrap();
    let records = reader.read_all().unwrap();
    assert_eq!(records.len(), 2);
    for r in &records {
        assert_eq!(r.sequence.len(), r.quality.len());
    }
    assert_eq!(records[0].quality, "IIJJKK");
    assert_eq!(records[1].quality, "L");
}
