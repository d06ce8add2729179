use prseq::{FastaReader, FastaRecord, StreamingZeroCopyFastaReader, ZeroCopyFastaReader};

fn test_fasta_content() -> Vec<u8> {
    b">seq1 description one\nATCGATCG\nGCTAGCTA\n>seq2 description two\nGGGGCCCC\n".to_vec()
}

fn collect_fasta(mut reader: FastaReader) -> Vec<FastaRecord> {
    let mut records = Vec::new();
    while let Some(result) = reader.next() {
        records.push(result.unwrap());
    }
    records
}

#[test]
fn test_fasta_reader_iterator() {
    let reader = FastaReader::from_reader_with_capacity(test_fasta_content(), 8192).unwrap();

    let records: Vec<FastaRecord> = collect_fasta(reader);

    assert_eq!(records.len(), 2);
    assert_eq!(records[0].header, "seq1 description one");
    assert_eq!(records[0].sequence, "ATCGATCGGCTAGCTA");
    assert_eq!(records[1].header, "seq2 description two");
    assert_eq!(records[1].sequence, "GGGGCCCC");
}

#[test]
fn test_read_fasta_convenience() {
    let mut reader = FastaReader::from_reader_with_capacity(test_fasta_content(), 8192).unwrap();
    let records = reader.read_all().unwrap();

    assert_eq!(records.len(), 2);
    assert_eq!(records[0].sequence, "ATCGATCGGCTAGCTA");
}

#[test]
fn test_invalid_fasta() {
    let content = b"INVALID LINE\n".to_vec();

    let mut reader = FastaReader::from_reader_with_capacity(content, 8192).unwrap();
    let result = reader.read_all();

    assert!(result.is_err());
}

#[test]
fn test_zero_copy_fasta_reader() {
    let mut reader = ZeroCopyFastaReader::from_bytes(test_fasta_content(), 1024).unwrap();

    let mut records = Vec::new();
    while let Some(result) = reader.next_record() {
        records.push(result.unwrap());
    }

    assert_eq!(records.len(), 2);

    let (header1, seq_lines1, total_len1) = &records[0];
    assert_eq!(header1.as_slice(), b"seq1 description one");
    assert_eq!(seq_lines1.len(), 2);
    assert_eq!(seq_lines1[0].as_slice(), b"ATCGATCG");
    assert_eq!(seq_lines1[1].as_slice(), b"GCTAGCTA");
    assert_eq!(*total_len1, 16); // 8 + 8

    let (header2, seq_lines2, total_len2) = &records[1];
    assert_eq!(header2.as_slice(), b"seq2 description two");
    assert_eq!(seq_lines2.len(), 1);
    assert_eq!(seq_lines2[0].as_slice(), b"GGGGCCCC");
    assert_eq!(*total_len2, 8);
}

#[test]
fn test_zero_copy_iterator_interface() {
    let mut reader = ZeroCopyFastaReader::from_bytes(test_fasta_content(), 1024).unwrap();

    let mut records = Vec::new();
    while let Some(result) = reader.next_record() {
        records.push(result.unwrap());
    }

    assert_eq!(records.len(), 2);
    assert_eq!(records[0].0.as_slice(), b"seq1 description one");
    assert_eq!(records[0].2, 16); // total length
    assert_eq!(records[1].0.as_slice(), b"seq2 description two");
    assert_eq!(records[1].2, 8); // total length
}

#[test]
fn test_zero_copy_large_sequence_hint() {
    let mut reader = ZeroCopyFastaReader::from_bytes(test_fasta_content(), 50000).unwrap();

    // Should still work with a large sequence hint
    let record = reader.next_record().unwrap().unwrap();
    assert_eq!(record.0.as_slice(), b"seq1 description one");
    assert_eq!(record.2, 16); // total length
}

#[test]
fn test_zero_copy_empty_lines() {
    let content = b">test header\n\nATCGATCG\n\nGCTAGCTA\n".to_vec();

    let mut reader = ZeroCopyFastaReader::from_bytes(content, 1024).unwrap();
    let (header, seq_lines, total_len) = reader.next_record().unwrap().unwrap();

    assert_eq!(header.as_slice(), b"test header");
    // Empty lines should be skipped
    assert_eq!(seq_lines.len(), 2);
    assert_eq!(seq_lines[0].as_slice(), b"ATCGATCG");
    assert_eq!(seq_lines[1].as_slice(), b"GCTAGCTA");
    assert_eq!(total_len, 16); // 8 + 8
}

#[test]
fn test_streaming_zero_copy_fasta_reader() {
    let mut reader = StreamingZeroCopyFastaReader::from_bytes(test_fasta_content(), 1024).unwrap();

    let mut records = Vec::new();
    while let Some(result) = reader.next_record() {
        let (header, sequence, total_len) = result.unwrap();
        // Copy the data since it's only valid until the next call
        records.push((header.to_vec(), sequence.to_vec(), total_len));
    }

    assert_eq!(records.len(), 2);

    assert_eq!(records[0].0, b"seq1 description one");
    assert_eq!(records[0].1, b"ATCGATCGGCTAGCTA"); // Concatenated sequence
    assert_eq!(records[0].2, 16);

    assert_eq!(records[1].0, b"seq2 description two");
    assert_eq!(records[1].1, b"GGGGCCCC");
    assert_eq!(records[1].2, 8);
}

#[test]
fn test_streaming_zero_copy_small_buffer() {
    // Very small buffer
    let mut reader = StreamingZeroCopyFastaReader::from_bytes(test_fasta_content(), 32).unwrap();

    let mut count = 0;
    while let Some(result) = reader.next_record() {
        let (header, sequence, total_len) = result.unwrap();
        count += 1;

        if count == 1 {
            assert_eq!(header.as_slice(), b"seq1 description one");
            assert_eq!(sequence.as_slice(), b"ATCGATCGGCTAGCTA");
            assert_eq!(total_len, 16);
        } else if count == 2 {
            assert_eq!(header.as_slice(), b"seq2 description two");
            assert_eq!(sequence.as_slice(), b"GGGGCCCC");
            assert_eq!(total_len, 8);
        }
    }

    assert_eq!(count, 2);
}

#[test]
fn test_streaming_zero_copy_iterator() {
    let mut reader = StreamingZeroCopyFastaReader::from_bytes(test_fasta_content(), 1024).unwrap();

    let mut records = Vec::new();
    while let Some(result) = reader.next_record() {
        let (header, sequence, total_len) = result.unwrap();
        // Copy the data since it's only valid until the next iteration
        records.push((header.to_vec(), sequence.to_vec(), total_len));
    }

    assert_eq!(records.len(), 2);
    assert_eq!(records[0].0, b"seq1 description one");
    assert_eq!(records[1].0, b"seq2 description two");
}
