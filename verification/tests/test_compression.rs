// Tests for compression sniffing on the FASTA reader
use prseq::FastaReader;
use std::io::Write;

#[test]
fn test_basic_reading() {
    let content = b">seq1 test\nATCG\nGCTA\n>seq2 test\nGGCC\n".to_vec();
    let mut reader = FastaReader::from_reader_with_capacity(content, 1024).unwrap();

    let record1 = reader.next().unwrap().unwrap();
    assert_eq!(record1.header, "seq1 test");
    assert_eq!(record1.sequence, "ATCGGCTA");

    let record2 = reader.next().unwrap().unwrap();
    assert_eq!(record2.header, "seq2 test");
    assert_eq!(record2.sequence, "GGCC");

    assert!(reader.next().is_none());
}

#[test]
fn test_gzip_compression() {
    let content = b">seq1 compressed\nATCG\n>seq2 compressed\nGGCC\n";
    let mut encoder = flate2::write::GzEncoder::new(Vec::new(), flate2::Compression::default());
    encoder.write_all(content).unwrap();
    let compressed = encoder.finish().unwrap();

    let mut reader = FastaReader::from_reader_with_capacity(compressed, 1024).unwrap();

    let record1 = reader.next().unwrap().unwrap();
    assert_eq!(record1.header, "seq1 compressed");
    assert_eq!(record1.sequence, "ATCG");

    let record2 = reader.next().unwrap().unwrap();
    assert_eq!(record2.header, "seq2 compressed");
    assert_eq!(record2.sequence, "GGCC");

    assert!(reader.next().is_none());
}

#[test]
fn test_bzip2_compression() {
    let content = b">seq1 bz2\nATCG\n>seq2 bz2\nGGCC\n";
    let mut encoder = bzip2::write::BzEncoder::new(Vec::new(), bzip2::Compression::default());
    encoder.write_all(content).unwrap();
    let compressed = encoder.finish().unwrap();

    let mut reader = FastaReader::from_reader_with_capacity(compressed, 1024).unwrap();

    let record1 = reader.next().unwrap().unwrap();
    assert_eq!(record1.header, "seq1 bz2");
    assert_eq!(record1.sequence, "ATCG");

    let record2 = reader.next().unwrap().unwrap();
    assert_eq!(record2.header, "seq2 bz2");
    assert_eq!(record2.sequence, "GGCC");

    assert!(reader.next().is_none());
}

#[test]
fn test_file_reading() {
    let content = b">seq1 file test\nATCG\nGCTA\n>seq2 file test\nGGCC\n".to_vec();

    let mut reader = FastaReader::from_reader_with_capacity(content, 8192).unwrap();

    let record1 = reader.next().unwrap().unwrap();
    assert_eq!(record1.header, "seq1 file test");
    assert_eq!(record1.sequence, "ATCGGCTA");

    let record2 = reader.next().unwrap().unwrap();
    assert_eq!(record2.header, "seq2 file test");
    assert_eq!(record2.sequence, "GGCC");

    assert!(reader.next().is_none());
}
