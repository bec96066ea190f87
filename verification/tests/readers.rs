use seekindex::{FastqInputReader, MultiFastaInputReader, TabularInputReader};

const END: u64 = u64::MAX;

#[test]
fn tabular_reader_streams_offsets_and_keys() {
    let src = b"a,one\nbb,two\nccc,three\n".to_vec();
    let mut reader = TabularInputReader::new(b',', 0);
    assert_eq!(reader.get_types_for_header(), (0, b',', 0));
    assert_eq!(reader.num_entries(&src), 3);
    let mut buf: Vec<u8> = Vec::new();
    assert_eq!(reader.get_entry(&src, &mut buf).unwrap(), 0);
    assert_eq!(buf, b"a".to_vec());
    assert_eq!(reader.get_entry(&src, &mut buf).unwrap(), 6);
    assert_eq!(buf, b"bb".to_vec());
    assert_eq!(reader.get_entry(&src, &mut buf).unwrap(), 13);
    assert_eq!(buf, b"ccc".to_vec());
    assert_eq!(reader.get_entry(&src, &mut buf).unwrap(), END);
    reader.reset();
    assert_eq!(reader.get_entry(&src, &mut buf).unwrap(), 0);
    assert_eq!(buf, b"a".to_vec());
    let mut out: Vec<u8> = Vec::new();
    assert!(reader.test_and_return_entry(&src, 6, &b"bb".to_vec(), &mut out));
    assert_eq!(out, b"bb,two\n".to_vec());
    assert!(!reader.test_and_return_entry(&src, 6, &b"a".to_vec(), &mut out));
}

#[test]
fn tabular_reader_last_column_key_has_no_terminator() {
    let src = b"x,1,last\n".to_vec();
    let mut reader = TabularInputReader::new(b',', 2);
    let mut buf: Vec<u8> = Vec::new();
    assert_eq!(reader.get_entry(&src, &mut buf).unwrap(), 0);
    // the trailing line feed is stripped from the key
    assert_eq!(buf, b"last".to_vec());
    let mut out: Vec<u8> = Vec::new();
    assert!(reader.test_and_return_entry(&src, 0, &b"last".to_vec(), &mut out));
}

#[test]
fn fasta_reader_by_id_and_sequence() {
    let src = b">r1\nACGT\n>r2\nGGCC\n".to_vec();
    let mut by_id = MultiFastaInputReader::new(false);
    assert_eq!(by_id.get_types_for_header(), (1, 0, 0));
    assert_eq!(by_id.num_entries(&src), 2);
    let mut buf: Vec<u8> = Vec::new();
    assert_eq!(by_id.get_entry(&src, &mut buf).unwrap(), 0);
    assert_eq!(buf, b">r1".to_vec());
    assert_eq!(by_id.get_entry(&src, &mut buf).unwrap(), 9);
    assert_eq!(buf, b">r2".to_vec());
    assert_eq!(by_id.get_entry(&src, &mut buf).unwrap(), END);
    let mut by_seq = MultiFastaInputReader::new(true);
    assert_eq!(by_seq.get_types_for_header(), (2, 0, 0));
    assert_eq!(by_seq.get_entry(&src, &mut buf).unwrap(), 0);
    assert_eq!(buf, b"ACGT".to_vec());
    let mut out: Vec<u8> = Vec::new();
    assert!(by_seq.test_and_return_entry(&src, 9, &b"GGCC".to_vec(), &mut out));
    assert_eq!(out, b">r2\nGGCC\n".to_vec());
    assert!(!by_id.test_and_return_entry(&src, 9, &b"GGCC".to_vec(), &mut out));
}

#[test]
fn fastq_reader_by_id_and_sequence() {
    let src = b"@r1\nACGT\n+\n!!!!\n@r2\nGGCC\n+\n####\n".to_vec();
    let mut by_id = FastqInputReader::new(false);
    assert_eq!(by_id.get_types_for_header(), (3, 0, 0));
    assert_eq!(by_id.num_entries(&src), 2);
    let mut buf: Vec<u8> = Vec::new();
    assert_eq!(by_id.get_entry(&src, &mut buf).unwrap(), 0);
    assert_eq!(buf, b"@r1".to_vec());
    assert_eq!(by_id.get_entry(&src, &mut buf).unwrap(), 16);
    assert_eq!(buf, b"@r2".to_vec());
    assert_eq!(by_id.get_entry(&src, &mut buf).unwrap(), END);
    let mut by_seq = FastqInputReader::new(true);
    assert_eq!(by_seq.get_types_for_header(), (4, 0, 0));
    assert_eq!(by_seq.get_entry(&src, &mut buf).unwrap(), 0);
    assert_eq!(buf, b"ACGT".to_vec());
    let mut out: Vec<u8> = Vec::new();
    assert!(by_seq.test_and_return_entry(&src, 16, &b"GGCC".to_vec(), &mut out));
    assert_eq!(out, b"@r2\nGGCC\n+\n####\n".to_vec());
    assert!(!by_id.test_and_return_entry(&src, 16, &b"ACGT".to_vec(), &mut out));
}
