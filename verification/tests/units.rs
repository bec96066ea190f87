use seekindex::codec::{push_be64, read_be64};
use seekindex::header::Header;
use seekindex::index_structure::{IndexEntry, IndexEntryType};
use seekindex::{hash_function, index_tabular, search, search_candidates, IndexError};

fn tabular_source(lines: &[&str]) -> Vec<u8> {
    let mut v = Vec::new();
    for l in lines {
        v.extend_from_slice(l.as_bytes());
        v.push(b'\n');
    }
    v
}

#[test]
fn entry_direct_roundtrip() {
    let e = IndexEntry::new_direct(12345);
    assert!(e.get_type() == IndexEntryType::Direct);
    assert_eq!(e.get_offset(), 12345);
    let b = e.to_be_bytes();
    assert_eq!(b, [0, 0, 0, 0, 0, 0, 48, 57]);
    let e2 = IndexEntry::from_be_bytes(b);
    assert!(e2.get_type() == IndexEntryType::Direct);
    assert_eq!(e2.get_offset(), 12345);
}

#[test]
fn entry_indirect_sets_high_bit() {
    let e = IndexEntry::new_indirect(21);
    assert!(e.get_type() == IndexEntryType::Indirect);
    assert_eq!(e.get_offset(), 21);
    let b = e.to_be_bytes();
    assert_eq!(b[0], 0x80);
    assert_eq!(b[7], 21);
}

#[test]
fn entry_null_is_all_ones() {
    let e = IndexEntry::new_null();
    assert!(e.get_type() == IndexEntryType::NULL);
    assert_eq!(e.to_be_bytes(), [0xFF; 8]);
}

#[test]
fn header_round_trip() {
    let h = Header::new(0, 100, 0, b',', 1);
    assert_eq!(h.get_header_size(), 13);
    let bytes = h.to_bytes();
    assert_eq!(bytes.len(), 13);
    assert_eq!(bytes[0], 13);
    assert_eq!(bytes[1], 0);
    assert_eq!(&bytes[2..10], &[0, 0, 0, 0, 0, 0, 0, 100]);
    assert_eq!(bytes[10], 0);
    assert_eq!(bytes[11], b',');
    assert_eq!(bytes[12], 1);
    let h2 = Header::from_bytes(&bytes).unwrap();
    assert_eq!(h2.version, 0);
    assert_eq!(h2.hashmap_size, 100);
    assert_eq!(h2.index_type, 0);
    assert_eq!(h2.separator, b',');
    assert_eq!(h2.column, 1);
}

#[test]
fn header_rejects_unknown_version() {
    let h = Header::new(0, 5, 1, 0, 0);
    let mut bytes = h.to_bytes();
    bytes[1] = 9;
    assert_eq!(Header::from_bytes(&bytes), Err(IndexError::FormatError));
}

#[test]
fn header_rejects_short_buffer() {
    let bytes = vec![13u8, 0, 0];
    assert_eq!(Header::from_bytes(&bytes), Err(IndexError::FormatError));
}

#[test]
fn be64_codec_exact() {
    let mut v: Vec<u8> = Vec::new();
    push_be64(&mut v, 0x0102_0304_0506_0708);
    assert_eq!(v, vec![1, 2, 3, 4, 5, 6, 7, 8]);
    assert_eq!(read_be64(&v, 0), 0x0102_0304_0506_0708);
}

#[test]
fn hash_is_deterministic_and_not_identity() {
    let a = b"prova1".to_vec();
    let b = b"prova2".to_vec();
    assert_eq!(hash_function(&a, 1000), hash_function(&a, 1000));
    assert!(hash_function(&a, 1000) < 1000);
    // a constant or identity hash would almost surely fail these
    assert_ne!(hash_function(&a, 100000), hash_function(&b, 100000));
    let single = vec![97u8];
    assert_ne!(hash_function(&single, 100000), 97);
}

#[test]
fn single_record_writes_one_direct_slot_and_no_blocks() {
    let src = tabular_source(&["a,b"]);
    let file = index_tabular(&src, 0, b',', 0, 10).unwrap();
    // header + one slot, no block pairs
    assert_eq!(file.len(), 13 + 8);
    // the slot is Direct(0): the record starts at offset 0
    assert_eq!(&file[13..21], &[0u8; 8]);
}

#[test]
fn rebuild_is_byte_identical() {
    let src = tabular_source(&["x,1", "y,2", "z,3", "x,4"]);
    let f1 = index_tabular(&src, 0, b',', 0, 2).unwrap();
    let f2 = index_tabular(&src, 0, b',', 0, 2).unwrap();
    assert_eq!(f1, f2);
}

#[test]
fn empty_source_is_config_error() {
    let src: Vec<u8> = Vec::new();
    assert_eq!(index_tabular(&src, 0, b',', 0, 10), Err(IndexError::ConfigError));
}

#[test]
fn zero_slab_is_config_error() {
    let src = tabular_source(&["a,b"]);
    assert_eq!(index_tabular(&src, 0, b',', 0, 0), Err(IndexError::ConfigError));
}

#[test]
fn missing_column_is_config_error() {
    let src = tabular_source(&["a,b", "c"]);
    assert_eq!(index_tabular(&src, 5, b',', 0, 10), Err(IndexError::ConfigError));
}

#[test]
fn oversized_hashmap_is_bounds_error() {
    let src = tabular_source(&["a,b"]);
    assert_eq!(index_tabular(&src, 0, b',', u64::MAX, 10), Err(IndexError::BoundsError));
}

#[test]
fn garbage_index_is_format_error() {
    let junk = vec![1u8, 2, 3];
    let key = b"k".to_vec();
    assert_eq!(search_candidates(&key, &junk), Err(IndexError::FormatError));
    let src = tabular_source(&["a,b"]);
    assert_eq!(search(&key, &junk, &src), Err(IndexError::FormatError));
}

#[test]
fn truncated_hashmap_region_is_format_error() {
    let src = tabular_source(&["a,b", "c,d", "e,f"]);
    let mut file = index_tabular(&src, 0, b',', 0, 10).unwrap();
    file.truncate(20);
    let key = b"a".to_vec();
    assert_eq!(search_candidates(&key, &file), Err(IndexError::FormatError));
}

#[test]
fn unknown_index_type_is_format_error() {
    let src = tabular_source(&["a,b"]);
    let mut file = index_tabular(&src, 0, b',', 0, 10).unwrap();
    file[10] = 7;
    let key = b"a".to_vec();
    assert_eq!(search(&key, &file, &src), Err(IndexError::FormatError));
}
