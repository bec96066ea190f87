use bgzip::{BGZFReader, BGZFWriter, Compression};
use seekindex::record::{copy_stripped, find_nth_field};
use seekindex::{
    index_fasta, index_fastq, index_tabular, search, search_all, search_candidates,
};
use std::io::{BufRead, Cursor, Write};

fn csv_source(count: u32) -> Vec<u8> {
    let mut v = Vec::new();
    for i in 0..count {
        v.extend_from_slice(format!("1,prova{},0,0,0,eruheigrnei,Lprova{}\n", i, i).as_bytes());
    }
    v
}

fn csv_line(i: u32) -> Vec<u8> {
    format!("1,prova{},0,0,0,eruheigrnei,Lprova{}\n", i, i).into_bytes()
}

#[test]
fn tabular_tiny_tight_memory() {
    let src = csv_source(100);
    let index = index_tabular(&src, 1, b',', 0, 6).unwrap();
    for i in 0..100u32 {
        let key = format!("prova{}", i).into_bytes();
        let found = search(&key, &index, &src).unwrap();
        assert_eq!(found, Some(csv_line(i)));
    }
    let missing = b"NOT_EXISTING".to_vec();
    assert_eq!(search(&missing, &index, &src).unwrap(), None);
}

#[test]
fn tabular_alternate_column() {
    let src = csv_source(100);
    let index = index_tabular(&src, 6, b',', 0, 10000).unwrap();
    for i in 0..100u32 {
        let key = format!("Lprova{}", i).into_bytes();
        assert_eq!(search(&key, &index, &src).unwrap(), Some(csv_line(i)));
        let wrong = format!("prova{}", i).into_bytes();
        assert_eq!(search(&wrong, &index, &src).unwrap(), None);
    }
    let missing = b"NOT_EXISTING".to_vec();
    assert_eq!(search(&missing, &index, &src).unwrap(), None);
}

#[test]
fn slab_sizes_retrieve_the_same_keys() {
    let src = csv_source(50);
    let tight = index_tabular(&src, 1, b',', 0, 1).unwrap();
    let single_pass = index_tabular(&src, 1, b',', 0, 100000).unwrap();
    for i in 0..50u32 {
        let key = format!("prova{}", i).into_bytes();
        let a = search(&key, &tight, &src).unwrap();
        let b = search(&key, &single_pass, &src).unwrap();
        assert_eq!(a, b);
        assert!(a.is_some());
    }
    let missing = b"NOT_EXISTING".to_vec();
    assert_eq!(search(&missing, &tight, &src).unwrap(), None);
    assert_eq!(search(&missing, &single_pass, &src).unwrap(), None);
}

#[test]
fn fasta_by_id_and_by_sequence() {
    let mut src = Vec::new();
    for i in 0..100u32 {
        src.extend_from_slice(
            format!(">prova{}\nGGTCAGCCCTCAAGGGAATCTGAACTCCTCCA{}\n", i, i).as_bytes(),
        );
    }
    let by_id = index_fasta(&src, false, 0, 10000).unwrap();
    for i in 0..100u32 {
        let key = format!(">prova{}", i).into_bytes();
        let rec = search(&key, &by_id, &src).unwrap().unwrap();
        let expected =
            format!(">prova{}\nGGTCAGCCCTCAAGGGAATCTGAACTCCTCCA{}\n", i, i).into_bytes();
        assert_eq!(rec, expected);
    }
    let missing = b"NOT_EXISTING".to_vec();
    assert_eq!(search(&missing, &by_id, &src).unwrap(), None);
    let by_seq = index_fasta(&src, true, 0, 10000).unwrap();
    for i in 0..100u32 {
        let key = format!("GGTCAGCCCTCAAGGGAATCTGAACTCCTCCA{}", i).into_bytes();
        assert!(search(&key, &by_seq, &src).unwrap().is_some());
    }
    assert_eq!(search(&missing, &by_seq, &src).unwrap(), None);
}

#[test]
fn fastq_by_id_and_by_sequence() {
    let mut src = Vec::new();
    for i in 0..100u32 {
        src.extend_from_slice(
            format!(
                "@prova{}\nGGTCAGCCCTCAAGGGAATCTGAACTCCTCCA{}\n+\n!''*((((***+))%%%++)(%%%%).1***-+*''))**55CCF>>>>>>CCCCCCC65\n",
                i, i
            )
            .as_bytes(),
        );
    }
    let by_id = index_fastq(&src, false, 0, 1000).unwrap();
    for i in 0..100u32 {
        let key = format!("@prova{}", i).into_bytes();
        assert!(search(&key, &by_id, &src).unwrap().is_some());
    }
    let missing = b"NOT_EXISTING".to_vec();
    assert_eq!(search(&missing, &by_id, &src).unwrap(), None);
    let by_seq = index_fastq(&src, true, 0, 1000).unwrap();
    for i in 0..100u32 {
        let key = format!("GGTCAGCCCTCAAGGGAATCTGAACTCCTCCA{}", i).into_bytes();
        assert!(search(&key, &by_seq, &src).unwrap().is_some());
    }
    assert_eq!(search(&missing, &by_seq, &src).unwrap(), None);
}

#[test]
fn collision_stress_single_slot() {
    let src = csv_source(10);
    let index = index_tabular(&src, 1, b',', 1, 1000).unwrap();
    for i in 0..10u32 {
        let key = format!("prova{}", i).into_bytes();
        assert_eq!(search(&key, &index, &src).unwrap(), Some(csv_line(i)));
        // every key collides: the one chain holds all ten candidates
        let cands = search_candidates(&key, &index).unwrap();
        assert_eq!(cands.len(), 10);
    }
    let missing = b"NOT_EXISTING".to_vec();
    assert_eq!(search(&missing, &index, &src).unwrap(), None);
}

#[test]
fn duplicate_keys_first_match_and_all() {
    let mut src = Vec::new();
    src.extend_from_slice(b"k,first\n");
    src.extend_from_slice(b"k,second\n");
    src.extend_from_slice(b"other,third\n");
    let index = index_tabular(&src, 0, b',', 0, 100).unwrap();
    let key = b"k".to_vec();
    // the default lookup stops at the first verified match
    assert_eq!(search(&key, &index, &src).unwrap(), Some(b"k,first\n".to_vec()));
    // the duplicates surface emits every record sharing the key, in chain order
    let all = search_all(&key, &index, &src).unwrap();
    assert_eq!(all, vec![b"k,first\n".to_vec(), b"k,second\n".to_vec()]);
    let other = b"other".to_vec();
    assert_eq!(search_all(&other, &index, &src).unwrap(), vec![b"other,third\n".to_vec()]);
}

#[test]
fn bgzf_tabular_virtual_offsets() {
    // write the source through the block-compressed writer
    let mut compressed: Vec<u8> = Vec::new();
    {
        let mut writer = BGZFWriter::new(&mut compressed, Compression::default());
        for i in 0..100u32 {
            writer
                .write_all(
                    format!("1,prova{},0,0,0,eruheigrneiugrheriuhg,ergbneirgbeiugberiugberiuhg\n", i)
                        .as_bytes(),
                )
                .unwrap();
        }
        writer.close().unwrap();
    }
    // stream records: virtual offset of each record start, and its key
    let mut reader = BGZFReader::new(Cursor::new(&compressed[..])).unwrap();
    let mut records: Vec<(u64, Vec<u8>)> = Vec::new();
    let mut first_lines: Vec<(u64, Vec<u8>)> = Vec::new();
    loop {
        let pos = reader.bgzf_pos();
        let mut line = String::new();
        if reader.read_line(&mut line).unwrap() == 0 {
            break;
        }
        let bytes = line.into_bytes();
        let (a, b) = find_nth_field(&bytes, b',', 0, bytes.len(), 1).unwrap();
        let key = copy_stripped(&bytes, a, b);
        first_lines.push((pos, bytes));
        records.push((pos, key));
    }
    assert_eq!(records.len(), 100);
    let index = seekindex::index(&records, 0, 0, b',', 1, 1000).unwrap();
    // every key is retrievable through a seek to its stored virtual offset,
    // and the bytes read back there are the bytes the builder saw
    for i in 0..100u32 {
        let key = format!("prova{}", i).into_bytes();
        let cands = search_candidates(&key, &index).unwrap();
        let mut found = false;
        for off in &cands {
            reader.bgzf_seek(*off).unwrap();
            let mut line = String::new();
            reader.read_line(&mut line).unwrap();
            let bytes = line.into_bytes();
            let (a, b) = find_nth_field(&bytes, b',', 0, bytes.len(), 1).unwrap();
            if copy_stripped(&bytes, a, b) == key {
                let original = first_lines.iter().find(|(o, _)| o == off).unwrap();
                assert_eq!(bytes, original.1);
                found = true;
                break;
            }
        }
        assert!(found);
    }
    let missing = b"NOT_EXISTING".to_vec();
    let cands = search_candidates(&missing, &index).unwrap();
    for off in &cands {
        reader.bgzf_seek(*off).unwrap();
        let mut line = String::new();
        reader.read_line(&mut line).unwrap();
        let bytes = line.into_bytes();
        let (a, b) = find_nth_field(&bytes, b',', 0, bytes.len(), 1).unwrap();
        assert_ne!(copy_stripped(&bytes, a, b), missing);
    }
}

#[test]
fn crlf_line_endings_strip_from_keys() {
    let src = b"alpha,1\r\nbeta,2\r\n".to_vec();
    let index = index_tabular(&src, 0, b',', 0, 10).unwrap();
    // column 0 carries no terminator; column 1 would
    let key = b"alpha".to_vec();
    assert_eq!(search(&key, &index, &src).unwrap(), Some(b"alpha,1\r\n".to_vec()));
    let by_last = index_tabular(&src, 1, b',', 0, 10).unwrap();
    // the trailing carriage return and line feed are stripped from the key
    let key2 = b"2".to_vec();
    assert_eq!(search(&key2, &by_last, &src).unwrap(), Some(b"beta,2\r\n".to_vec()));
}

#[test]
fn hashmap_larger_than_record_count() {
    let src = csv_source(3);
    let index = index_tabular(&src, 1, b',', 50, 100).unwrap();
    assert_eq!(index.len(), 13 + 50 * 8);
    for i in 0..3u32 {
        let key = format!("prova{}", i).into_bytes();
        assert_eq!(search(&key, &index, &src).unwrap(), Some(csv_line(i)));
    }
}

#[test]
fn fasta_with_unterminated_last_record() {
    let src = b">r1\nACGT\n>r2".to_vec();
    let index = index_fasta(&src, false, 0, 10).unwrap();
    let k1 = b">r1".to_vec();
    assert_eq!(search(&k1, &index, &src).unwrap(), Some(b">r1\nACGT\n".to_vec()));
    let k2 = b">r2".to_vec();
    assert_eq!(search(&k2, &index, &src).unwrap(), Some(b">r2".to_vec()));
}

#[test]
fn triple_duplicates_follow_chain_order() {
    let src = b"k,a\nk,b\nk,c\n".to_vec();
    let index = index_tabular(&src, 0, b',', 0, 10).unwrap();
    let key = b"k".to_vec();
    // two records make a pair whose terminator is the newer one; a third
    // lands in front: the chain visits the third, then the first, then the
    // second
    let all = search_all(&key, &index, &src).unwrap();
    assert_eq!(all, vec![b"k,c\n".to_vec(), b"k,a\n".to_vec(), b"k,b\n".to_vec()]);
    assert_eq!(search(&key, &index, &src).unwrap(), Some(b"k,c\n".to_vec()));
}

#[test]
fn block_buffer_flushes_mid_build() {
    // more than 25600 collisions: the staged pairs cross the 400 KiB
    // buffer, so the builder must hand out a blocks write before the slab
    // ends
    let count = 30000u32;
    let mut src = Vec::new();
    for i in 0..count {
        src.extend_from_slice(format!("w{},x\n", i).as_bytes());
    }
    let index = index_tabular(&src, 0, b',', 1, 10).unwrap();
    // one slot, one chain of every record
    let first = b"w0".to_vec();
    let cands = search_candidates(&first, &index).unwrap();
    assert_eq!(cands.len(), count as usize);
    assert_eq!(search(&first, &index, &src).unwrap(), Some(b"w0,x\n".to_vec()));
    let last = format!("w{}", count - 1).into_bytes();
    assert!(search(&last, &index, &src).unwrap().is_some());
    let missing = b"NOT_EXISTING".to_vec();
    assert_eq!(search(&missing, &index, &src).unwrap(), None);
}
