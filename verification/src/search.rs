//! The lookup side: decoding the regions of an index file image, and the
//! walk of one slot's collision chain down to its candidate source offsets.

use vstd::prelude::*;
use crate::{IndexError, INDIRECT_BIT, NULL_ENTRY};
use crate::chain::{
    entry_payload, walk_chain, BlockPair,
};
use crate::codec::{
    be64_of, lemma_be64_of_bytes, lemma_pairs_bytes_index, lemma_pairs_bytes_len,
    lemma_slots_bytes_index, lemma_slots_bytes_len, pairs_bytes, read_be64, slots_bytes,
};
use crate::hash::{hash_function, spec_hash};
use crate::header::{spec_header_bytes, spec_header_decode, Header, CURRENT_VERSION, HEADER_LEN_V0};
use crate::record::{
    kind_of_header, spec_kind_of_header, spec_verify, test_and_return_entry, SourceKind,
};

verus! {

/// File offset of the blocks region in a file with `n` slots.
pub open spec fn spec_blocks_start(n: int) -> int {
    HEADER_LEN_V0 + 8 * n
}

/// The raw value of slot `h`, read from the file image.
pub open spec fn file_slot(file: Seq<u8>, h: int) -> u64 {
    be64_of(file.subrange(HEADER_LEN_V0 + 8 * h, HEADER_LEN_V0 + 8 * h + 8))
}

/// How many whole 16-byte pairs the blocks region of the file holds.
pub open spec fn file_pairs_count(file: Seq<u8>, n: int) -> int {
    (file.len() - spec_blocks_start(n)) / 16
}

/// Pair `j` of the blocks region, read from the file image.
pub open spec fn file_pair(file: Seq<u8>, n: int, j: int) -> BlockPair {
    let p = spec_blocks_start(n) + 16 * j;
    (be64_of(file.subrange(p, p + 8)), be64_of(file.subrange(p + 8, p + 16)))
}

/// The whole blocks region of the file image, as pairs.
pub open spec fn file_pairs(file: Seq<u8>, n: int) -> Seq<BlockPair> {
    Seq::new(file_pairs_count(file, n) as nat, |j: int| file_pair(file, n, j))
}

/// A file assembled from a header and the two encoded regions reads back
/// region by region: the header decodes, every slot reads back, and the
/// pairs read back exactly.
pub proof fn lemma_file_regions(h: Header, slots: Seq<u64>, pairs: Seq<BlockPair>)
    requires
        h.version == CURRENT_VERSION,
        slots.len() == h.hashmap_size,
    ensures
        ({
            let file = spec_header_bytes(h) + slots_bytes(slots) + pairs_bytes(pairs);
            let n = h.hashmap_size as int;
            &&& spec_header_decode(file) == Some(h)
            &&& forall|i: int| 0 <= i < n ==> #[trigger] file_slot(file, i) == slots[i]
            &&& file_pairs(file, n) == pairs
            &&& file.len() == spec_blocks_start(n) + 16 * pairs.len()
        }),
{
    let file = spec_header_bytes(h) + slots_bytes(slots) + pairs_bytes(pairs);
    let n = h.hashmap_size as int;
    let hb = spec_header_bytes(h);
    lemma_slots_bytes_len(slots);
    lemma_pairs_bytes_len(pairs);
    lemma_be64_of_bytes(h.hashmap_size);
    assert(file.subrange(2, 10) =~= crate::codec::be64_bytes(h.hashmap_size));
    assert(spec_header_decode(file) == Some(h));
    assert forall|i: int| 0 <= i < n implies #[trigger] file_slot(file, i) == slots[i] by {
        lemma_slots_bytes_index(slots, i);
        assert(file.subrange(HEADER_LEN_V0 + 8 * i, HEADER_LEN_V0 + 8 * i + 8) =~= slots_bytes(
            slots,
        ).subrange(8 * i, 8 * i + 8));
        lemma_be64_of_bytes(slots[i]);
        assert(be64_of(crate::codec::be64_bytes(slots[i])) == slots[i]);
    }
    assert(file_pairs_count(file, n) == pairs.len()) by {
        let d = file.len() - spec_blocks_start(n);
        assert(d == 16 * pairs.len());
        assert(d / 16 == pairs.len()) by (nonlinear_arith)
            requires
                d == 16 * pairs.len(),
        ;
    }
    assert forall|j: int| 0 <= j < pairs.len() implies #[trigger] file_pair(file, n, j)
        == pairs[j] by {
        lemma_pairs_bytes_index(pairs, j);
        let p = spec_blocks_start(n) + 16 * j;
        assert(file.subrange(p, p + 8) =~= pairs_bytes(pairs).subrange(16 * j, 16 * j + 8));
        assert(file.subrange(p + 8, p + 16) =~= pairs_bytes(pairs).subrange(
            16 * j + 8,
            16 * j + 16,
        ));
        lemma_be64_of_bytes(pairs[j].0);
        lemma_be64_of_bytes(pairs[j].1);
    }
    assert(file_pairs(file, n) =~= pairs);
}

/// Hashes the keyword and walks the chain of its slot, collecting every
/// candidate source offset in visit order. Fails with `FormatError` exactly
/// when the file image is not a well-formed index: bad header, no slots, a
/// truncated region, or a malformed chain.
#[verifier::loop_isolation(false)]
pub fn search_candidates(keyword: &Vec<u8>, index_file: &Vec<u8>) -> (r: Result<
    Vec<u64>,
    IndexError,
>)
    ensures
        ({
            let hdr = spec_header_decode(index_file@);
            match r {
                Ok(v) => {
                    &&& hdr is Some
                    &&& hdr.unwrap().hashmap_size >= 1
                    &&& {
                        let n = hdr.unwrap().hashmap_size as int;
                        let hv = spec_hash(keyword@, hdr.unwrap().hashmap_size) as int;
                        &&& index_file@.len() >= spec_blocks_start(n)
                        &&& walk_chain(
                            file_slot(index_file@, hv),
                            file_pairs(index_file@, n),
                            spec_blocks_start(n),
                        ) == Some(v@)
                    }
                },
                Err(e) => {
                    &&& e == IndexError::FormatError
                    &&& (hdr is Some && hdr.unwrap().hashmap_size >= 1
                        && index_file@.len() >= spec_blocks_start(
                        hdr.unwrap().hashmap_size as int,
                    ) ==> walk_chain(
                        file_slot(index_file@, spec_hash(keyword@, hdr.unwrap().hashmap_size) as int),
                        file_pairs(index_file@, hdr.unwrap().hashmap_size as int),
                        spec_blocks_start(hdr.unwrap().hashmap_size as int),
                    ) is None)
                },
            }
        }),
{
    let header = match Header::from_bytes(index_file) {
        Ok(h) => h,
        Err(_) => {
            return Err(IndexError::FormatError);
        },
    };
    let n = header.hashmap_size;
    if n == 0 {
        return Err(IndexError::FormatError);
    }
    let len = index_file.len();
    // the hashmap region must be whole
    if (len as u64) < HEADER_LEN_V0 as u64 || ((len as u64) - HEADER_LEN_V0 as u64) / 8 < n {
        proof {
            let nn = n as int;
            assert((len - HEADER_LEN_V0) / 8 < nn ==> len < HEADER_LEN_V0 + 8 * nn)
                by (nonlinear_arith);
        }
        return Err(IndexError::FormatError);
    }
    proof {
        let nn = n as int;
        assert((len - HEADER_LEN_V0) / 8 >= nn ==> len >= HEADER_LEN_V0 + 8 * nn)
            by (nonlinear_arith);
    }
    let hv = hash_function(keyword, n);
    let ghost bs = spec_blocks_start(n as int);
    let ghost pairs = file_pairs(index_file@, n as int);
    let slot_pos: usize = HEADER_LEN_V0 as usize + 8 * (hv as usize);
    proof {
        assert(8 * (hv as int) + 8 <= 8 * (n as int)) by (nonlinear_arith)
            requires
                hv < n,
        ;
    }
    let e0 = read_be64(index_file, slot_pos);
    proof {
        assert(index_file@.subrange(slot_pos as int, slot_pos + 8) =~= index_file@.subrange(
            HEADER_LEN_V0 + 8 * (hv as int),
            HEADER_LEN_V0 + 8 * (hv as int) + 8,
        ));
        assert(e0 == file_slot(index_file@, hv as int));
    }
    let mut out: Vec<u64> = Vec::new();
    let mut cur: u64 = e0;
    loop
        invariant
            index_file@.len() == len,
            bs == spec_blocks_start(n as int),
            pairs == file_pairs(index_file@, n as int),
            walk_chain(cur, pairs, bs) is Some ==> walk_chain(e0, pairs, bs) == Some(
                out@ + walk_chain(cur, pairs, bs).unwrap(),
            ),
            walk_chain(cur, pairs, bs) is None ==> walk_chain(e0, pairs, bs) is None,
        decreases entry_payload(cur),
    {
        if cur == NULL_ENTRY {
            proof {
                assert(out@ + walk_chain(cur, pairs, bs).unwrap() =~= out@);
            }
            return Ok(out);
        }
        if cur < INDIRECT_BIT {
            let ghost pre = out@;
            out.push(cur);
            proof {
                assert(pre + walk_chain(cur, pairs, bs).unwrap() =~= out@);
            }
            return Ok(out);
        }
        let p = cur - INDIRECT_BIT;
        assert(p == entry_payload(cur));
        if p < HEADER_LEN_V0 as u64 + 8 * n {
            return Err(IndexError::FormatError);
        }
        if (p - (HEADER_LEN_V0 as u64 + 8 * n)) % 16 != 0 {
            return Err(IndexError::FormatError);
        }
        if p > (len as u64) - 16 || (len as u64) < 16 {
            proof {
                let j = (p - bs) / 16;
                assert(16 * j == p - bs) by (nonlinear_arith)
                    requires
                        (p - bs) % 16 == 0,
                        j == (p - bs) / 16,
                ;
                assert(j >= file_pairs_count(index_file@, n as int) ==> walk_chain(
                    cur,
                    pairs,
                    bs,
                ) is None);
                assert(16 * j + 16 > len - bs);
                assert(j >= (len - bs) / 16) by (nonlinear_arith)
                    requires
                        16 * j + 16 > len - bs,
                ;
            }
            return Err(IndexError::FormatError);
        }
        let ghost j = (p - bs) / 16;
        proof {
            assert(16 * j == p - bs) by (nonlinear_arith)
                requires
                    (p - bs) % 16 == 0,
                    j == (p - bs) / 16,
            ;
            assert(j < (len - bs) / 16) by (nonlinear_arith)
                requires
                    16 * j + 16 <= len - bs,
            ;
            assert(j < pairs.len());
        }
        let o = read_be64(index_file, p as usize);
        let nxt = read_be64(index_file, p as usize + 8);
        proof {
            assert(index_file@.subrange(p as int, p + 8) =~= index_file@.subrange(
                bs + 16 * j,
                bs + 16 * j + 8,
            ));
            assert(index_file@.subrange(p + 8, p + 16) =~= index_file@.subrange(
                bs + 16 * j + 8,
                bs + 16 * j + 16,
            ));
            assert(pairs[j] == (o, nxt));
        }
        let ghost pre = out@;
        out.push(o);
        if nxt == NULL_ENTRY {
            proof {
                assert(pre + walk_chain(cur, pairs, bs).unwrap() =~= out@);
            }
            return Ok(out);
        }
        if nxt < INDIRECT_BIT {
            out.push(nxt);
            proof {
                assert(pre + walk_chain(cur, pairs, bs).unwrap() =~= out@);
            }
            return Ok(out);
        }
        // the chain must point strictly backwards, or it would never end
        if !(nxt - INDIRECT_BIT < p) {
            return Err(IndexError::FormatError);
        }
        proof {
            assert(walk_chain(cur, pairs, bs) is Some ==> walk_chain(cur, pairs, bs)
                == Some(seq![o] + walk_chain(nxt, pairs, bs).unwrap()));
            assert(walk_chain(nxt, pairs, bs) is Some ==> pre + (seq![o] + walk_chain(
                nxt,
                pairs,
                bs,
            ).unwrap()) =~= out@ + walk_chain(nxt, pairs, bs).unwrap());
        }
        cur = nxt;
    }
}

/// The record of the first candidate whose key verifies, walking the
/// chain's candidates in order.
pub open spec fn first_match(c: Seq<u64>, src: Seq<u8>, kind: SourceKind, key: Seq<u8>) -> Option<
    Seq<u8>,
>
    decreases c.len(),
{
    if c.len() == 0 {
        None
    } else {
        match spec_verify(src, c[0] as int, kind, key) {
            Some(r) => Some(r),
            None => first_match(c.skip(1), src, kind, key),
        }
    }
}

/// The records of all candidates whose key verifies, in chain order.
pub open spec fn all_matches(c: Seq<u64>, src: Seq<u8>, kind: SourceKind, key: Seq<u8>) -> Seq<
    Seq<u8>,
>
    decreases c.len(),
{
    if c.len() == 0 {
        Seq::<Seq<u8>>::empty()
    } else {
        let rest = all_matches(c.skip(1), src, kind, key);
        match spec_verify(src, c[0] as int, kind, key) {
            Some(r) => seq![r] + rest,
            None => rest,
        }
    }
}

/// Whether the index file is a well-formed index whose chain for this
/// keyword walks to the end: a decodable header with a known source kind,
/// at least one slot, a whole hashmap region, and a sound chain.
pub open spec fn lookup_wf(index_file: Seq<u8>, keyword: Seq<u8>) -> bool {
    &&& spec_header_decode(index_file) is Some
    &&& spec_kind_of_header(spec_header_decode(index_file).unwrap()) is Some
    &&& spec_header_decode(index_file).unwrap().hashmap_size >= 1
    &&& index_file.len() >= spec_blocks_start(
        spec_header_decode(index_file).unwrap().hashmap_size as int,
    )
    &&& spec_chain_of(index_file, keyword) is Some
}

/// The chain the lookup walks for this keyword.
pub open spec fn spec_chain_of(index_file: Seq<u8>, keyword: Seq<u8>) -> Option<Seq<u64>> {
    let h = spec_header_decode(index_file).unwrap();
    let n = h.hashmap_size as int;
    walk_chain(
        file_slot(index_file, spec_hash(keyword, h.hashmap_size) as int),
        file_pairs(index_file, n),
        spec_blocks_start(n),
    )
}

/// Looks the keyword up: hashes it, walks its slot's chain, and verifies
/// each candidate against the source until one matches. Returns that
/// record, or `None` when the keyword is absent.
#[verifier::loop_isolation(false)]
pub fn search(keyword: &Vec<u8>, index_file: &Vec<u8>, source: &Vec<u8>) -> (r: Result<
    Option<Vec<u8>>,
    IndexError,
>)
    ensures
        ({
            let hdr = spec_header_decode(index_file@);
            match r {
                Ok(res) => {
                    &&& lookup_wf(index_file@, keyword@)
                    &&& {
                        let kind = spec_kind_of_header(hdr.unwrap()).unwrap();
                        let c = spec_chain_of(index_file@, keyword@).unwrap();
                        match res {
                            Some(rec) => first_match(c, source@, kind, keyword@) == Some(rec@),
                            None => first_match(c, source@, kind, keyword@) is None,
                        }
                    }
                },
                Err(e) => {
                    &&& e == IndexError::FormatError
                    &&& !lookup_wf(index_file@, keyword@)
                },
            }
        }),
{
    let header = match Header::from_bytes(index_file) {
        Ok(h) => h,
        Err(_) => {
            return Err(IndexError::FormatError);
        },
    };
    let kind = match kind_of_header(&header) {
        Some(k) => k,
        None => {
            return Err(IndexError::FormatError);
        },
    };
    let cands = match search_candidates(keyword, index_file) {
        Ok(c) => c,
        Err(e) => {
            return Err(e);
        },
    };
    let ghost c = cands@;
    proof {
        assert(c.skip(0) =~= c);
    }
    let mut i: usize = 0;
    while i < cands.len()
        invariant
            i <= c.len(),
            cands@ == c,
            first_match(c, source@, kind, keyword@) == first_match(
                c.skip(i as int),
                source@,
                kind,
                keyword@,
            ),
        decreases c.len() - i,
    {
        match test_and_return_entry(source, cands[i], kind, keyword) {
            Some(rec) => {
                proof {
                    assert(c.skip(i as int)[0] == c[i as int]);
                }
                return Ok(Some(rec));
            },
            None => {
                proof {
                    assert(c.skip(i as int)[0] == c[i as int]);
                    assert(c.skip(i as int).skip(1) =~= c.skip(i as int + 1));
                }
                i = i + 1;
            },
        }
    }
    proof {
        assert(c.skip(c.len() as int).len() == 0);
    }
    Ok(None)
}

/// Like `search`, but keeps walking after a match and returns every record
/// that shares the keyword, in chain order.
#[verifier::loop_isolation(false)]
pub fn search_all(keyword: &Vec<u8>, index_file: &Vec<u8>, source: &Vec<u8>) -> (r: Result<
    Vec<Vec<u8>>,
    IndexError,
>)
    ensures
        ({
            let hdr = spec_header_decode(index_file@);
            match r {
                Ok(res) => {
                    &&& lookup_wf(index_file@, keyword@)
                    &&& {
                        let kind = spec_kind_of_header(hdr.unwrap()).unwrap();
                        let c = spec_chain_of(index_file@, keyword@).unwrap();
                        let m = all_matches(c, source@, kind, keyword@);
                        &&& res@.len() == m.len()
                        &&& forall|k: int| 0 <= k < m.len() ==> (#[trigger] res@[k])@ == m[k]
                    }
                },
                Err(e) => {
                    &&& e == IndexError::FormatError
                    &&& !lookup_wf(index_file@, keyword@)
                },
            }
        }),
{
    let header = match Header::from_bytes(index_file) {
        Ok(h) => h,
        Err(_) => {
            return Err(IndexError::FormatError);
        },
    };
    let kind = match kind_of_header(&header) {
        Some(k) => k,
        None => {
            return Err(IndexError::FormatError);
        },
    };
    let cands = match search_candidates(keyword, index_file) {
        Ok(c) => c,
        Err(e) => {
            return Err(e);
        },
    };
    let ghost c = cands@;
    let ghost m = all_matches(c, source@, kind, keyword@);
    proof {
        assert(c.skip(0) =~= c);
    }
    let mut out: Vec<Vec<u8>> = Vec::new();
    let mut i: usize = 0;
    while i < cands.len()
        invariant
            i <= c.len(),
            cands@ == c,
            m == all_matches(c, source@, kind, keyword@),
            out@.len() + all_matches(c.skip(i as int), source@, kind, keyword@).len() == m.len(),
            forall|k: int| 0 <= k < out@.len() ==> (#[trigger] out@[k])@ == m[k],
            forall|k: int|
                0 <= k < all_matches(c.skip(i as int), source@, kind, keyword@).len()
                    ==> #[trigger] all_matches(c.skip(i as int), source@, kind, keyword@)[k]
                    == m[out@.len() + k],
        decreases c.len() - i,
    {
        let ghost tail = all_matches(c.skip(i as int), source@, kind, keyword@);
        proof {
            assert(c.skip(i as int)[0] == c[i as int]);
            assert(c.skip(i as int).skip(1) =~= c.skip(i as int + 1));
        }
        match test_and_return_entry(source, cands[i], kind, keyword) {
            Some(rec) => {
                proof {
                    assert(tail[0] == rec@);
                    assert forall|k: int|
                        0 <= k < all_matches(c.skip(i as int + 1), source@, kind, keyword@).len()
                            implies #[trigger] all_matches(
                        c.skip(i as int + 1),
                        source@,
                        kind,
                        keyword@,
                    )[k] == m[out@.len() + 1 + k] by {
                        assert(tail[k + 1] == all_matches(
                            c.skip(i as int + 1),
                            source@,
                            kind,
                            keyword@,
                        )[k]);
                    }
                }
                out.push(rec);
            },
            None => {
            },
        }
        i = i + 1;
    }
    proof {
        assert(c.skip(c.len() as int).len() == 0);
    }
    Ok(out)
}

} // verus!
