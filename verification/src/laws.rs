//! The laws of the index, proved over the models: what a lookup on a built
//! index finds (every present key, no absent key), chain integrity, the
//! equivalence of all slab sizes, determinism of the build, and the shape
//! of a one-slot index.

use vstd::prelude::*;
use crate::INDIRECT_BIT;
use crate::chain::{
    count_hash, lemma_build_slabs_chains, lemma_model_chain_len, lemma_model_chain_membership,
    model_chain, slot_inv, walk_chain, BlockPair,
};
use crate::hash::spec_hash;
use crate::header::{spec_header_bytes, spec_header_decode, Header, CURRENT_VERSION, HEADER_LEN_V0};
use crate::indexer::{
    build_fits, built_regions, effective_slab, hashed_entries, resolve_hashmap_size,
    spec_index_of_source,
};
use crate::record::{
    lemma_record_offsets_bounds, record_bytes, record_key, scanned_records, spec_kind_of_header,
    spec_records, spec_verify, SourceKind,
};
use crate::search::{
    file_pairs, file_slot, first_match, lemma_file_regions, lookup_wf, spec_blocks_start,
    spec_chain_of,
};

verus! {

/// A chain's walk finds no match exactly when no candidate verifies.
pub proof fn lemma_first_match_none(c: Seq<u64>, src: Seq<u8>, kind: SourceKind, key: Seq<u8>)
    ensures
        first_match(c, src, kind, key) is None <==> forall|k: int|
            0 <= k < c.len() ==> spec_verify(src, #[trigger] c[k] as int, kind, key) is None,
    decreases c.len(),
{
    if c.len() > 0 {
        lemma_first_match_none(c.skip(1), src, kind, key);
        if spec_verify(src, c[0] as int, kind, key) is None {
            assert forall|k: int|
                0 <= k < c.len() && (forall|j: int|
                    0 <= j < c.skip(1).len() ==> spec_verify(
                        src,
                        #[trigger] c.skip(1)[j] as int,
                        kind,
                        key,
                    ) is None) implies spec_verify(src, #[trigger] c[k] as int, kind, key)
                is None by {
                if k > 0 {
                    assert(c.skip(1)[k - 1] == c[k]);
                }
            }
            assert forall|j: int|
                0 <= j < c.skip(1).len() && (forall|k: int|
                    0 <= k < c.len() ==> spec_verify(src, #[trigger] c[k] as int, kind, key)
                        is None) implies spec_verify(src, #[trigger] c.skip(1)[j] as int, kind, key)
                is None by {
                assert(c.skip(1)[j] == c[j + 1]);
            }
        }
    }
}

/// What a found match is: the record of some candidate on the chain.
pub proof fn lemma_first_match_some(c: Seq<u64>, src: Seq<u8>, kind: SourceKind, key: Seq<u8>)
    requires
        first_match(c, src, kind, key) is Some,
    ensures
        exists|k: int|
            0 <= k < c.len() && spec_verify(src, #[trigger] c[k] as int, kind, key) == Some(
                first_match(c, src, kind, key).unwrap(),
            ),
    decreases c.len(),
{
    if spec_verify(src, c[0] as int, kind, key) is Some {
        assert(spec_verify(src, c[0] as int, kind, key) == Some(
            first_match(c, src, kind, key).unwrap(),
        ));
    } else {
        lemma_first_match_some(c.skip(1), src, kind, key);
        let k = choose|k: int|
            0 <= k < c.skip(1).len() && spec_verify(src, #[trigger] c.skip(1)[k] as int, kind, key)
                == Some(first_match(c.skip(1), src, kind, key).unwrap());
        assert(c.skip(1)[k] == c[k + 1]);
        assert(spec_verify(src, c[k + 1] as int, kind, key) == Some(
            first_match(c, src, kind, key).unwrap(),
        ));
    }
}

/// The header under which the index of this source is written.
pub open spec fn header_of(src: Seq<u8>, kind: SourceKind, hashmap_size: u64) -> Header {
    Header {
        version: CURRENT_VERSION,
        hashmap_size: resolve_hashmap_size(hashmap_size, spec_records(src, kind).len()),
        index_type: kind.spec_index_type(),
        separator: kind.spec_separator(),
        column: kind.spec_column(),
    }
}

/// The built index decodes region by region, and the chain of any keyword
/// walks to completion and carries exactly the model chain of its slot.
pub proof fn lemma_built_index_wf(src: Seq<u8>, kind: SourceKind, hashmap_size: u64,
    in_memory_map_size: u64, keyword: Seq<u8>)
    requires
        build_fits(src, kind, hashmap_size, in_memory_map_size),
    ensures
        ({
            let file = spec_index_of_source(src, kind, hashmap_size, in_memory_map_size);
            let n = resolve_hashmap_size(hashmap_size, spec_records(src, kind).len());
            let entries = hashed_entries(scanned_records(src, kind), n);
            &&& spec_header_decode(file) == Some(header_of(src, kind, hashmap_size))
            &&& lookup_wf(file, keyword)
            &&& spec_chain_of(file, keyword) == Some(
                model_chain(entries, spec_hash(keyword, n)),
            )
        }),
{
    let records = scanned_records(src, kind);
    let n = resolve_hashmap_size(hashmap_size, spec_records(src, kind).len());
    let entries = hashed_entries(records, n);
    let regions = built_regions(entries, n, in_memory_map_size);
    let bs = HEADER_LEN_V0 + 8 * (n as int);
    let h0 = header_of(src, kind, hashmap_size);
    let file = spec_index_of_source(src, kind, hashmap_size, in_memory_map_size);
    lemma_record_offsets_bounds(src, 0, kind.spec_lines_per());
    assert forall|k: int| 0 <= k < entries.len() implies (#[trigger] entries[k]).1
        < INDIRECT_BIT by {
        assert(entries[k].1 == records[k].0);
        assert(records[k].0 == spec_records(src, kind)[k] as u64);
        assert(0 <= spec_records(src, kind)[k] < src.len());
    }
    lemma_build_slabs_chains(
        entries,
        n as int,
        effective_slab(in_memory_map_size, n),
        bs,
        0,
        Seq::<BlockPair>::empty(),
    );
    lemma_file_regions(h0, regions.0, regions.1);
    assert(file == spec_header_bytes(h0) + crate::codec::slots_bytes(regions.0)
        + crate::codec::pairs_bytes(regions.1));
    let hv = spec_hash(keyword, n);
    assert(hv < n) by {
        let x = crate::hash::stable_hash_of(keyword);
        assert(x % (n as u128) < n as u128);
    }
    assert(slot_inv(regions.0[hv as int], regions.1, bs, model_chain(entries, hv)));
    assert(file_slot(file, hv as int) == regions.0[hv as int]);
    assert(spec_kind_of_header(h0) == Some(kind));
}

/// Every record present in the source is retrievable by its key, and no
/// absent key is: the lookup's walk finds a match exactly when some record
/// carries the keyword, and what it finds is such a record, whole.
pub proof fn lemma_search_exact(src: Seq<u8>, kind: SourceKind, hashmap_size: u64,
    in_memory_map_size: u64, keyword: Seq<u8>)
    requires
        build_fits(src, kind, hashmap_size, in_memory_map_size),
    ensures
        ({
            let file = spec_index_of_source(src, kind, hashmap_size, in_memory_map_size);
            let offs = spec_records(src, kind);
            let c = spec_chain_of(file, keyword).unwrap();
            let m = first_match(c, src, kind, keyword);
            &&& lookup_wf(file, keyword)
            &&& (m is Some <==> exists|i: int|
                0 <= i < offs.len() && record_key(src, #[trigger] offs[i], kind) == Some(keyword))
            &&& (m is Some ==> exists|i: int|
                0 <= i < offs.len() && record_key(src, #[trigger] offs[i], kind) == Some(keyword)
                    && m.unwrap() == record_bytes(src, offs[i], kind))
            &&& forall|i: int|
                (0 <= i < offs.len() && record_key(src, #[trigger] offs[i], kind) == Some(keyword)
                    && (forall|j: int|
                    0 <= j < offs.len() && j != i ==> record_key(src, #[trigger] offs[j], kind)
                        != Some(keyword))) ==> m == Some(record_bytes(src, offs[i], kind))
        }),
{
    let records = scanned_records(src, kind);
    let offs = spec_records(src, kind);
    let n = resolve_hashmap_size(hashmap_size, offs.len());
    let entries = hashed_entries(records, n);
    let file = spec_index_of_source(src, kind, hashmap_size, in_memory_map_size);
    let hv = spec_hash(keyword, n);
    lemma_built_index_wf(src, kind, hashmap_size, in_memory_map_size, keyword);
    lemma_record_offsets_bounds(src, 0, kind.spec_lines_per());
    let c = spec_chain_of(file, keyword).unwrap();
    assert(c == model_chain(entries, hv));
    let m = first_match(c, src, kind, keyword);
    lemma_first_match_none(c, src, kind, keyword);
    // every candidate on the chain is the offset of a record hashing here
    assert forall|k: int| 0 <= k < c.len() implies exists|i: int|
        0 <= i < offs.len() && #[trigger] c[k] == offs[i] as u64 && spec_hash(records[i].1, n)
            == hv by {
        lemma_model_chain_membership(entries, hv, c[k]);
        assert(c.contains(c[k]));
        let i = choose|i: int| 0 <= i < entries.len() && entries[i] == (hv, c[k]);
        assert(entries[i] == (spec_hash(records[i].1, n), records[i].0));
        assert(c[k] == offs[i] as u64);
    }
    if m is Some {
        // what was found is a genuine record carrying the keyword
        lemma_first_match_some(c, src, kind, keyword);
        let k = choose|k: int|
            0 <= k < c.len() && spec_verify(src, #[trigger] c[k] as int, kind, keyword) == Some(
                m.unwrap(),
            );
        let i = choose|i: int|
            0 <= i < offs.len() && #[trigger] c[k] == offs[i] as u64 && spec_hash(records[i].1, n)
                == hv;
        assert(c[k] as int == offs[i]);
        assert(record_key(src, offs[i], kind) == Some(keyword) && m.unwrap() == record_bytes(
            src,
            offs[i],
            kind,
        )) by {
            assert(spec_verify(src, offs[i], kind, keyword) == Some(m.unwrap()));
        }
    }
    if exists|i: int|
        0 <= i < offs.len() && record_key(src, #[trigger] offs[i], kind) == Some(keyword) {
        // the record's offset is on the chain, and verifies
        let i = choose|i: int|
            0 <= i < offs.len() && record_key(src, #[trigger] offs[i], kind) == Some(keyword);
        assert(records[i] == (offs[i] as u64, record_key(src, offs[i], kind).unwrap()));
        assert(records[i].1 == keyword);
        assert(entries[i] == (hv, offs[i] as u64));
        lemma_model_chain_membership(entries, hv, offs[i] as u64);
        assert(c.contains(offs[i] as u64));
        let k = choose|k: int| 0 <= k < c.len() && c[k] == offs[i] as u64;
        assert(spec_verify(src, c[k] as int, kind, keyword) is Some);
        assert(m is Some);
    }
}

/// Chain integrity: for a built index, the walk of every slot terminates
/// with a chain (never a malformed pointer), and every candidate it visits
/// is the offset of a record of the source that hashes to that slot.
pub proof fn lemma_chain_integrity(src: Seq<u8>, kind: SourceKind, hashmap_size: u64,
    in_memory_map_size: u64, h: u64)
    requires
        build_fits(src, kind, hashmap_size, in_memory_map_size),
        h < resolve_hashmap_size(hashmap_size, spec_records(src, kind).len()),
    ensures
        ({
            let file = spec_index_of_source(src, kind, hashmap_size, in_memory_map_size);
            let n = resolve_hashmap_size(hashmap_size, spec_records(src, kind).len());
            let w = walk_chain(
                file_slot(file, h as int),
                file_pairs(file, n as int),
                spec_blocks_start(n as int),
            );
            &&& w is Some
            &&& forall|k: int|
                0 <= k < w.unwrap().len() ==> exists|i: int|
                    0 <= i < spec_records(src, kind).len() && #[trigger] w.unwrap()[k]
                        == spec_records(src, kind)[i] as u64
        }),
{
    let records = scanned_records(src, kind);
    let offs = spec_records(src, kind);
    let n = resolve_hashmap_size(hashmap_size, offs.len());
    let entries = hashed_entries(records, n);
    let regions = built_regions(entries, n, in_memory_map_size);
    let bs = HEADER_LEN_V0 + 8 * (n as int);
    let h0 = header_of(src, kind, hashmap_size);
    let file = spec_index_of_source(src, kind, hashmap_size, in_memory_map_size);
    lemma_record_offsets_bounds(src, 0, kind.spec_lines_per());
    assert forall|k: int| 0 <= k < entries.len() implies (#[trigger] entries[k]).1
        < INDIRECT_BIT by {
        assert(entries[k].1 == records[k].0);
        assert(records[k].0 == offs[k] as u64);
        assert(0 <= offs[k] < src.len());
    }
    lemma_build_slabs_chains(
        entries,
        n as int,
        effective_slab(in_memory_map_size, n),
        bs,
        0,
        Seq::<BlockPair>::empty(),
    );
    lemma_file_regions(h0, regions.0, regions.1);
    assert(slot_inv(regions.0[h as int], regions.1, bs, model_chain(entries, h)));
    assert(file_slot(file, h as int) == regions.0[h as int]);
    let w = walk_chain(file_slot(file, h as int), file_pairs(file, n as int), bs);
    assert(w == Some(model_chain(entries, h)));
    let c = w.unwrap();
    assert forall|k: int| 0 <= k < c.len() implies exists|i: int|
        0 <= i < offs.len() && #[trigger] c[k] == offs[i] as u64 by {
        lemma_model_chain_membership(entries, h, c[k]);
        assert(c.contains(c[k]));
        let i = choose|i: int| 0 <= i < entries.len() && entries[i] == (h, c[k]);
        assert(entries[i] == (spec_hash(records[i].1, n), records[i].0));
        assert(c[k] == offs[i] as u64);
    }
}

/// Slab equivalence: whatever the memory budget, the chain of every slot
/// is the same; only the byte layout of the blocks region may differ. In
/// particular the set of retrievable keys is the same as a single-pass
/// build's.
pub proof fn lemma_slab_equivalence(src: Seq<u8>, kind: SourceKind, hashmap_size: u64, sp1: u64,
    sp2: u64, keyword: Seq<u8>)
    requires
        build_fits(src, kind, hashmap_size, sp1),
        build_fits(src, kind, hashmap_size, sp2),
    ensures
        spec_chain_of(spec_index_of_source(src, kind, hashmap_size, sp1), keyword)
            == spec_chain_of(spec_index_of_source(src, kind, hashmap_size, sp2), keyword),
        first_match(
            spec_chain_of(spec_index_of_source(src, kind, hashmap_size, sp1), keyword).unwrap(),
            src,
            kind,
            keyword,
        ) == first_match(
            spec_chain_of(spec_index_of_source(src, kind, hashmap_size, sp2), keyword).unwrap(),
            src,
            kind,
            keyword,
        ),
{
    lemma_built_index_wf(src, kind, hashmap_size, sp1, keyword);
    lemma_built_index_wf(src, kind, hashmap_size, sp2, keyword);
}

/// Idempotence: the file image is a function of the records and the
/// parameters alone, so rebuilding over the same source gives a
/// byte-identical file.
pub proof fn lemma_build_deterministic(f1: Seq<u8>, f2: Seq<u8>, src: Seq<u8>, kind: SourceKind,
    hashmap_size: u64, in_memory_map_size: u64)
    requires
        f1 == spec_index_of_source(src, kind, hashmap_size, in_memory_map_size),
        f2 == spec_index_of_source(src, kind, hashmap_size, in_memory_map_size),
    ensures
        f1 == f2,
{
}

/// With a single slot every key collides: the one chain carries exactly
/// one candidate per record of the source.
pub proof fn lemma_single_slot_chain(src: Seq<u8>, kind: SourceKind, in_memory_map_size: u64,
    keyword: Seq<u8>)
    requires
        build_fits(src, kind, 1, in_memory_map_size),
    ensures
        ({
            let file = spec_index_of_source(src, kind, 1, in_memory_map_size);
            let c = spec_chain_of(file, keyword);
            &&& c is Some
            &&& c.unwrap().len() == spec_records(src, kind).len()
        }),
{
    let records = scanned_records(src, kind);
    let n: u64 = 1;
    let entries = hashed_entries(records, n);
    lemma_built_index_wf(src, kind, 1, in_memory_map_size, keyword);
    let hv = spec_hash(keyword, n);
    assert(hv == 0) by {
        let x = crate::hash::stable_hash_of(keyword);
        assert(x % 1u128 == 0);
    }
    assert forall|k: int| 0 <= k < entries.len() implies (#[trigger] entries[k]).0 == 0u64 by {
        let x = crate::hash::stable_hash_of(records[k].1);
        assert(x % 1u128 == 0);
    }
    lemma_model_chain_len(entries, 0);
    lemma_count_hash_all(entries, 0);
}

/// When every entry hashes to `h`, the count at `h` is the whole stream.
proof fn lemma_count_hash_all(entries: Seq<(u64, u64)>, h: u64)
    requires
        forall|k: int| 0 <= k < entries.len() ==> (#[trigger] entries[k]).0 == h,
    ensures
        count_hash(entries, h) == entries.len(),
    decreases entries.len(),
{
    if entries.len() > 0 {
        assert(entries[entries.len() - 1].0 == h);
        lemma_count_hash_all(entries.drop_last(), h);
    }
}

} // verus!
