//! The build driver: turns a stream of `(source offset, key)` records into
//! the complete byte image of an index file, re-reading the records once
//! per slab. The image is pinned down byte for byte by `spec_index_file`,
//! so two builds over the same records give identical files.

use vstd::prelude::*;
use crate::{IndexError, INDIRECT_BIT, NULL_ENTRY, PAYLOAD_MASK};
use crate::chain::{
    build_slabs, lemma_build_slabs_chains, lemma_build_slabs_pairs_grow, lemma_run_pass_take_grow,
    model_chain, run_pass, slot_inv, spec_add_entry, BlockPair, BuildState,
};
use crate::codec::{
    lemma_pairs_bytes_append, lemma_pairs_bytes_len, lemma_slots_bytes_append,
    lemma_slots_bytes_len, pairs_bytes, slots_bytes,
};
use crate::hash::{hash_function, spec_hash};
use crate::header::{spec_header_bytes, Header, CURRENT_VERSION, HEADER_LEN_V0};
use crate::index_structure::IndexStructure;
use crate::record::{all_keys_ok, scan_records, scanned_records, spec_records, SourceKind};

verus! {

/// The records as mathematical values: `(source offset, key bytes)`.
pub open spec fn records_view(rs: Seq<(u64, Vec<u8>)>) -> Seq<(u64, Seq<u8>)> {
    rs.map_values(|r: (u64, Vec<u8>)| (r.0, r.1@))
}

/// Each record keyed by its slot: `(hash, source offset)`.
pub open spec fn hashed_entries(records: Seq<(u64, Seq<u8>)>, n: u64) -> Seq<(u64, u64)> {
    records.map_values(|r: (u64, Seq<u8>)| (spec_hash(r.1, n), r.0))
}

/// A requested size of 0 means: one slot per record.
pub open spec fn resolve_hashmap_size(hashmap_size: u64, record_count: nat) -> u64 {
    if hashmap_size == 0 {
        record_count as u64
    } else {
        hashmap_size
    }
}

/// The slab actually used: never more slots than the hashmap has.
pub open spec fn effective_slab(in_memory_map_size: u64, n: u64) -> int {
    if in_memory_map_size < n {
        in_memory_map_size as int
    } else {
        n as int
    }
}

/// The hashmap slots and blocks pairs the build produces.
pub open spec fn built_regions(entries: Seq<(u64, u64)>, n: u64, in_memory_map_size: u64) -> (
    Seq<u64>,
    Seq<BlockPair>,
) {
    build_slabs(
        entries,
        n as int,
        effective_slab(in_memory_map_size, n),
        HEADER_LEN_V0 + 8 * (n as int),
        0,
        Seq::<BlockPair>::empty(),
    )
}

/// The complete index file: header, hashmap region, blocks region.
pub open spec fn spec_index_file(records: Seq<(u64, Seq<u8>)>, n: u64, index_type: u8, separator:
    u8, column: u8, in_memory_map_size: u64) -> Seq<u8> {
    let h = Header { version: CURRENT_VERSION, hashmap_size: n, index_type, separator, column };
    let r = built_regions(hashed_entries(records, n), n, in_memory_map_size);
    spec_header_bytes(h) + slots_bytes(r.0) + pairs_bytes(r.1)
}

/// Builds the index file image over `records`, already in stream order,
/// with `in_memory_map_size` slots of hashmap resident at a time. The
/// records are walked once per slab, exactly as a caller re-reading its
/// source would present them.
#[verifier::loop_isolation(false)]
#[verifier::rlimit(100)]
#[verifier::spinoff_prover]
pub fn index(records: &Vec<(u64, Vec<u8>)>, hashmap_size: u64, index_type: u8, separator: u8,
    column: u8, in_memory_map_size: u64) -> (r: Result<Vec<u8>, IndexError>)
    ensures
        ({
            let n = resolve_hashmap_size(hashmap_size, records@.len());
            let entries = hashed_entries(records_view(records@), n);
            let regions = built_regions(entries, n, in_memory_map_size);
            let bs = HEADER_LEN_V0 + 8 * (n as int);
            match r {
                Ok(file) => {
                    &&& n >= 1
                    &&& in_memory_map_size >= 1
                    &&& file@ == spec_index_file(
                        records_view(records@),
                        n,
                        index_type,
                        separator,
                        column,
                        in_memory_map_size,
                    )
                    &&& regions.0.len() == n
                    &&& file@.len() == bs + 16 * regions.1.len()
                    &&& bs + 16 * regions.1.len() <= PAYLOAD_MASK
                    &&& forall|i: int|
                        0 <= i < n ==> slot_inv(
                            #[trigger] regions.0[i],
                            regions.1,
                            bs,
                            model_chain(entries, i as u64),
                        )
                },
                Err(e) => {
                    &&& (e == IndexError::ConfigError || e == IndexError::BoundsError)
                    &&& (e == IndexError::ConfigError <==> (n == 0 || in_memory_map_size == 0))
                },
            }
        }),
        ({
            let n = resolve_hashmap_size(hashmap_size, records@.len());
            let entries = hashed_entries(records_view(records@), n);
            let regions = built_regions(entries, n, in_memory_map_size);
            (n >= 1 && in_memory_map_size >= 1 && HEADER_LEN_V0 + 8 * (n as int) + 16
                * regions.1.len() <= PAYLOAD_MASK && (forall|k: int|
                0 <= k < entries.len() ==> (#[trigger] entries[k]).1 < INDIRECT_BIT)) ==> r is Ok
        }),
{
    let mut n = hashmap_size;
    if n == 0 {
        n = records.len() as u64;
    }
    if n == 0 || in_memory_map_size == 0 {
        return Err(IndexError::ConfigError);
    }
    let header = Header::new(CURRENT_VERSION, n, index_type, separator, column);
    let (mut builder, hdr_op) = match IndexStructure::new(header, in_memory_map_size) {
        Ok(x) => x,
        Err(e) => {
            return Err(e);
        },
    };
    let ghost entries = hashed_entries(records_view(records@), n);
    let ghost bs = builder.blocks_start();
    let ghost sp = builder.spec_slab_size();
    let ghost final_regions = built_regions(entries, n, in_memory_map_size);
    proof {
        assert(sp == effective_slab(in_memory_map_size, n));
        assert(entries.len() == records@.len());
    }
    let header_bytes = hdr_op.bytes;
    let mut slots_region: Vec<u8> = Vec::new();
    let mut blocks_region: Vec<u8> = Vec::new();
    let mut keep_on = true;
    while keep_on
        invariant
            builder.wf(),
            builder.header == header,
            sp == builder.spec_slab_size(),
            keep_on <==> builder.spec_margin_l() < n as int,
            keep_on ==> builder.cur_slots() == Seq::new(
                (builder.spec_margin_h() - builder.spec_margin_l()) as nat,
                |i: int| NULL_ENTRY,
            ),
            keep_on ==> final_regions.0 == builder.spec_flushed() + build_slabs(
                entries,
                n as int,
                sp,
                bs,
                builder.spec_margin_l(),
                builder.spec_pairs(),
            ).0,
            keep_on ==> final_regions.1 == build_slabs(
                entries,
                n as int,
                sp,
                bs,
                builder.spec_margin_l(),
                builder.spec_pairs(),
            ).1,
            !keep_on ==> final_regions.0 == builder.spec_flushed(),
            !keep_on ==> final_regions.1 == builder.spec_pairs(),
            !keep_on ==> builder.spec_emitted() == builder.spec_pairs().len(),
            slots_region@ == slots_bytes(builder.spec_flushed()),
            blocks_region@ == pairs_bytes(builder.spec_pairs().take(builder.spec_emitted())),
            builder.spec_margin_l() > 0 ==> forall|k: int|
                0 <= k < entries.len() ==> (#[trigger] entries[k]).1 < INDIRECT_BIT,
        decreases n as int - builder.spec_margin_l(),
    {
        let ghost pass_lo = builder.spec_margin_l();
        let ghost pass_hi = builder.spec_margin_h();
        let ghost pairs0 = builder.spec_pairs();
        let ghost flushed0 = builder.spec_flushed();
        proof {
            assert(pass_hi == if pass_lo + sp < n as int {
                pass_lo + sp
            } else {
                n as int
            });
            assert(run_pass(entries.take(0), pass_lo, pass_hi, bs, pairs0).slots =~= Seq::new(
                (pass_hi - pass_lo) as nat,
                |i: int| NULL_ENTRY,
            ));
        }
        let mut j: usize = 0;
        while j < records.len()
            invariant
                j <= records.len(),
                builder.wf(),
                builder.header == header,
                sp == builder.spec_slab_size(),
                builder.spec_margin_l() == pass_lo,
                builder.spec_margin_h() == pass_hi,
                builder.spec_flushed() == flushed0,
                builder.cur_slots() == run_pass(
                    entries.take(j as int),
                    pass_lo,
                    pass_hi,
                    bs,
                    pairs0,
                ).slots,
                builder.spec_pairs() == run_pass(
                    entries.take(j as int),
                    pass_lo,
                    pass_hi,
                    bs,
                    pairs0,
                ).pairs,
                slots_region@ == slots_bytes(flushed0),
                blocks_region@ == pairs_bytes(builder.spec_pairs().take(builder.spec_emitted())),
                forall|k: int| 0 <= k < j ==> (#[trigger] entries[k]).1 < INDIRECT_BIT,
            decreases records@.len() - j,
        {
            let offset = records[j].0;
            let key = &records[j].1;
            proof {
                assert(records_view(records@)[j as int] == (records@[j as int].0, records@[j
                    as int].1@));
                assert(entries[j as int] == (spec_hash(key@, n), offset));
            }
            let h = hash_function(key, n);
            let ghost st_j = run_pass(entries.take(j as int), pass_lo, pass_hi, bs, pairs0);
            let ghost em_old = builder.spec_emitted();
            match builder.add_entry(h, offset) {
                Ok(w) => {
                    proof {
                        assert(entries.take(j + 1).drop_last() =~= entries.take(j as int));
                        assert(entries.take(j + 1).last() == entries[j as int]);
                        assert(run_pass(entries.take(j + 1), pass_lo, pass_hi, bs, pairs0)
                            == spec_add_entry(st_j, pass_lo, pass_hi, bs, entries[j as int].0,
                            entries[j as int].1,
                        ));
                    }
                    match w {
                        Some(op) => {
                            let mut b = op.bytes;
                            blocks_region.append(&mut b);
                            proof {
                                let pr = builder.spec_pairs();
                                assert(pr.take(em_old) =~= st_j.pairs.take(em_old));
                                lemma_pairs_bytes_append(pr.take(em_old), pr.skip(em_old));
                                assert(pr.take(em_old) + pr.skip(em_old) =~= pr);
                                assert(pr.take(pr.len() as int) =~= pr);
                            }
                        },
                        None => {
                            proof {
                                assert(builder.spec_pairs().take(builder.spec_emitted())
                                    =~= st_j.pairs.take(em_old));
                            }
                        },
                    }
                },
                Err(e) => {
                    proof {
                        if offset < INDIRECT_BIT {
                            // the chain-append rule wanted one more pair and
                            // its offset would not fit: the total blocks
                            // bound is violated
                            let stp = spec_add_entry(
                                st_j,
                                pass_lo,
                                pass_hi,
                                bs,
                                entries[j as int].0,
                                entries[j as int].1,
                            );
                            assert(entries.take(j + 1).drop_last() =~= entries.take(j as int));
                            assert(entries.take(j + 1).last() == entries[j as int]);
                            assert(run_pass(entries.take(j + 1), pass_lo, pass_hi, bs, pairs0)
                                == stp);
                            lemma_run_pass_take_grow(entries, j + 1, pass_lo, pass_hi, bs, pairs0);
                            if pass_hi < n as int {
                                lemma_build_slabs_pairs_grow(
                                    entries,
                                    n as int,
                                    sp,
                                    bs,
                                    pass_hi,
                                    run_pass(entries, pass_lo, pass_hi, bs, pairs0).pairs,
                                );
                            }
                            assert(final_regions.1.len() >= stp.pairs.len());
                        }
                    }
                    return Err(e);
                },
            }
            j = j + 1;
        }
        proof {
            assert(entries.take(records@.len() as int) =~= entries);
        }
        let ghost cur_old = builder.cur_slots();
        let ghost pairs_now = builder.spec_pairs();
        let ghost em_old = builder.spec_emitted();
        let (more, slab_op, mut blocks_op) = builder.next();
        let mut sb = slab_op.bytes;
        slots_region.append(&mut sb);
        blocks_region.append(&mut blocks_op.bytes);
        proof {
            lemma_slots_bytes_append(flushed0, cur_old);
            assert(pairs_now.take(em_old) =~= builder.spec_pairs().take(em_old));
            lemma_pairs_bytes_append(pairs_now.take(em_old), pairs_now.skip(em_old));
            assert(pairs_now.take(em_old) + pairs_now.skip(em_old) =~= pairs_now);
            assert(pairs_now.take(pairs_now.len() as int) =~= pairs_now);
            // one unfolding of the build at this pass
            let full = build_slabs(entries, n as int, sp, bs, pass_lo, pairs0);
            let st = run_pass(entries, pass_lo, pass_hi, bs, pairs0);
            assert(st.slots == cur_old && st.pairs == pairs_now);
            if pass_hi >= n as int {
                assert(full == (st.slots, st.pairs));
                assert(final_regions.0 =~= builder.spec_flushed());
            } else {
                let rest = build_slabs(entries, n as int, sp, bs, pass_hi, st.pairs);
                assert(full == (st.slots + rest.0, rest.1));
                assert(final_regions.0 =~= builder.spec_flushed() + rest.0);
            }
        }
        keep_on = more;
    }
    proof {
        assert(builder.spec_pairs().take(builder.spec_pairs().len() as int) =~= builder
            .spec_pairs());
    }
    let mut file = header_bytes;
    let mut sr = slots_region;
    file.append(&mut sr);
    let mut br = blocks_region;
    file.append(&mut br);
    proof {
        lemma_build_slabs_chains(entries, n as int, sp, bs, 0, Seq::<BlockPair>::empty());
        lemma_slots_bytes_len(final_regions.0);
        lemma_pairs_bytes_len(final_regions.1);
        assert(file@ == spec_index_file(
            records_view(records@),
            n,
            index_type,
            separator,
            column,
            in_memory_map_size,
        ));
    }
    Ok(file)
}

/// What an index built over this source must look like, for a given kind.
pub open spec fn spec_index_of_source(src: Seq<u8>, kind: SourceKind, hashmap_size: u64,
    in_memory_map_size: u64) -> Seq<u8> {
    spec_index_file(
        scanned_records(src, kind),
        resolve_hashmap_size(hashmap_size, spec_records(src, kind).len()),
        kind.spec_index_type(),
        kind.spec_separator(),
        kind.spec_column(),
        in_memory_map_size,
    )
}

/// The premises under which a build over this source is owed to succeed:
/// every record yields a key, at least one slot and one slab slot, offsets
/// that fit 63 bits, and a blocks region that stays below the payload
/// bound.
pub open spec fn build_fits(src: Seq<u8>, kind: SourceKind, hashmap_size: u64,
    in_memory_map_size: u64) -> bool {
    let records = scanned_records(src, kind);
    let n = resolve_hashmap_size(hashmap_size, spec_records(src, kind).len());
    let entries = hashed_entries(records, n);
    let regions = built_regions(entries, n, in_memory_map_size);
    &&& all_keys_ok(src, kind)
    &&& n >= 1
    &&& in_memory_map_size >= 1
    &&& src.len() < INDIRECT_BIT
    &&& HEADER_LEN_V0 + 8 * (n as int) + 16 * regions.1.len() <= PAYLOAD_MASK
}

/// Scans the source for the given kind and builds the index file image.
pub fn index_source(source: &Vec<u8>, kind: SourceKind, hashmap_size: u64, in_memory_map_size:
    u64) -> (r: Result<Vec<u8>, IndexError>)
    ensures
        match r {
            Ok(file) => {
                &&& all_keys_ok(source@, kind)
                &&& resolve_hashmap_size(hashmap_size, spec_records(source@, kind).len()) >= 1
                &&& in_memory_map_size >= 1
                &&& file@ == spec_index_of_source(source@, kind, hashmap_size, in_memory_map_size)
            },
            Err(e) => {
                &&& (e == IndexError::ConfigError || e == IndexError::BoundsError)
                &&& (e == IndexError::ConfigError <==> (!all_keys_ok(source@, kind)
                    || resolve_hashmap_size(hashmap_size, spec_records(source@, kind).len()) == 0
                    || in_memory_map_size == 0))
            },
        },
        build_fits(source@, kind, hashmap_size, in_memory_map_size) ==> r is Ok,
{
    let records = match scan_records(source, kind) {
        Ok(v) => v,
        Err(e) => {
            return Err(e);
        },
    };
    let (t, sep, col) = kind.get_types_for_header();
    let r = index(&records, hashmap_size, t, sep, col, in_memory_map_size);
    proof {
        if build_fits(source@, kind, hashmap_size, in_memory_map_size) {
            let offs = spec_records(source@, kind);
            let n = resolve_hashmap_size(hashmap_size, records@.len());
            let entries = hashed_entries(records_view(records@), n);
            assert(records@.len() == offs.len());
            assert(records_view(records@) == scanned_records(source@, kind));
            crate::record::lemma_record_offsets_bounds(source@, 0, kind.spec_lines_per());
            assert forall|k: int| 0 <= k < entries.len() implies (#[trigger] entries[k]).1
                < INDIRECT_BIT by {
                assert(entries[k].1 == records_view(records@)[k].0);
                assert(scanned_records(source@, kind)[k].0 == offs[k] as u64);
                assert(0 <= offs[k] < source@.len());
            }
        }
    }
    r
}

/// Builds the index of a tabular source over the chosen column.
pub fn index_tabular(source: &Vec<u8>, column: u8, separator: u8, hashmap_size: u64,
    in_memory_map_size: u64) -> (r: Result<Vec<u8>, IndexError>)
    ensures
        ({
            let kind = SourceKind::Tabular { separator, column };
            match r {
                Ok(file) => {
                    &&& all_keys_ok(source@, kind)
                    &&& file@ == spec_index_of_source(
                        source@,
                        kind,
                        hashmap_size,
                        in_memory_map_size,
                    )
                },
                Err(e) => {
                    &&& (e == IndexError::ConfigError || e == IndexError::BoundsError)
                    &&& (e == IndexError::ConfigError <==> (!all_keys_ok(source@, kind)
                        || resolve_hashmap_size(
                        hashmap_size,
                        spec_records(source@, kind).len(),
                    ) == 0 || in_memory_map_size == 0))
                },
            }
        }),
        ({
            let kind = SourceKind::Tabular { separator, column };
            build_fits(source@, kind, hashmap_size, in_memory_map_size) ==> r is Ok
        }),
{
    index_source(
        source,
        SourceKind::Tabular { separator, column },
        hashmap_size,
        in_memory_map_size,
    )
}

/// Builds the index of a multi-FASTA source, by id or by sequence.
pub fn index_fasta(source: &Vec<u8>, index_sequence: bool, hashmap_size: u64, in_memory_map_size:
    u64) -> (r: Result<Vec<u8>, IndexError>)
    ensures
        ({
            let kind = if index_sequence {
                SourceKind::FastaSeq
            } else {
                SourceKind::FastaId
            };
            match r {
                Ok(file) => {
                    &&& all_keys_ok(source@, kind)
                    &&& file@ == spec_index_of_source(
                        source@,
                        kind,
                        hashmap_size,
                        in_memory_map_size,
                    )
                },
                Err(e) => {
                    &&& (e == IndexError::ConfigError || e == IndexError::BoundsError)
                    &&& (e == IndexError::ConfigError <==> (!all_keys_ok(source@, kind)
                        || resolve_hashmap_size(
                        hashmap_size,
                        spec_records(source@, kind).len(),
                    ) == 0 || in_memory_map_size == 0))
                },
            }
        }),
        ({
            let kind = if index_sequence {
                SourceKind::FastaSeq
            } else {
                SourceKind::FastaId
            };
            build_fits(source@, kind, hashmap_size, in_memory_map_size) ==> r is Ok
        }),
{
    let kind = if index_sequence {
        SourceKind::FastaSeq
    } else {
        SourceKind::FastaId
    };
    index_source(source, kind, hashmap_size, in_memory_map_size)
}

/// Builds the index of a FASTQ source, by id or by sequence.
pub fn index_fastq(source: &Vec<u8>, index_sequence: bool, hashmap_size: u64, in_memory_map_size:
    u64) -> (r: Result<Vec<u8>, IndexError>)
    ensures
        ({
            let kind = if index_sequence {
                SourceKind::FastqSeq
            } else {
                SourceKind::FastqId
            };
            match r {
                Ok(file) => {
                    &&& all_keys_ok(source@, kind)
                    &&& file@ == spec_index_of_source(
                        source@,
                        kind,
                        hashmap_size,
                        in_memory_map_size,
                    )
                },
                Err(e) => {
                    &&& (e == IndexError::ConfigError || e == IndexError::BoundsError)
                    &&& (e == IndexError::ConfigError <==> (!all_keys_ok(source@, kind)
                        || resolve_hashmap_size(
                        hashmap_size,
                        spec_records(source@, kind).len(),
                    ) == 0 || in_memory_map_size == 0))
                },
            }
        }),
        ({
            let kind = if index_sequence {
                SourceKind::FastqSeq
            } else {
                SourceKind::FastqId
            };
            build_fits(source@, kind, hashmap_size, in_memory_map_size) ==> r is Ok
        }),
{
    let kind = if index_sequence {
        SourceKind::FastqSeq
    } else {
        SourceKind::FastqId
    };
    index_source(source, kind, hashmap_size, in_memory_map_size)
}

} // verus!
