//! The 8-byte tagged index entry — NULL, Direct (a source offset) or
//! Indirect (an offset into the blocks region) — and the slab-partitioned
//! builder that fills the hashmap and blocks regions within a bounded
//! memory budget.

use vstd::prelude::*;
use crate::{IndexError, INDIRECT_BIT, NULL_ENTRY, PAYLOAD_MASK};
use crate::chain::{
    is_direct_entry, is_null_entry, entry_payload, indirect_entry, BlockPair,
    BuildState, spec_add_entry,
};
use crate::codec::{be64_bytes, be64_of, lemma_be64_of_bytes, pairs_bytes, push_be64, slots_bytes};
use crate::header::{Header, spec_header_bytes, CURRENT_VERSION, HEADER_LEN_V0};

verus! {

/// Size in bytes of one hashmap slot.
pub const HASHMAP_ENTRY_SIZE: u8 = 8;

#[derive(PartialEq, Eq, Structural, Clone, Copy, Debug)]
pub enum IndexEntryType {
    Direct,
    Indirect,
    NULL,
}

/// What kind of entry a raw 64-bit slot value is.
pub open spec fn spec_entry_type(e: u64) -> IndexEntryType {
    if is_null_entry(e) {
        IndexEntryType::NULL
    } else if is_direct_entry(e) {
        IndexEntryType::Direct
    } else {
        IndexEntryType::Indirect
    }
}

/// One slot of the hashmap region, or the `next` field of a blocks pair.
#[derive(PartialEq, Eq, Structural, Clone, Copy, Debug)]
pub struct IndexEntry {
    pub index: u64,
}

impl IndexEntry {
    pub fn get_type(&self) -> (t: IndexEntryType)
        ensures
            t == spec_entry_type(self.index),
    {
        if self.index == NULL_ENTRY {
            return IndexEntryType::NULL;
        }
        if self.index < INDIRECT_BIT {
            return IndexEntryType::Direct;
        }
        IndexEntryType::Indirect
    }

    /// The low 63 bits: a source offset for Direct, a blocks-region offset
    /// for Indirect.
    pub fn get_offset(&self) -> (o: u64)
        ensures
            o == entry_payload(self.index),
            o < INDIRECT_BIT,
    {
        let e = self.index;
        proof {
            assert(e & 0x7FFF_FFFF_FFFF_FFFFu64 == if e < 0x8000_0000_0000_0000u64 {
                e
            } else {
                (e - 0x8000_0000_0000_0000u64) as u64
            }) by (bit_vector);
        }
        e & PAYLOAD_MASK
    }

    /// A Direct entry holding a source offset; offsets of 63 bits or more
    /// cannot be represented.
    pub fn new_direct(offset: u64) -> (e: IndexEntry)
        requires
            offset < INDIRECT_BIT,
        ensures
            e.index == offset,
            spec_entry_type(e.index) == IndexEntryType::Direct,
            entry_payload(e.index) == offset,
    {
        IndexEntry { index: offset }
    }

    /// An Indirect entry pointing into the blocks region.
    pub fn new_indirect(offset: u64) -> (e: IndexEntry)
        requires
            offset < PAYLOAD_MASK,
        ensures
            e.index == INDIRECT_BIT + offset,
            spec_entry_type(e.index) == IndexEntryType::Indirect,
            entry_payload(e.index) == offset,
    {
        let o = offset;
        proof {
            assert(o < 0x7FFF_FFFF_FFFF_FFFFu64 ==> (o | 0x8000_0000_0000_0000u64)
                == o + 0x8000_0000_0000_0000u64) by (bit_vector);
        }
        IndexEntry { index: o | INDIRECT_BIT }
    }

    /// The empty-slot / terminator marker.
    pub fn new_null() -> (e: IndexEntry)
        ensures
            e.index == NULL_ENTRY,
            spec_entry_type(e.index) == IndexEntryType::NULL,
    {
        IndexEntry { index: NULL_ENTRY }
    }

    pub fn to_be_bytes(&self) -> (b: [u8; 8])
        ensures
            b@ == be64_bytes(self.index),
    {
        let x = self.index;
        proof {
            lemma_be64_of_bytes(x);
        }
        let b = [
            (x >> 56) as u8,
            (x >> 48) as u8,
            (x >> 40) as u8,
            (x >> 32) as u8,
            (x >> 24) as u8,
            (x >> 16) as u8,
            (x >> 8) as u8,
            x as u8,
        ];
        assert(b@ =~= be64_bytes(x));
        b
    }

    pub fn from_be_bytes(bytes: [u8; 8]) -> (e: IndexEntry)
        ensures
            e.index == be64_of(bytes@),
    {
        let x: u64 = ((bytes[0] as u64) << 56) | ((bytes[1] as u64) << 48) | ((bytes[2] as u64)
            << 40) | ((bytes[3] as u64) << 32) | ((bytes[4] as u64) << 24) | ((bytes[5] as u64)
            << 16) | ((bytes[6] as u64) << 8) | (bytes[7] as u64);
        IndexEntry { index: x }
    }
}

/// Pairs staged in memory before they go to disk, in bytes.
pub const BLOCK_BUFFER_SIZE: usize = 1024 * 50 * 8;

/// One pending write against the index file: `bytes` belong at absolute
/// file position `pos`. The builder computes what to write and where; the
/// caller owns the file and performs the writes, in the order handed out.
pub struct WriteOp {
    pub pos: u64,
    pub bytes: Vec<u8>,
}

/// The slab-partitioned builder. It holds one window `margin_l..margin_h`
/// of the hashmap in memory, stages blocks pairs in a bounded buffer, and
/// emits `WriteOp`s; it never touches a file itself. The ghost fields carry
/// the regions already emitted: the flushed slot values and all pairs
/// created so far.
pub struct IndexStructure {
    pub header: Header,
    pub index_map: Vec<IndexEntry>,
    pub blocks_buffer: Vec<u8>,
    pub block_first_free: u64,
    pub block_buffer_output_offset: u64,
    pub in_memory_map_size: u64,
    pub margin_l: u64,
    pub margin_h: u64,
    pub flushed: Ghost<Seq<u64>>,
    pub pairs: Ghost<Seq<BlockPair>>,
    pub emitted: Ghost<int>,
}

impl IndexStructure {
    /// Number of hashmap slots.
    pub open spec fn n(self) -> int {
        self.header.hashmap_size as int
    }

    /// File offset where the blocks region starts.
    pub open spec fn blocks_start(self) -> int {
        HEADER_LEN_V0 + 8 * self.n()
    }

    /// Slot values of the in-memory slab.
    pub open spec fn cur_slots(self) -> Seq<u64> {
        self.index_map@.map_values(|e: IndexEntry| e.index)
    }

    /// Slot values already flushed, for slots `0..margin_l`.
    pub open spec fn spec_flushed(self) -> Seq<u64> {
        self.flushed@
    }

    /// All pairs created so far, staged or emitted.
    pub open spec fn spec_pairs(self) -> Seq<BlockPair> {
        self.pairs@
    }

    /// How many pairs have already been emitted through a `WriteOp`.
    pub open spec fn spec_emitted(self) -> int {
        self.emitted@
    }

    pub open spec fn spec_margin_l(self) -> int {
        self.margin_l as int
    }

    pub open spec fn spec_margin_h(self) -> int {
        self.margin_h as int
    }

    pub open spec fn spec_slab_size(self) -> int {
        self.in_memory_map_size as int
    }

    /// Everything `wf` says except the staging bound; the buffer is at
    /// this bound only for the instant between filling and flushing,
    /// inside `add_entry`.
    pub open spec fn wf_core(self) -> bool {
        &&& self.header.version == CURRENT_VERSION
        &&& self.header.hashmap_size >= 1
        &&& self.blocks_start() + 16 * self.pairs@.len() <= PAYLOAD_MASK
        &&& self.block_first_free == self.blocks_start() + 16 * self.pairs@.len()
        &&& 0 <= self.emitted@ <= self.pairs@.len()
        &&& self.block_buffer_output_offset == self.blocks_start() + 16 * self.emitted@
        &&& self.blocks_buffer@ == pairs_bytes(self.pairs@.skip(self.emitted@))
        &&& 1 <= self.in_memory_map_size <= self.header.hashmap_size
        &&& self.margin_l == self.flushed@.len()
        &&& 0 <= self.margin_l <= self.margin_h <= self.n()
        &&& self.margin_h == if self.margin_l + self.in_memory_map_size < self.n() {
            self.margin_l + self.in_memory_map_size
        } else {
            self.n()
        }
        &&& self.index_map@.len() == self.margin_h - self.margin_l
    }

    /// The builder's resident footprint stays bounded: the staged blocks
    /// pairs never reach the buffer capacity between calls.
    pub open spec fn wf(self) -> bool {
        &&& self.wf_core()
        &&& self.blocks_buffer@.len() < BLOCK_BUFFER_SIZE
    }

    /// Lays out a fresh index: checks the configuration, and hands back the
    /// header bytes as the first write. The hashmap region is not zero
    /// filled up front; each slab writes its own window when it flushes.
    pub fn new(header: Header, in_memory_map_size: u64) -> (r: Result<
        (IndexStructure, WriteOp),
        IndexError,
    >)
        requires
            header.version == CURRENT_VERSION,
        ensures
            match r {
                Ok((s, op)) => {
                    &&& header.hashmap_size >= 1
                    &&& in_memory_map_size >= 1
                    &&& HEADER_LEN_V0 + 8 * header.hashmap_size <= PAYLOAD_MASK
                    &&& s.wf()
                    &&& s.header == header
                    &&& s.spec_slab_size() == if in_memory_map_size < header.hashmap_size {
                        in_memory_map_size as int
                    } else {
                        header.hashmap_size as int
                    }
                    &&& s.spec_flushed() == Seq::<u64>::empty()
                    &&& s.spec_pairs() == Seq::<BlockPair>::empty()
                    &&& s.spec_emitted() == 0
                    &&& s.spec_margin_l() == 0
                    &&& s.cur_slots() == Seq::new((s.spec_margin_h() - 0) as nat, |i: int| NULL_ENTRY)
                    &&& op.pos == 0
                    &&& op.bytes@ == spec_header_bytes(header)
                },
                Err(e) => {
                    &&& (e == IndexError::ConfigError || e == IndexError::BoundsError)
                    &&& (e == IndexError::ConfigError <==> (header.hashmap_size == 0
                        || in_memory_map_size == 0))
                    &&& (e == IndexError::BoundsError ==> HEADER_LEN_V0 + 8 * header.hashmap_size
                        > PAYLOAD_MASK)
                },
            },
    {
        if header.hashmap_size == 0 || in_memory_map_size == 0 {
            return Err(IndexError::ConfigError);
        }
        if header.hashmap_size > (PAYLOAD_MASK - HEADER_LEN_V0 as u64) / 8 {
            proof {
                let n = header.hashmap_size as int;
                assert(n > (PAYLOAD_MASK - HEADER_LEN_V0) / 8 ==> HEADER_LEN_V0 + 8 * n
                    > PAYLOAD_MASK) by (nonlinear_arith);
            }
            return Err(IndexError::BoundsError);
        }
        proof {
            let n = header.hashmap_size as int;
            assert(n <= (PAYLOAD_MASK - HEADER_LEN_V0) / 8 ==> HEADER_LEN_V0 + 8 * n
                <= PAYLOAD_MASK) by (nonlinear_arith);
        }
        let n = header.hashmap_size;
        let slab = if in_memory_map_size < n {
            in_memory_map_size
        } else {
            n
        };
        let block_starting_address: u64 = HEADER_LEN_V0 as u64 + 8 * n;
        let header_bytes = header.to_bytes();
        let mut index_map: Vec<IndexEntry> = Vec::new();
        let mut i: u64 = 0;
        while i < slab
            invariant
                i <= slab,
                index_map@.len() == i,
                forall|k: int| 0 <= k < i ==> index_map@[k].index == NULL_ENTRY,
            decreases slab - i,
        {
            index_map.push(IndexEntry::new_null());
            i = i + 1;
        }
        let s = IndexStructure {
            header,
            index_map,
            blocks_buffer: Vec::new(),
            block_first_free: block_starting_address,
            block_buffer_output_offset: block_starting_address,
            in_memory_map_size: slab,
            margin_l: 0,
            margin_h: slab,
            flushed: Ghost(Seq::<u64>::empty()),
            pairs: Ghost(Seq::<BlockPair>::empty()),
            emitted: Ghost(0int),
        };
        proof {
            assert(s.blocks_buffer@ =~= pairs_bytes(s.pairs@.skip(0)));
            assert(s.cur_slots() =~= Seq::new((s.spec_margin_h() - 0) as nat, |i: int| NULL_ENTRY));
        }
        Ok((s, WriteOp { pos: 0, bytes: header_bytes }))
    }

    /// Adds one record to the current slab per the chain-append rule; a
    /// record outside the window is left for its own slab. Returns a blocks
    /// write when the staging buffer just filled. Fails only when an offset
    /// would overflow 63 bits.
    pub fn add_entry(&mut self, hash: u64, file_offset: u64) -> (r: Result<
        Option<WriteOp>,
        IndexError,
    >)
        requires
            old(self).wf(),
            hash < old(self).header.hashmap_size,
        ensures
            final(self).wf(),
            final(self).header == old(self).header,
            final(self).spec_margin_l() == old(self).spec_margin_l(),
            final(self).spec_margin_h() == old(self).spec_margin_h(),
            final(self).spec_slab_size() == old(self).spec_slab_size(),
            final(self).spec_flushed() == old(self).spec_flushed(),
            match r {
                Ok(w) => {
                    &&& file_offset < INDIRECT_BIT
                    &&& {
                        let st = spec_add_entry(
                            BuildState {
                                slots: old(self).cur_slots(),
                                pairs: old(self).spec_pairs(),
                            },
                            old(self).spec_margin_l(),
                            old(self).spec_margin_h(),
                            old(self).blocks_start(),
                            hash,
                            file_offset,
                        );
                        &&& final(self).cur_slots() == st.slots
                        &&& final(self).spec_pairs() == st.pairs
                    }
                    &&& match w {
                        None => {
                            &&& final(self).spec_emitted() == old(self).spec_emitted()
                            &&& final(self).blocks_buffer@.len() < BLOCK_BUFFER_SIZE
                        },
                        Some(op) => {
                            &&& final(self).spec_emitted() == final(self).spec_pairs().len()
                            &&& final(self).blocks_buffer@.len() == 0
                            &&& op.pos == old(self).blocks_start() + 16 * old(self).spec_emitted()
                            &&& op.bytes@ == pairs_bytes(
                                final(self).spec_pairs().skip(old(self).spec_emitted()),
                            )
                        },
                    }
                },
                Err(e) => {
                    &&& *final(self) == *old(self)
                    &&& (e == IndexError::BoundsError)
                    &&& (file_offset >= INDIRECT_BIT || {
                        let st = spec_add_entry(
                            BuildState {
                                slots: old(self).cur_slots(),
                                pairs: old(self).spec_pairs(),
                            },
                            old(self).spec_margin_l(),
                            old(self).spec_margin_h(),
                            old(self).blocks_start(),
                            hash,
                            file_offset,
                        );
                        &&& st.pairs.len() == old(self).spec_pairs().len() + 1
                        &&& old(self).block_first_free + 16 > PAYLOAD_MASK
                    })
                },
            },
    {
        if file_offset >= INDIRECT_BIT {
            return Err(IndexError::BoundsError);
        }
        if hash < self.margin_l || hash >= self.margin_h {
            proof {
                assert(final(self).cur_slots() =~= old(self).cur_slots());
            }
            return Ok(None);
        }
        let idx64 = hash - self.margin_l;
        let map_len = self.index_map.len();
        assert(idx64 < map_len);
        let i = idx64 as usize;
        let cur = self.index_map[i];
        assert(self.cur_slots()[i as int] == cur.index);
        let ghost old_slots = self.cur_slots();
        let ghost old_pairs = self.pairs@;
        let ghost st = spec_add_entry(
            BuildState { slots: old_slots, pairs: old_pairs },
            self.spec_margin_l(),
            self.spec_margin_h(),
            self.blocks_start(),
            hash,
            file_offset,
        );
        match cur.get_type() {
            IndexEntryType::NULL => {
                self.index_map[i] = IndexEntry::new_direct(file_offset);
                proof {
                    assert(is_null_entry(old_slots[i as int]));
                    assert(st.slots == old_slots.update(i as int, file_offset));
                    assert(self.index_map@ == old(self).index_map@.update(
                        i as int,
                        IndexEntry { index: file_offset },
                    ));
                    assert(self.cur_slots() =~= st.slots);
                }
                Ok(None)
            },
            _ => {
                if self.block_first_free > PAYLOAD_MASK - 16 {
                    proof {
                        assert(!is_null_entry(old_slots[i as int]));
                        assert(st.pairs.len() == old_pairs.len() + 1);
                    }
                    return Err(IndexError::BoundsError);
                }
                let is_direct = cur.get_type() == IndexEntryType::Direct;
                let (p0, p1): (u64, u64) = if is_direct {
                    (cur.index, file_offset)
                } else {
                    (file_offset, cur.index)
                };
                let ghost old_buf = self.blocks_buffer@;
                push_be64(&mut self.blocks_buffer, p0);
                push_be64(&mut self.blocks_buffer, p1);
                let ne = IndexEntry::new_indirect(self.block_first_free);
                self.index_map[i] = ne;
                proof {
                    self.pairs@ = old_pairs.push((p0, p1));
                    assert(!is_null_entry(old_slots[i as int]));
                    assert(ne.index == indirect_entry(
                        (old(self).blocks_start() + 16 * old_pairs.len()) as u64,
                    ));
                    assert(st.slots == old_slots.update(i as int, ne.index));
                    assert(self.index_map@ == old(self).index_map@.update(i as int, ne));
                    assert(self.cur_slots() =~= st.slots);
                    assert(self.pairs@ =~= st.pairs);
                    let em = self.emitted@;
                    assert(self.pairs@.skip(em).drop_last() =~= old_pairs.skip(em));
                    assert(self.pairs@.skip(em).last() == (p0, p1));
                    assert(self.blocks_buffer@ =~= pairs_bytes(self.pairs@.skip(em)));
                }
                self.block_first_free = self.block_first_free + 16;
                if self.blocks_buffer.len() >= BLOCK_BUFFER_SIZE {
                    let op = self.flush_staged();
                    Ok(Some(op))
                } else {
                    proof {
                        crate::codec::lemma_pairs_bytes_len(self.pairs@.skip(self.emitted@));
                    }
                    Ok(None)
                }
            },
        }
    }

    /// Hands out the staged blocks pairs as one write at the current blocks
    /// append position, and advances that position.
    fn flush_staged(&mut self) -> (op: WriteOp)
        requires
            old(self).wf_core(),
        ensures
            final(self).wf(),
            final(self).blocks_buffer@.len() == 0,
            final(self).header == old(self).header,
            final(self).spec_margin_l() == old(self).spec_margin_l(),
            final(self).spec_margin_h() == old(self).spec_margin_h(),
            final(self).spec_slab_size() == old(self).spec_slab_size(),
            final(self).spec_flushed() == old(self).spec_flushed(),
            final(self).cur_slots() == old(self).cur_slots(),
            final(self).spec_pairs() == old(self).spec_pairs(),
            final(self).spec_emitted() == final(self).spec_pairs().len(),
            op.pos == old(self).blocks_start() + 16 * old(self).spec_emitted(),
            op.bytes@ == pairs_bytes(old(self).spec_pairs().skip(old(self).spec_emitted())),
    {
        let mut bytes: Vec<u8> = Vec::new();
        core::mem::swap(&mut bytes, &mut self.blocks_buffer);
        let pos = self.block_buffer_output_offset;
        proof {
            crate::codec::lemma_pairs_bytes_len(self.pairs@.skip(self.emitted@));
        }
        let new_out = self.block_buffer_output_offset + (bytes.len() as u64);
        self.block_buffer_output_offset = new_out;
        proof {
            self.emitted@ = self.pairs@.len() as int;
            assert(self.blocks_buffer@ =~= pairs_bytes(self.pairs@.skip(self.emitted@)));
        }
        WriteOp { pos, bytes }
    }

    /// Flushes any staged pairs out as a write. Kept public so a caller
    /// driving the builder record by record can force the blocks region out
    /// without ending the slab.
    pub fn flush_block_buffer(&mut self) -> (op: WriteOp)
        requires
            old(self).wf(),
        ensures
            final(self).wf(),
            final(self).blocks_buffer@.len() == 0,
            final(self).header == old(self).header,
            final(self).spec_margin_l() == old(self).spec_margin_l(),
            final(self).spec_margin_h() == old(self).spec_margin_h(),
            final(self).spec_slab_size() == old(self).spec_slab_size(),
            final(self).spec_flushed() == old(self).spec_flushed(),
            final(self).cur_slots() == old(self).cur_slots(),
            final(self).spec_pairs() == old(self).spec_pairs(),
            final(self).spec_emitted() == final(self).spec_pairs().len(),
            op.pos == old(self).blocks_start() + 16 * old(self).spec_emitted(),
            op.bytes@ == pairs_bytes(old(self).spec_pairs().skip(old(self).spec_emitted())),
    {
        self.flush_staged()
    }

    /// Ends the current slab: hands out the slab's slot bytes at their place
    /// in the hashmap region and the staged blocks pairs at the blocks
    /// append position, then advances the window. Returns whether another
    /// pass over the records is needed.
    pub fn next(&mut self) -> (r: (bool, WriteOp, WriteOp))
        requires
            old(self).wf(),
        ensures
            final(self).wf(),
            final(self).header == old(self).header,
            final(self).spec_slab_size() == old(self).spec_slab_size(),
            r.1.pos == HEADER_LEN_V0 + 8 * old(self).spec_margin_l(),
            r.1.bytes@ == slots_bytes(old(self).cur_slots()),
            r.2.pos == old(self).blocks_start() + 16 * old(self).spec_emitted(),
            r.2.bytes@ == pairs_bytes(old(self).spec_pairs().skip(old(self).spec_emitted())),
            final(self).spec_flushed() == old(self).spec_flushed() + old(self).cur_slots(),
            final(self).spec_pairs() == old(self).spec_pairs(),
            final(self).spec_emitted() == final(self).spec_pairs().len(),
            final(self).spec_margin_l() == old(self).spec_margin_h(),
            final(self).cur_slots() == Seq::new(
                (final(self).spec_margin_h() - final(self).spec_margin_l()) as nat,
                |i: int| NULL_ENTRY,
            ),
            r.0 == (final(self).spec_margin_l() < final(self).n()),
    {
        // encode the slab
        let mut slab_bytes: Vec<u8> = Vec::new();
        let mut i: usize = 0;
        let ghost cur = self.cur_slots();
        while i < self.index_map.len()
            invariant
                i <= self.index_map@.len(),
                cur == self.index_map@.map_values(|e: IndexEntry| e.index),
                cur.len() == self.index_map@.len(),
                slab_bytes@ == slots_bytes(cur.take(i as int)),
            decreases self.index_map@.len() - i,
        {
            let ghost pre = slab_bytes@;
            push_be64(&mut slab_bytes, self.index_map[i].index);
            proof {
                assert(cur.take(i + 1).drop_last() =~= cur.take(i as int));
                assert(cur.take(i + 1).last() == cur[i as int]);
            }
            i = i + 1;
        }
        proof {
            assert(cur.take(cur.len() as int) =~= cur);
        }
        let slab_pos: u64 = HEADER_LEN_V0 as u64 + 8 * self.margin_l;
        let slab_op = WriteOp { pos: slab_pos, bytes: slab_bytes };
        proof {
            let ml = old(self).spec_margin_l();
            let nn = self.n();
            assert(ml <= nn ==> 8 * ml <= 8 * nn) by (nonlinear_arith);
        }
        // advance the window
        let n = self.header.hashmap_size;
        proof {
            self.flushed@ = self.flushed@ + cur;
        }
        self.margin_l = self.margin_h;
        self.margin_h = if self.margin_h <= n - self.in_memory_map_size {
            self.margin_h + self.in_memory_map_size
        } else {
            n
        };
        let keep_on = self.margin_l < n;
        // fresh slab for the next window
        let slab_len = self.margin_h - self.margin_l;
        let mut index_map: Vec<IndexEntry> = Vec::new();
        let mut k: u64 = 0;
        while k < slab_len
            invariant
                k <= slab_len,
                index_map@.len() == k,
                forall|j: int| 0 <= j < k ==> index_map@[j].index == NULL_ENTRY,
            decreases slab_len - k,
        {
            index_map.push(IndexEntry::new_null());
            k = k + 1;
        }
        self.index_map = index_map;
        // emit the staged pairs at the blocks append position
        let blocks_op = self.flush_staged();
        proof {
            assert(self.cur_slots() =~= Seq::new(
                (self.spec_margin_h() - self.spec_margin_l()) as nat,
                |i: int| NULL_ENTRY,
            ));
        }
        (keep_on, slab_op, blocks_op)
    }
}

} // verus!
