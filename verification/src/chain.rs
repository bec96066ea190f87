//! The mathematical model of the index: raw 64-bit slot values, the walk of a
//! collision chain through the blocks region, the chain each slot should hold
//! for a given record stream, and the slab-partitioned build as a pure
//! function. The executable builder and lookup are verified against these.

use vstd::prelude::*;
use crate::{INDIRECT_BIT, NULL_ENTRY, PAYLOAD_MASK};

verus! {

/// One 16-byte pair of the blocks region: `(file_offset, next_entry)`.
pub type BlockPair = (u64, u64);

pub open spec fn is_null_entry(e: u64) -> bool {
    e == NULL_ENTRY
}

pub open spec fn is_direct_entry(e: u64) -> bool {
    e < INDIRECT_BIT
}

pub open spec fn is_indirect_entry(e: u64) -> bool {
    INDIRECT_BIT <= e < NULL_ENTRY
}

/// The low 63 bits of an entry value.
pub open spec fn entry_payload(e: u64) -> u64 {
    if e < INDIRECT_BIT {
        e
    } else {
        (e - INDIRECT_BIT) as u64
    }
}

/// The entry value of an Indirect entry with payload `p`.
pub open spec fn indirect_entry(p: u64) -> u64
    recommends
        p < PAYLOAD_MASK,
{
    (INDIRECT_BIT + p) as u64
}

/// Walks the chain that starts at entry value `e`, given the pairs of the
/// blocks region and the file offset `bs` at which that region starts.
/// Returns the candidate source offsets in visit order, or `None` when the
/// chain is malformed (a pointer outside the region, unaligned, or not
/// strictly decreasing, so that a walk would not terminate).
pub open spec fn walk_chain(e: u64, pairs: Seq<BlockPair>, bs: int) -> Option<Seq<u64>>
    decreases entry_payload(e),
{
    if is_null_entry(e) {
        Some(Seq::<u64>::empty())
    } else if is_direct_entry(e) {
        Some(seq![e])
    } else {
        let p = entry_payload(e) as int;
        if p < bs || (p - bs) % 16 != 0 {
            None
        } else {
            let j = (p - bs) / 16;
            if j >= pairs.len() {
                None
            } else {
                let o = pairs[j].0;
                let nxt = pairs[j].1;
                if is_null_entry(nxt) {
                    Some(seq![o])
                } else if is_direct_entry(nxt) {
                    Some(seq![o, nxt])
                } else if entry_payload(nxt) < entry_payload(e) {
                    match walk_chain(nxt, pairs, bs) {
                        Option::None => Option::<Seq<u64>>::None,
                        Option::Some(rest) => Some(seq![o] + rest),
                    }
                } else {
                    None
                }
            }
        }
    }
}

/// Appending pairs at the end of the blocks region does not disturb a chain
/// that already walks successfully.
pub proof fn lemma_walk_chain_append(e: u64, pairs: Seq<BlockPair>, more: Seq<BlockPair>, bs: int)
    requires
        walk_chain(e, pairs, bs) is Some,
    ensures
        walk_chain(e, pairs + more, bs) == walk_chain(e, pairs, bs),
    decreases entry_payload(e),
{
    if is_null_entry(e) || is_direct_entry(e) {
    } else {
        let p = entry_payload(e) as int;
        let j = (p - bs) / 16;
        let nxt = pairs[j].1;
        assert((pairs + more)[j] == pairs[j]);
        if !is_null_entry(nxt) && !is_direct_entry(nxt) && entry_payload(nxt) < entry_payload(e) {
            lemma_walk_chain_append(nxt, pairs, more, bs);
        }
    }
}

/// How one more record with offset `o` extends a slot's chain. An empty
/// chain becomes one Direct candidate; a single Direct candidate is demoted
/// to the terminator of a fresh pair, so the new offset is visited second;
/// a longer chain gets the new offset pushed on its front.
pub open spec fn chain_append(c: Seq<u64>, o: u64) -> Seq<u64> {
    if c.len() == 0 {
        seq![o]
    } else if c.len() == 1 {
        seq![c[0], o]
    } else {
        seq![o] + c
    }
}

/// The chain that slot `h` must hold after the records `entries`
/// (hash, source offset) have been added in stream order.
pub open spec fn model_chain(entries: Seq<(u64, u64)>, h: u64) -> Seq<u64>
    decreases entries.len(),
{
    if entries.len() == 0 {
        Seq::<u64>::empty()
    } else {
        let prev = model_chain(entries.drop_last(), h);
        if entries.last().0 == h {
            chain_append(prev, entries.last().1)
        } else {
            prev
        }
    }
}

/// How many records of `entries` hash to `h`.
pub open spec fn count_hash(entries: Seq<(u64, u64)>, h: u64) -> int
    decreases entries.len(),
{
    if entries.len() == 0 {
        0
    } else {
        count_hash(entries.drop_last(), h) + if entries.last().0 == h {
            1int
        } else {
            0int
        }
    }
}

/// A slot's chain has exactly one candidate per record hashing to it.
pub proof fn lemma_model_chain_len(entries: Seq<(u64, u64)>, h: u64)
    ensures
        model_chain(entries, h).len() == count_hash(entries, h),
    decreases entries.len(),
{
    if entries.len() > 0 {
        lemma_model_chain_len(entries.drop_last(), h);
    }
}

/// A slot's chain holds exactly the source offsets of the records that hash
/// to it.
pub proof fn lemma_model_chain_membership(entries: Seq<(u64, u64)>, h: u64, o: u64)
    ensures
        model_chain(entries, h).contains(o) <==> exists|k: int|
            0 <= k < entries.len() && entries[k] == (h, o),
    decreases entries.len(),
{
    if entries.len() == 0 {
    } else {
        let prev = entries.drop_last();
        lemma_model_chain_membership(prev, h, o);
        let c = model_chain(prev, h);
        let full = model_chain(entries, h);
        if entries.last().0 == h {
            assert(full == chain_append(c, entries.last().1));
            if entries.last().1 == o {
                assert(full.contains(o)) by {
                    if c.len() == 0 {
                        assert(full[0] == o);
                    } else if c.len() == 1 {
                        assert(full[1] == o);
                    } else {
                        assert(full[0] == o);
                    }
                }
                assert(entries[entries.len() - 1] == (h, o));
            } else {
                assert(full.contains(o) <==> c.contains(o)) by {
                    lemma_chain_append_contains(c, entries.last().1, o);
                }
                assert((exists|k: int| 0 <= k < prev.len() && prev[k] == (h, o)) <==> (exists|
                    k: int,
                |
                    0 <= k < entries.len() && entries[k] == (h, o))) by {
                    if exists|k: int| 0 <= k < prev.len() && prev[k] == (h, o) {
                        let k = choose|k: int| 0 <= k < prev.len() && prev[k] == (h, o);
                        assert(entries[k] == (h, o));
                    }
                    if exists|k: int| 0 <= k < entries.len() && entries[k] == (h, o) {
                        let k = choose|k: int| 0 <= k < entries.len() && entries[k] == (h, o);
                        assert(k < prev.len() && prev[k] == (h, o));
                    }
                }
            }
        } else {
            assert(full == c);
            assert((exists|k: int| 0 <= k < prev.len() && prev[k] == (h, o)) <==> (exists|k: int|
                0 <= k < entries.len() && entries[k] == (h, o))) by {
                if exists|k: int| 0 <= k < prev.len() && prev[k] == (h, o) {
                    let k = choose|k: int| 0 <= k < prev.len() && prev[k] == (h, o);
                    assert(entries[k] == (h, o));
                }
                if exists|k: int| 0 <= k < entries.len() && entries[k] == (h, o) {
                    let k = choose|k: int| 0 <= k < entries.len() && entries[k] == (h, o);
                    assert(k < prev.len() && prev[k] == (h, o));
                }
            }
        }
    }
}

/// The in-memory state of one build pass: the slab's slot values and all
/// blocks pairs created so far (over all passes).
pub struct BuildState {
    pub slots: Seq<u64>,
    pub pairs: Seq<BlockPair>,
}

/// The chain-append rule of the builder, as a pure step function. `lo..hi`
/// is the slab window, `bs` the file offset of the blocks region, `(h, o)`
/// the incoming record's hash and source offset.
pub open spec fn spec_add_entry(st: BuildState, lo: int, hi: int, bs: int, h: u64, o: u64)
    -> BuildState {
    if h < lo || h >= hi {
        st
    } else {
        let i = h - lo;
        let s = st.slots[i];
        if is_null_entry(s) {
            BuildState { slots: st.slots.update(i, o), pairs: st.pairs }
        } else {
            let ne = indirect_entry((bs + 16 * st.pairs.len()) as u64);
            let pr: BlockPair = if is_direct_entry(s) {
                (s, o)
            } else {
                (o, s)
            };
            BuildState { slots: st.slots.update(i, ne), pairs: st.pairs.push(pr) }
        }
    }
}

/// One full pass: a fresh all-NULL slab for the window `lo..hi`, then every
/// record of `entries` added in stream order, starting from the pairs
/// `pairs0` that earlier passes created.
pub open spec fn run_pass(entries: Seq<(u64, u64)>, lo: int, hi: int, bs: int, pairs0: Seq<
    BlockPair,
>) -> BuildState
    decreases entries.len(),
{
    if entries.len() == 0 {
        BuildState { slots: Seq::new((hi - lo) as nat, |i: int| NULL_ENTRY), pairs: pairs0 }
    } else {
        spec_add_entry(
            run_pass(entries.drop_last(), lo, hi, bs, pairs0),
            lo,
            hi,
            bs,
            entries.last().0,
            entries.last().1,
        )
    }
}

/// The whole slab-partitioned build from window start `lo` on: the slot
/// values of slots `lo..n` in order, and the final pairs of the blocks
/// region. `sp` is the slab size.
pub open spec fn build_slabs(entries: Seq<(u64, u64)>, n: int, sp: int, bs: int, lo: int, pairs0:
    Seq<BlockPair>) -> (Seq<u64>, Seq<BlockPair>)
    decreases n - lo,
    when lo < n && sp >= 1
{
    let hi = if lo + sp < n {
        lo + sp
    } else {
        n
    };
    let st = run_pass(entries, lo, hi, bs, pairs0);
    if hi >= n {
        (st.slots, st.pairs)
    } else {
        let rest = build_slabs(entries, n, sp, bs, hi, st.pairs);
        (st.slots + rest.0, rest.1)
    }
}

/// What holds of one slot value `s` whose chain should be `model`: the walk
/// yields exactly `model`, and the tag of `s` reflects the chain's length.
pub open spec fn slot_inv(s: u64, pairs: Seq<BlockPair>, bs: int, model: Seq<u64>) -> bool {
    &&& walk_chain(s, pairs, bs) == Some(model)
    &&& (is_null_entry(s) <==> model.len() == 0)
    &&& (is_direct_entry(s) ==> model.len() == 1 && model[0] == s)
    &&& (is_indirect_entry(s) ==> {
        &&& model.len() >= 2
        &&& bs <= entry_payload(s)
        &&& (entry_payload(s) - bs) % 16 == 0
        &&& (entry_payload(s) - bs) / 16 < pairs.len()
    })
}

/// `run_pass` only ever appends to the pairs it was given.
pub proof fn lemma_run_pass_pairs_grow(entries: Seq<(u64, u64)>, lo: int, hi: int, bs: int,
    pairs0: Seq<BlockPair>)
    ensures
        run_pass(entries, lo, hi, bs, pairs0).pairs.len() >= pairs0.len(),
        run_pass(entries, lo, hi, bs, pairs0).pairs.take(pairs0.len() as int) == pairs0,
    decreases entries.len(),
{
    if entries.len() == 0 {
        assert(run_pass(entries, lo, hi, bs, pairs0).pairs.take(pairs0.len() as int) =~= pairs0);
    } else {
        lemma_run_pass_pairs_grow(entries.drop_last(), lo, hi, bs, pairs0);
        let st = run_pass(entries.drop_last(), lo, hi, bs, pairs0);
        let st2 = run_pass(entries, lo, hi, bs, pairs0);
        assert(st2.pairs == st.pairs || st2.pairs == st.pairs.push(
            st2.pairs[st2.pairs.len() - 1],
        ));
        assert(st2.pairs.take(pairs0.len() as int) =~= st.pairs.take(pairs0.len() as int));
    }
}

/// Correctness of one pass: every slot of the slab carries exactly the chain
/// that the model assigns it, provided every source offset fits in 63 bits
/// and the blocks region stays below the payload bound.
pub proof fn lemma_run_pass_chains(entries: Seq<(u64, u64)>, lo: int, hi: int, bs: int, pairs0:
    Seq<BlockPair>)
    requires
        0 <= lo <= hi <= NULL_ENTRY,
        bs >= 0,
        forall|k: int| 0 <= k < entries.len() ==> (#[trigger] entries[k]).1 < INDIRECT_BIT,
        bs + 16 * run_pass(entries, lo, hi, bs, pairs0).pairs.len() <= PAYLOAD_MASK,
    ensures
        run_pass(entries, lo, hi, bs, pairs0).slots.len() == hi - lo,
        forall|i: int|
            0 <= i < hi - lo ==> slot_inv(
                #[trigger] run_pass(entries, lo, hi, bs, pairs0).slots[i],
                run_pass(entries, lo, hi, bs, pairs0).pairs,
                bs,
                model_chain(entries, (lo + i) as u64),
            ),
    decreases entries.len(),
{
    let st2 = run_pass(entries, lo, hi, bs, pairs0);
    if entries.len() == 0 {
        assert(forall|i: int|
            0 <= i < hi - lo ==> (#[trigger] model_chain(entries, (lo + i) as u64)).len() == 0);
    } else {
        let prev = entries.drop_last();
        let st = run_pass(prev, lo, hi, bs, pairs0);
        let h = entries.last().0;
        let o = entries.last().1;
        assert(entries[entries.len() - 1].1 < INDIRECT_BIT);
        assert(st.pairs.len() <= st2.pairs.len());
        lemma_run_pass_chains(prev, lo, hi, bs, pairs0);
        assert forall|i: int| 0 <= i < hi - lo implies slot_inv(
            st2.slots[i],
            st2.pairs,
            bs,
            model_chain(entries, (lo + i) as u64),
        ) by {
            let hv = (lo + i) as u64;
            assert(hv == lo + i);
            let mprev = model_chain(prev, hv);
            let m2 = model_chain(entries, hv);
            let s = st.slots[i];
            assert(slot_inv(s, st.pairs, bs, mprev));
            if h < lo || h >= hi {
                assert(st2 == st);
                assert(h != hv);
                assert(m2 == mprev);
            } else if h != hv {
                // another slot of this slab took the record
                assert(m2 == mprev);
                assert(st2.slots[i] == s);
                if st2.pairs.len() > st.pairs.len() {
                    assert(st2.pairs == st.pairs + st2.pairs.skip(st.pairs.len() as int)) by {
                        assert(st2.pairs =~= st.pairs + st2.pairs.skip(st.pairs.len() as int));
                    }
                    lemma_walk_chain_append(
                        s,
                        st.pairs,
                        st2.pairs.skip(st.pairs.len() as int),
                        bs,
                    );
                }
            } else {
                // this record lands in slot i
                assert(m2 == chain_append(mprev, o));
                if is_null_entry(s) {
                    assert(st2.slots[i] == o);
                    assert(mprev.len() == 0);
                    assert(o < INDIRECT_BIT);
                    assert(walk_chain(o, st2.pairs, bs) == Some(seq![o]));
                    assert(m2 =~= seq![o]);
                } else {
                    let np = (bs + 16 * st.pairs.len()) as u64;
                    let ne = indirect_entry(np);
                    assert(bs + 16 * st.pairs.len() + 16 <= bs + 16 * st2.pairs.len());
                    assert(np == bs + 16 * st.pairs.len());
                    assert(np < PAYLOAD_MASK);
                    assert(ne == INDIRECT_BIT + np);
                    assert(is_indirect_entry(ne));
                    assert(entry_payload(ne) == np);
                    let j = (entry_payload(ne) - bs) / 16;
                    assert((entry_payload(ne) - bs) % 16 == 0 && j == st.pairs.len()) by {
                        let q = st.pairs.len() as int;
                        assert((16 * q) % 16 == 0 && (16 * q) / 16 == q) by (nonlinear_arith);
                    }
                    assert(st2.slots[i] == ne);
                    assert(st2.pairs.len() == st.pairs.len() + 1);
                    if is_direct_entry(s) {
                        assert(st2.pairs[j] == (s, o));
                        assert(mprev.len() == 1 && mprev[0] == s);
                        assert(o < INDIRECT_BIT);
                        assert(walk_chain(ne, st2.pairs, bs) == Some(seq![s, o]));
                        assert(m2 =~= seq![s, o]);
                    } else {
                        assert(is_indirect_entry(s));
                        assert(st2.pairs[j] == (o, s));
                        assert(mprev.len() >= 2);
                        // the old head points strictly below the new pair
                        assert(entry_payload(s) == bs + 16 * ((entry_payload(s) - bs) / 16));
                        assert((entry_payload(s) - bs) / 16 < st.pairs.len());
                        assert(entry_payload(s) < entry_payload(ne)) by {
                            let a = (entry_payload(s) - bs) / 16;
                            let b = st.pairs.len() as int;
                            assert(a < b ==> 16 * a < 16 * b) by (nonlinear_arith);
                        }
                        assert(st2.pairs == st.pairs + seq![(o, s)]) by {
                            assert(st2.pairs =~= st.pairs + seq![(o, s)]);
                        }
                        lemma_walk_chain_append(s, st.pairs, seq![(o, s)], bs);
                        assert(walk_chain(s, st2.pairs, bs) == Some(mprev));
                        assert(walk_chain(ne, st2.pairs, bs) == Some(seq![o] + mprev));
                        assert(m2 == seq![o] + mprev);
                    }
                }
            }
        }
    }
}

/// Processing a prefix of the records never creates more pairs than the
/// whole pass does.
pub proof fn lemma_run_pass_take_grow(entries: Seq<(u64, u64)>, j: int, lo: int, hi: int, bs: int,
    pairs0: Seq<BlockPair>)
    requires
        0 <= j <= entries.len(),
    ensures
        run_pass(entries, lo, hi, bs, pairs0).pairs.len() >= run_pass(
            entries.take(j),
            lo,
            hi,
            bs,
            pairs0,
        ).pairs.len(),
    decreases entries.len(),
{
    if j == entries.len() {
        assert(entries.take(j) =~= entries);
    } else {
        let prev = entries.drop_last();
        lemma_run_pass_take_grow(prev, j, lo, hi, bs, pairs0);
        assert(prev.take(j) =~= entries.take(j));
    }
}

/// A slot invariant survives appending pairs at the end of the blocks region.
proof fn lemma_slot_inv_append(s: u64, pairs: Seq<BlockPair>, more: Seq<BlockPair>, bs: int,
    model: Seq<u64>)
    requires
        slot_inv(s, pairs, bs, model),
    ensures
        slot_inv(s, pairs + more, bs, model),
{
    lemma_walk_chain_append(s, pairs, more, bs);
}

/// The build only ever appends to the pairs it was given.
pub proof fn lemma_build_slabs_pairs_grow(entries: Seq<(u64, u64)>, n: int, sp: int, bs: int,
    lo: int, pairs0: Seq<BlockPair>)
    requires
        0 <= lo < n,
        sp >= 1,
    ensures
        build_slabs(entries, n, sp, bs, lo, pairs0).1.len() >= pairs0.len(),
        build_slabs(entries, n, sp, bs, lo, pairs0).1.take(pairs0.len() as int) == pairs0,
    decreases n - lo,
{
    let hi = if lo + sp < n {
        lo + sp
    } else {
        n
    };
    let st = run_pass(entries, lo, hi, bs, pairs0);
    lemma_run_pass_pairs_grow(entries, lo, hi, bs, pairs0);
    if hi < n {
        lemma_build_slabs_pairs_grow(entries, n, sp, bs, hi, st.pairs);
        let fin = build_slabs(entries, n, sp, bs, lo, pairs0).1;
        assert(fin.take(pairs0.len() as int) =~= fin.take(st.pairs.len() as int).take(
            pairs0.len() as int,
        ));
    }
}

/// Correctness of the whole slab-partitioned build: every slot of the final
/// hashmap region carries exactly the chain that the model assigns it. Each
/// slot belongs to exactly one slab, and later slabs only append pairs, so
/// earlier chains survive untouched.
pub proof fn lemma_build_slabs_chains(entries: Seq<(u64, u64)>, n: int, sp: int, bs: int, lo: int,
    pairs0: Seq<BlockPair>)
    requires
        0 <= lo < n <= NULL_ENTRY,
        sp >= 1,
        bs >= 0,
        forall|k: int| 0 <= k < entries.len() ==> (#[trigger] entries[k]).1 < INDIRECT_BIT,
        bs + 16 * build_slabs(entries, n, sp, bs, lo, pairs0).1.len() <= PAYLOAD_MASK,
    ensures
        build_slabs(entries, n, sp, bs, lo, pairs0).0.len() == n - lo,
        forall|i: int|
            0 <= i < n - lo ==> slot_inv(
                #[trigger] build_slabs(entries, n, sp, bs, lo, pairs0).0[i],
                build_slabs(entries, n, sp, bs, lo, pairs0).1,
                bs,
                model_chain(entries, (lo + i) as u64),
            ),
    decreases n - lo,
{
    let hi = if lo + sp < n {
        lo + sp
    } else {
        n
    };
    let st = run_pass(entries, lo, hi, bs, pairs0);
    let r = build_slabs(entries, n, sp, bs, lo, pairs0);
    if hi >= n {
        lemma_run_pass_chains(entries, lo, hi, bs, pairs0);
    } else {
        lemma_build_slabs_pairs_grow(entries, n, sp, bs, hi, st.pairs);
        assert(bs + 16 * st.pairs.len() <= PAYLOAD_MASK);
        lemma_run_pass_chains(entries, lo, hi, bs, pairs0);
        lemma_build_slabs_chains(entries, n, sp, bs, hi, st.pairs);
        let rest = build_slabs(entries, n, sp, bs, hi, st.pairs);
        assert(r.0 == st.slots + rest.0 && r.1 == rest.1);
        assert(rest.1 == st.pairs + rest.1.skip(st.pairs.len() as int)) by {
            assert(rest.1 =~= st.pairs + rest.1.skip(st.pairs.len() as int));
        }
        assert forall|i: int| 0 <= i < n - lo implies slot_inv(
            r.0[i],
            r.1,
            bs,
            model_chain(entries, (lo + i) as u64),
        ) by {
            if i < hi - lo {
                assert(r.0[i] == st.slots[i]);
                assert(slot_inv(st.slots[i], st.pairs, bs, model_chain(entries, (lo + i) as u64)));
                lemma_slot_inv_append(
                    st.slots[i],
                    st.pairs,
                    rest.1.skip(st.pairs.len() as int),
                    bs,
                    model_chain(entries, (lo + i) as u64),
                );
            } else {
                assert(r.0[i] == rest.0[i - (hi - lo)]);
                assert(slot_inv(
                    rest.0[i - (hi - lo)],
                    rest.1,
                    bs,
                    model_chain(entries, (hi + (i - (hi - lo))) as u64),
                ));
                assert((hi + (i - (hi - lo))) as u64 == (lo + i) as u64);
            }
        }
    }
}

proof fn lemma_chain_append_contains(c: Seq<u64>, o: u64, x: u64)
    ensures
        chain_append(c, o).contains(x) <==> (c.contains(x) || x == o),
{
    let r = chain_append(c, o);
    if c.len() == 0 {
        assert(r[0] == o);
        assert(r.contains(x) ==> x == o) by {
            if r.contains(x) {
                let i = choose|i: int| 0 <= i < r.len() && r[i] == x;
                assert(i == 0);
            }
        }
    } else if c.len() == 1 {
        assert(r[0] == c[0] && r[1] == o);
        if r.contains(x) {
            let i = choose|i: int| 0 <= i < r.len() && r[i] == x;
            assert(i == 0 || i == 1);
            if i == 0 {
                assert(c.contains(x)) by {
                    assert(c[0] == x);
                }
            }
        }
        if c.contains(x) {
            let i = choose|i: int| 0 <= i < c.len() && c[i] == x;
            assert(r[0] == x);
        }
        if x == o {
            assert(r[1] == x);
        }
    } else {
        assert(r[0] == o);
        if r.contains(x) {
            let i = choose|i: int| 0 <= i < r.len() && r[i] == x;
            if i > 0 {
                assert(c[i - 1] == x);
            }
        }
        if c.contains(x) {
            let i = choose|i: int| 0 <= i < c.len() && c[i] == x;
            assert(r[i + 1] == x);
        }
        if x == o {
            assert(r[0] == x);
        }
    }
}

} // verus!
