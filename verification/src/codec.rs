//! Big-endian encodings used throughout the index file: single 8-byte words,
//! and the concatenated byte images of the hashmap region (8 bytes per slot)
//! and of the blocks region (16 bytes per pair).

use vstd::prelude::*;

verus! {

/// The 8 big-endian bytes of a 64-bit word, most significant first.
pub open spec fn be64_bytes(x: u64) -> Seq<u8> {
    seq![
        (x >> 56) as u8,
        (x >> 48) as u8,
        (x >> 40) as u8,
        (x >> 32) as u8,
        (x >> 24) as u8,
        (x >> 16) as u8,
        (x >> 8) as u8,
        x as u8,
    ]
}

/// The 64-bit word read big-endian from 8 bytes.
pub open spec fn be64_of(s: Seq<u8>) -> u64
    recommends
        s.len() == 8,
{
    ((s[0] as u64) << 56) | ((s[1] as u64) << 48) | ((s[2] as u64) << 40) | ((s[3] as u64) << 32)
        | ((s[4] as u64) << 24) | ((s[5] as u64) << 16) | ((s[6] as u64) << 8) | (s[7] as u64)
}

pub proof fn lemma_be64_of_bytes(x: u64)
    ensures
        be64_bytes(x).len() == 8,
        be64_of(be64_bytes(x)) == x,
{
    let s = be64_bytes(x);
    assert(((((x >> 56) as u8) as u64) << 56) | ((((x >> 48) as u8) as u64) << 48) | ((((x >> 40)
        as u8) as u64) << 40) | ((((x >> 32) as u8) as u64) << 32) | ((((x >> 24) as u8) as u64)
        << 24) | ((((x >> 16) as u8) as u64) << 16) | ((((x >> 8) as u8) as u64) << 8) | ((x
        as u8) as u64) == x) by (bit_vector);
    assert(be64_of(s) == x);
}

pub proof fn lemma_be64_bytes_of(s: Seq<u8>)
    requires
        s.len() == 8,
    ensures
        be64_bytes(be64_of(s)) == s,
{
    let x = be64_of(s);
    let b0 = s[0];
    let b1 = s[1];
    let b2 = s[2];
    let b3 = s[3];
    let b4 = s[4];
    let b5 = s[5];
    let b6 = s[6];
    let b7 = s[7];
    let y = ((b0 as u64) << 56) | ((b1 as u64) << 48) | ((b2 as u64) << 40) | ((b3 as u64) << 32)
        | ((b4 as u64) << 24) | ((b5 as u64) << 16) | ((b6 as u64) << 8) | (b7 as u64);
    assert((y >> 56) as u8 == b0 && (y >> 48) as u8 == b1 && (y >> 40) as u8 == b2 && (y >> 32)
        as u8 == b3 && (y >> 24) as u8 == b4 && (y >> 16) as u8 == b5 && (y >> 8) as u8 == b6 && y
        as u8 == b7) by (bit_vector)
        requires
            y == ((b0 as u64) << 56) | ((b1 as u64) << 48) | ((b2 as u64) << 40) | ((b3 as u64)
                << 32) | ((b4 as u64) << 24) | ((b5 as u64) << 16) | ((b6 as u64) << 8) | (b7
                as u64),
    ;
    assert(be64_bytes(x) =~= s);
}

/// Appends the big-endian bytes of `x` to `out`.
pub fn push_be64(out: &mut Vec<u8>, x: u64)
    ensures
        final(out)@ == old(out)@ + be64_bytes(x),
{
    proof {
        lemma_be64_of_bytes(x);
    }
    out.push((x >> 56) as u8);
    out.push((x >> 48) as u8);
    out.push((x >> 40) as u8);
    out.push((x >> 32) as u8);
    out.push((x >> 24) as u8);
    out.push((x >> 16) as u8);
    out.push((x >> 8) as u8);
    out.push(x as u8);
    assert(out@ =~= old(out)@ + be64_bytes(x));
}

/// Reads a 64-bit word big-endian from `buf` at byte position `pos`.
pub fn read_be64(buf: &Vec<u8>, pos: usize) -> (x: u64)
    requires
        pos + 8 <= buf@.len(),
    ensures
        x == be64_of(buf@.subrange(pos as int, pos + 8)),
{
    let n = buf.len();
    let x: u64 = ((buf[pos] as u64) << 56) | ((buf[pos + 1] as u64) << 48) | ((buf[pos + 2] as u64)
        << 40) | ((buf[pos + 3] as u64) << 32) | ((buf[pos + 4] as u64) << 24) | ((buf[pos + 5]
        as u64) << 16) | ((buf[pos + 6] as u64) << 8) | (buf[pos + 7] as u64);
    proof {
        let s = buf@.subrange(pos as int, pos + 8);
        assert(s[0] == buf@[pos as int] && s[1] == buf@[pos + 1] && s[2] == buf@[pos + 2] && s[3]
            == buf@[pos + 3] && s[4] == buf@[pos + 4] && s[5] == buf@[pos + 5] && s[6] == buf@[pos
            + 6] && s[7] == buf@[pos + 7]);
    }
    x
}

/// Byte image of the hashmap region: 8 big-endian bytes per slot value.
pub open spec fn slots_bytes(slots: Seq<u64>) -> Seq<u8>
    decreases slots.len(),
{
    if slots.len() == 0 {
        Seq::<u8>::empty()
    } else {
        slots_bytes(slots.drop_last()) + be64_bytes(slots.last())
    }
}

/// Byte image of the blocks region: 16 big-endian bytes per pair
/// `(file_offset, next)`.
pub open spec fn pairs_bytes(pairs: Seq<(u64, u64)>) -> Seq<u8>
    decreases pairs.len(),
{
    if pairs.len() == 0 {
        Seq::<u8>::empty()
    } else {
        pairs_bytes(pairs.drop_last()) + be64_bytes(pairs.last().0) + be64_bytes(pairs.last().1)
    }
}

pub proof fn lemma_slots_bytes_len(slots: Seq<u64>)
    ensures
        slots_bytes(slots).len() == 8 * slots.len(),
    decreases slots.len(),
{
    if slots.len() > 0 {
        lemma_slots_bytes_len(slots.drop_last());
    }
}

pub proof fn lemma_pairs_bytes_len(pairs: Seq<(u64, u64)>)
    ensures
        pairs_bytes(pairs).len() == 16 * pairs.len(),
    decreases pairs.len(),
{
    if pairs.len() > 0 {
        lemma_pairs_bytes_len(pairs.drop_last());
    }
}

/// Each slot occupies its own 8-byte window of the region image.
pub proof fn lemma_slots_bytes_index(slots: Seq<u64>, i: int)
    requires
        0 <= i < slots.len(),
    ensures
        slots_bytes(slots).subrange(8 * i, 8 * i + 8) == be64_bytes(slots[i]),
    decreases slots.len(),
{
    lemma_slots_bytes_len(slots);
    lemma_slots_bytes_len(slots.drop_last());
    if i == slots.len() - 1 {
        assert(slots_bytes(slots).subrange(8 * i, 8 * i + 8) =~= be64_bytes(slots.last()));
    } else {
        lemma_slots_bytes_index(slots.drop_last(), i);
        assert(slots_bytes(slots).subrange(8 * i, 8 * i + 8) =~= slots_bytes(
            slots.drop_last(),
        ).subrange(8 * i, 8 * i + 8));
    }
}

/// Each pair occupies its own 16-byte window of the region image.
pub proof fn lemma_pairs_bytes_index(pairs: Seq<(u64, u64)>, j: int)
    requires
        0 <= j < pairs.len(),
    ensures
        pairs_bytes(pairs).subrange(16 * j, 16 * j + 8) == be64_bytes(pairs[j].0),
        pairs_bytes(pairs).subrange(16 * j + 8, 16 * j + 16) == be64_bytes(pairs[j].1),
    decreases pairs.len(),
{
    lemma_pairs_bytes_len(pairs);
    lemma_pairs_bytes_len(pairs.drop_last());
    if j == pairs.len() - 1 {
        assert(pairs_bytes(pairs).subrange(16 * j, 16 * j + 8) =~= be64_bytes(pairs.last().0));
        assert(pairs_bytes(pairs).subrange(16 * j + 8, 16 * j + 16) =~= be64_bytes(
            pairs.last().1,
        ));
    } else {
        lemma_pairs_bytes_index(pairs.drop_last(), j);
        assert(pairs_bytes(pairs).subrange(16 * j, 16 * j + 8) =~= pairs_bytes(
            pairs.drop_last(),
        ).subrange(16 * j, 16 * j + 8));
        assert(pairs_bytes(pairs).subrange(16 * j + 8, 16 * j + 16) =~= pairs_bytes(
            pairs.drop_last(),
        ).subrange(16 * j + 8, 16 * j + 16));
    }
}

/// The region image of a concatenation is the concatenation of the images.
pub proof fn lemma_slots_bytes_append(a: Seq<u64>, b: Seq<u64>)
    ensures
        slots_bytes(a + b) == slots_bytes(a) + slots_bytes(b),
    decreases b.len(),
{
    if b.len() == 0 {
        assert(a + b =~= a);
        assert(slots_bytes(a) + slots_bytes(b) =~= slots_bytes(a));
    } else {
        lemma_slots_bytes_append(a, b.drop_last());
        assert((a + b).drop_last() =~= a + b.drop_last());
        assert((a + b).last() == b.last());
        assert(slots_bytes(a) + slots_bytes(b) =~= slots_bytes(a) + slots_bytes(b.drop_last())
            + be64_bytes(b.last()));
    }
}

pub proof fn lemma_pairs_bytes_append(a: Seq<(u64, u64)>, b: Seq<(u64, u64)>)
    ensures
        pairs_bytes(a + b) == pairs_bytes(a) + pairs_bytes(b),
    decreases b.len(),
{
    if b.len() == 0 {
        assert(a + b =~= a);
        assert(pairs_bytes(a) + pairs_bytes(b) =~= pairs_bytes(a));
    } else {
        lemma_pairs_bytes_append(a, b.drop_last());
        assert((a + b).drop_last() =~= a + b.drop_last());
        assert((a + b).last() == b.last());
        assert(pairs_bytes(a) + pairs_bytes(b) =~= pairs_bytes(a) + pairs_bytes(b.drop_last())
            + be64_bytes(b.last().0) + be64_bytes(b.last().1));
    }
}

} // verus!
