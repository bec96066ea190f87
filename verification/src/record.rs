//! Records of the three source shapes, over in-memory bytes: where a record
//! starts and ends, which line carries its key, how the key is cut out of
//! that line, and how a candidate offset is verified against an expected
//! key. Offsets are byte positions in the decompressed source.

use vstd::prelude::*;
use crate::IndexError;
use crate::header::Header;

verus! {

/// Line feed and carriage return.
pub const LF: u8 = 10;

pub const CR: u8 = 13;

/// The shape of the source and what keys it: a tabular column, a FASTA
/// record's id or sequence line, or a FASTQ record's id or sequence line.
#[derive(PartialEq, Eq, Structural, Clone, Copy, Debug)]
pub enum SourceKind {
    Tabular { separator: u8, column: u8 },
    FastaId,
    FastaSeq,
    FastqId,
    FastqSeq,
}

impl SourceKind {
    /// How many lines one record spans.
    pub open spec fn spec_lines_per(self) -> nat {
        match self {
            SourceKind::Tabular { .. } => 1,
            SourceKind::FastaId => 2,
            SourceKind::FastaSeq => 2,
            SourceKind::FastqId => 4,
            SourceKind::FastqSeq => 4,
        }
    }

    /// Which of those lines carries the key.
    pub open spec fn spec_key_line(self) -> nat {
        match self {
            SourceKind::Tabular { .. } => 0,
            SourceKind::FastaId => 0,
            SourceKind::FastaSeq => 1,
            SourceKind::FastqId => 0,
            SourceKind::FastqSeq => 1,
        }
    }

    /// The discriminator stored in the header.
    pub open spec fn spec_index_type(self) -> u8 {
        match self {
            SourceKind::Tabular { .. } => 0,
            SourceKind::FastaId => 1,
            SourceKind::FastaSeq => 2,
            SourceKind::FastqId => 3,
            SourceKind::FastqSeq => 4,
        }
    }

    pub open spec fn spec_separator(self) -> u8 {
        match self {
            SourceKind::Tabular { separator, .. } => separator,
            _ => 0,
        }
    }

    pub open spec fn spec_column(self) -> u8 {
        match self {
            SourceKind::Tabular { column, .. } => column,
            _ => 0,
        }
    }

    pub fn lines_per(&self) -> (r: usize)
        ensures
            r == self.spec_lines_per(),
    {
        match self {
            SourceKind::Tabular { .. } => 1,
            SourceKind::FastaId => 2,
            SourceKind::FastaSeq => 2,
            SourceKind::FastqId => 4,
            SourceKind::FastqSeq => 4,
        }
    }

    pub fn key_line(&self) -> (r: usize)
        ensures
            r == self.spec_key_line(),
    {
        match self {
            SourceKind::Tabular { .. } => 0,
            SourceKind::FastaId => 0,
            SourceKind::FastaSeq => 1,
            SourceKind::FastqId => 0,
            SourceKind::FastqSeq => 1,
        }
    }

    /// `(index_type, separator, column)`, the fields the header stores.
    pub fn get_types_for_header(&self) -> (r: (u8, u8, u8))
        ensures
            r.0 == self.spec_index_type(),
            r.1 == self.spec_separator(),
            r.2 == self.spec_column(),
    {
        match self {
            SourceKind::Tabular { separator, column } => (0, *separator, *column),
            SourceKind::FastaId => (1, 0, 0),
            SourceKind::FastaSeq => (2, 0, 0),
            SourceKind::FastqId => (3, 0, 0),
            SourceKind::FastqSeq => (4, 0, 0),
        }
    }
}

/// The source kind a header names, if its discriminator is known.
pub open spec fn spec_kind_of_header(h: Header) -> Option<SourceKind> {
    if h.index_type == 0 {
        Some(SourceKind::Tabular { separator: h.separator, column: h.column })
    } else if h.index_type == 1 {
        Some(SourceKind::FastaId)
    } else if h.index_type == 2 {
        Some(SourceKind::FastaSeq)
    } else if h.index_type == 3 {
        Some(SourceKind::FastqId)
    } else if h.index_type == 4 {
        Some(SourceKind::FastqSeq)
    } else {
        None
    }
}

/// Reconstructs the source kind from a decoded header.
pub fn kind_of_header(h: &Header) -> (r: Option<SourceKind>)
    ensures
        r == spec_kind_of_header(*h),
{
    if h.index_type == 0 {
        Some(SourceKind::Tabular { separator: h.separator, column: h.column })
    } else if h.index_type == 1 {
        Some(SourceKind::FastaId)
    } else if h.index_type == 2 {
        Some(SourceKind::FastaSeq)
    } else if h.index_type == 3 {
        Some(SourceKind::FastqId)
    } else if h.index_type == 4 {
        Some(SourceKind::FastqSeq)
    } else {
        None
    }
}

/// The position just past the line starting at `pos`: past its line feed,
/// or the end of the source for an unterminated last line.
pub open spec fn line_end(src: Seq<u8>, pos: int) -> int
    decreases src.len() - pos,
    when 0 <= pos <= src.len()
{
    if pos >= src.len() {
        src.len() as int
    } else if src[pos] == LF {
        pos + 1
    } else {
        line_end(src, pos + 1)
    }
}

pub proof fn lemma_line_end_bounds(src: Seq<u8>, pos: int)
    requires
        0 <= pos <= src.len(),
    ensures
        pos <= line_end(src, pos) <= src.len(),
        pos < src.len() ==> pos < line_end(src, pos),
    decreases src.len() - pos,
{
    if pos < src.len() && src[pos] != LF {
        lemma_line_end_bounds(src, pos + 1);
    }
}

/// The position just past `k` consecutive lines starting at `pos`.
pub open spec fn lines_end(src: Seq<u8>, pos: int, k: nat) -> int
    decreases k,
{
    if k == 0 {
        pos
    } else {
        lines_end(src, line_end(src, pos), (k - 1) as nat)
    }
}

pub proof fn lemma_lines_end_bounds(src: Seq<u8>, pos: int, k: nat)
    requires
        0 <= pos <= src.len(),
    ensures
        pos <= lines_end(src, pos, k) <= src.len(),
        pos < src.len() && k >= 1 ==> pos < lines_end(src, pos, k),
    decreases k,
{
    if k >= 1 {
        lemma_line_end_bounds(src, pos);
        lemma_lines_end_bounds(src, line_end(src, pos), (k - 1) as nat);
    }
}

/// Where the record starting at `pos` ends.
pub open spec fn record_end(src: Seq<u8>, pos: int, kind: SourceKind) -> int {
    lines_end(src, pos, kind.spec_lines_per())
}

/// The whole record starting at `pos`, line terminators included.
pub open spec fn record_bytes(src: Seq<u8>, pos: int, kind: SourceKind) -> Seq<u8> {
    src.subrange(pos, record_end(src, pos, kind))
}

/// Start and end of the record's key line.
pub open spec fn key_line_start(src: Seq<u8>, pos: int, kind: SourceKind) -> int {
    lines_end(src, pos, kind.spec_key_line())
}

pub open spec fn key_line_end(src: Seq<u8>, pos: int, kind: SourceKind) -> int {
    line_end(src, key_line_start(src, pos, kind))
}

/// First occurrence of `sep` in `src[from..end)`, or `end`.
pub open spec fn field_end(src: Seq<u8>, sep: u8, from: int, end: int) -> int
    decreases end - from,
    when 0 <= from && end <= src.len()
{
    if from >= end {
        end
    } else if src[from] == sep {
        from
    } else {
        field_end(src, sep, from + 1, end)
    }
}

pub proof fn lemma_field_end_bounds(src: Seq<u8>, sep: u8, from: int, end: int)
    requires
        0 <= from <= end <= src.len(),
    ensures
        from <= field_end(src, sep, from, end) <= end,
    decreases end - from,
{
    if from < end && src[from] != sep {
        lemma_field_end_bounds(src, sep, from + 1, end);
    }
}

/// Bounds of field number `col` (0-based) of `src[from..end)` split at
/// `sep`; `None` when the range has fewer fields.
pub open spec fn nth_field(src: Seq<u8>, sep: u8, from: int, end: int, col: nat) -> Option<
    (int, int),
>
    decreases col,
{
    let fe = field_end(src, sep, from, end);
    if col == 0 {
        Some((from, fe))
    } else if fe >= end {
        None
    } else {
        nth_field(src, sep, fe + 1, end, (col - 1) as nat)
    }
}

/// The bytes with every trailing line feed and carriage return removed.
pub open spec fn strip_crlf(s: Seq<u8>) -> Seq<u8>
    decreases s.len(),
{
    if s.len() > 0 && (s.last() == LF || s.last() == CR) {
        strip_crlf(s.drop_last())
    } else {
        s
    }
}

/// The key of the record starting at `pos`: the requested column of its key
/// line for tabular sources (`None` when the line has no such column), the
/// whole key line otherwise; trailing line terminators stripped either way.
pub open spec fn record_key(src: Seq<u8>, pos: int, kind: SourceKind) -> Option<Seq<u8>> {
    let ks = key_line_start(src, pos, kind);
    let ke = key_line_end(src, pos, kind);
    match kind {
        SourceKind::Tabular { separator, column } => match nth_field(
            src,
            separator,
            ks,
            ke,
            column as nat,
        ) {
            None => None,
            Some((a, b)) => Some(strip_crlf(src.subrange(a, b))),
        },
        _ => Some(strip_crlf(src.subrange(ks, ke))),
    }
}

/// The start offsets of all records: one record per `lpr` lines, from the
/// start of the source until no bytes remain.
pub open spec fn record_offsets_from(src: Seq<u8>, pos: int, lpr: nat) -> Seq<int>
    decreases src.len() - pos,
    when 0 <= pos <= src.len() && lpr >= 1
    via record_offsets_from_dec
{
    if pos >= src.len() {
        Seq::<int>::empty()
    } else {
        seq![pos] + record_offsets_from(src, lines_end(src, pos, lpr), lpr)
    }
}

#[via_fn]
proof fn record_offsets_from_dec(src: Seq<u8>, pos: int, lpr: nat) {
    if pos < src.len() {
        lemma_lines_end_bounds(src, pos, lpr);
    }
}

/// The start offsets of all records of the source.
pub open spec fn spec_records(src: Seq<u8>, kind: SourceKind) -> Seq<int> {
    record_offsets_from(src, 0, kind.spec_lines_per())
}

/// Every record offset lies inside the source.
pub proof fn lemma_record_offsets_bounds(src: Seq<u8>, pos: int, lpr: nat)
    requires
        0 <= pos <= src.len(),
        lpr >= 1,
    ensures
        forall|k: int|
            0 <= k < record_offsets_from(src, pos, lpr).len() ==> pos <= #[trigger] record_offsets_from(
                src,
                pos,
                lpr,
            )[k] < src.len(),
    decreases src.len() - pos,
{
    if pos < src.len() {
        lemma_lines_end_bounds(src, pos, lpr);
        let nx = lines_end(src, pos, lpr);
        lemma_record_offsets_bounds(src, nx, lpr);
        let o = record_offsets_from(src, pos, lpr);
        let rest = record_offsets_from(src, nx, lpr);
        assert(o == seq![pos] + rest);
        assert forall|k: int| 0 <= k < o.len() implies pos <= #[trigger] o[k] < src.len() by {
            if k > 0 {
                assert(o[k] == rest[k - 1]);
            }
        }
    }
}

/// Whether every record of the source yields a key.
pub open spec fn all_keys_ok(src: Seq<u8>, kind: SourceKind) -> bool {
    forall|i: int|
        0 <= i < spec_records(src, kind).len() ==> record_key(
            src,
            #[trigger] spec_records(src, kind)[i],
            kind,
        ) is Some
}

/// The records of the source as the builder consumes them: offset and key.
pub open spec fn scanned_records(src: Seq<u8>, kind: SourceKind) -> Seq<(u64, Seq<u8>)> {
    Seq::new(
        spec_records(src, kind).len(),
        |i: int|
            (
                spec_records(src, kind)[i] as u64,
                record_key(src, spec_records(src, kind)[i], kind).unwrap(),
            ),
    )
}

/// What verifying offset `pos` against `key` yields: the record's bytes
/// when the record there carries exactly that key.
pub open spec fn spec_verify(src: Seq<u8>, pos: int, kind: SourceKind, key: Seq<u8>) -> Option<
    Seq<u8>,
> {
    if !(0 <= pos <= src.len()) {
        None
    } else if record_key(src, pos, kind) == Some(key) {
        Some(record_bytes(src, pos, kind))
    } else {
        None
    }
}

/// Finds the end of the line starting at `pos`.
#[verifier::loop_isolation(false)]
pub fn find_line_end(src: &Vec<u8>, pos: usize) -> (end: usize)
    requires
        pos <= src@.len(),
    ensures
        end == line_end(src@, pos as int),
{
    let n = src.len();
    let mut i = pos;
    while i < n
        invariant
            pos <= i <= n,
            line_end(src@, pos as int) == line_end(src@, i as int),
        decreases n - i,
    {
        if src[i] == LF {
            return i + 1;
        }
        i = i + 1;
    }
    i
}

/// Skips `k` lines from `pos`.
#[verifier::loop_isolation(false)]
pub fn skip_lines(src: &Vec<u8>, pos: usize, k: usize) -> (end: usize)
    requires
        pos <= src@.len(),
    ensures
        end == lines_end(src@, pos as int, k as nat),
{
    let mut i = pos;
    let mut left = k;
    while left > 0
        invariant
            i <= src@.len(),
            left <= k,
            lines_end(src@, pos as int, k as nat) == lines_end(src@, i as int, left as nat),
        decreases left,
    {
        proof {
            lemma_line_end_bounds(src@, i as int);
        }
        i = find_line_end(src, i);
        left = left - 1;
    }
    i
}

/// Finds the first separator in `src[from..end)`, or `end`.
#[verifier::loop_isolation(false)]
pub fn find_field_end(src: &Vec<u8>, sep: u8, from: usize, end: usize) -> (r: usize)
    requires
        from <= end <= src@.len(),
    ensures
        r == field_end(src@, sep, from as int, end as int),
{
    let mut i = from;
    while i < end
        invariant
            from <= i <= end,
            field_end(src@, sep, from as int, end as int) == field_end(
                src@,
                sep,
                i as int,
                end as int,
            ),
        decreases end - i,
    {
        if src[i] == sep {
            return i;
        }
        i = i + 1;
    }
    i
}

/// Finds the bounds of field `col` of `src[from..end)`.
#[verifier::loop_isolation(false)]
pub fn find_nth_field(src: &Vec<u8>, sep: u8, from: usize, end: usize, col: u8) -> (r: Option<
    (usize, usize),
>)
    requires
        from <= end <= src@.len(),
    ensures
        match r {
            Some((a, b)) => nth_field(src@, sep, from as int, end as int, col as nat) == Some(
                (a as int, b as int),
            ) && from <= a <= b <= end,
            None => nth_field(src@, sep, from as int, end as int, col as nat) is None,
        },
{
    let mut f = from;
    let mut left = col;
    while left > 0
        invariant
            from <= f <= end,
            left <= col,
            nth_field(src@, sep, from as int, end as int, col as nat) == nth_field(
                src@,
                sep,
                f as int,
                end as int,
                left as nat,
            ),
        decreases left,
    {
        proof {
            lemma_field_end_bounds(src@, sep, f as int, end as int);
        }
        let fe = find_field_end(src, sep, f, end);
        if fe >= end {
            return None;
        }
        f = fe + 1;
        left = left - 1;
    }
    proof {
        lemma_field_end_bounds(src@, sep, f as int, end as int);
    }
    let fe = find_field_end(src, sep, f, end);
    Some((f, fe))
}

/// Copies `src[a..b)` with trailing line terminators stripped.
#[verifier::loop_isolation(false)]
pub fn copy_stripped(src: &Vec<u8>, a: usize, b: usize) -> (v: Vec<u8>)
    requires
        a <= b <= src@.len(),
    ensures
        v@ == strip_crlf(src@.subrange(a as int, b as int)),
{
    let mut e = b;
    while e > a && (src[e - 1] == LF || src[e - 1] == CR)
        invariant
            a <= e <= b,
            strip_crlf(src@.subrange(a as int, b as int)) == strip_crlf(
                src@.subrange(a as int, e as int),
            ),
        decreases e,
    {
        proof {
            assert(src@.subrange(a as int, e as int).drop_last() =~= src@.subrange(
                a as int,
                e - 1,
            ));
        }
        e = e - 1;
    }
    let mut v: Vec<u8> = Vec::new();
    let mut i = a;
    while i < e
        invariant
            a <= i <= e,
            v@ == src@.subrange(a as int, i as int),
        decreases e - i,
    {
        let ghost pre = v@;
        v.push(src[i]);
        proof {
            assert(pre.push(src@[i as int]) =~= src@.subrange(a as int, i + 1));
        }
        i = i + 1;
    }
    proof {
        let w = src@.subrange(a as int, e as int);
        if e > a {
            assert(w.last() == src@[e - 1]);
        }
        assert(strip_crlf(w) == w);
    }
    v
}

/// Reads the record starting at `pos`: where it ends, and its key if the
/// key line has one.
pub fn read_record(src: &Vec<u8>, pos: usize, kind: SourceKind) -> (r: (usize, Option<Vec<u8>>))
    requires
        pos <= src@.len(),
    ensures
        r.0 == record_end(src@, pos as int, kind),
        match r.1 {
            Some(k) => record_key(src@, pos as int, kind) == Some(k@),
            None => record_key(src@, pos as int, kind) is None,
        },
{
    proof {
        lemma_lines_end_bounds(src@, pos as int, kind.spec_key_line());
    }
    let ks = skip_lines(src, pos, kind.key_line());
    proof {
        lemma_line_end_bounds(src@, ks as int);
    }
    let ke = find_line_end(src, ks);
    proof {
        lemma_lines_end_bounds(src@, pos as int, kind.spec_lines_per());
    }
    let re = skip_lines(src, pos, kind.lines_per());
    let key: Option<Vec<u8>> = match kind {
        SourceKind::Tabular { separator, column } => {
            match find_nth_field(src, separator, ks, ke, column) {
                Some((a, b)) => Some(copy_stripped(src, a, b)),
                None => None,
            }
        },
        _ => Some(copy_stripped(src, ks, ke)),
    };
    (re, key)
}

/// Seeks to `offset`, reads one record, and compares its key to `value`:
/// the whole record when they match, nothing otherwise.
pub fn test_and_return_entry(source: &Vec<u8>, offset: u64, kind: SourceKind, value: &Vec<u8>)
    -> (r: Option<Vec<u8>>)
    ensures
        match r {
            Some(rec) => spec_verify(source@, offset as int, kind, value@) == Some(rec@),
            None => spec_verify(source@, offset as int, kind, value@) is None,
        },
{
    let len = source.len();
    if offset > len as u64 {
        return None;
    }
    let pos = offset as usize;
    let (re, key) = read_record(source, pos, kind);
    match key {
        None => None,
        Some(k) => {
            if !byte_eq(&k, value) {
                return None;
            }
            proof {
                lemma_lines_end_bounds(source@, pos as int, kind.spec_lines_per());
            }
            let mut rec: Vec<u8> = Vec::new();
            let mut i = pos;
            while i < re
                invariant
                    pos <= i <= re,
                    re <= source@.len(),
                    rec@ == source@.subrange(pos as int, i as int),
                decreases re - i,
            {
                let ghost pre = rec@;
                rec.push(source[i]);
                proof {
                    assert(pre.push(source@[i as int]) =~= source@.subrange(pos as int, i + 1));
                }
                i = i + 1;
            }
            Some(rec)
        },
    }
}

/// Byte-for-byte equality of two buffers.
#[verifier::loop_isolation(false)]
pub fn byte_eq(a: &Vec<u8>, b: &Vec<u8>) -> (r: bool)
    ensures
        r == (a@ == b@),
{
    if a.len() != b.len() {
        return false;
    }
    let n = a.len();
    let mut i: usize = 0;
    while i < n
        invariant
            i <= n,
            forall|k: int| 0 <= k < i ==> a@[k] == b@[k],
        decreases n - i,
    {
        if a[i] != b[i] {
            return false;
        }
        i = i + 1;
    }
    proof {
        assert(a@ =~= b@);
    }
    true
}

/// Walks the source once and yields every record's offset and key, in
/// stream order. Fails with `ConfigError` at the first record whose key
/// line lacks the requested column.
#[verifier::loop_isolation(false)]
pub fn scan_records(source: &Vec<u8>, kind: SourceKind) -> (r: Result<
    Vec<(u64, Vec<u8>)>,
    IndexError,
>)
    ensures
        match r {
            Ok(v) => {
                &&& all_keys_ok(source@, kind)
                &&& crate::indexer::records_view(v@) == scanned_records(source@, kind)
                &&& v@.len() == spec_records(source@, kind).len()
                &&& forall|i: int|
                    0 <= i < v@.len() ==> (#[trigger] v@[i]).0 == spec_records(source@, kind)[i]
            },
            Err(e) => {
                &&& e == IndexError::ConfigError
                &&& !all_keys_ok(source@, kind)
            },
        },
{
    let lpr = kind.lines_per();
    let ghost offs = spec_records(source@, kind);
    let mut out: Vec<(u64, Vec<u8>)> = Vec::new();
    let mut pos: usize = 0;
    let len = source.len();
    while pos < len
        invariant
            pos <= len,
            out@.len() <= offs.len(),
            record_offsets_from(source@, pos as int, kind.spec_lines_per()) =~= offs.skip(
                out@.len() as int,
            ),
            forall|i: int|
                0 <= i < out@.len() ==> (#[trigger] out@[i]).0 == offs[i] && record_key(
                    source@,
                    offs[i],
                    kind,
                ) == Some(out@[i].1@),
        decreases len - pos,
    {
        proof {
            assert(kind.spec_lines_per() >= 1);
            lemma_lines_end_bounds(source@, pos as int, kind.spec_lines_per());
            assert(record_offsets_from(source@, pos as int, kind.spec_lines_per()) == seq![
                pos as int,
            ] + record_offsets_from(
                source@,
                lines_end(source@, pos as int, kind.spec_lines_per()),
                kind.spec_lines_per(),
            ));
            assert(offs.skip(out@.len() as int)[0] == pos as int);
            assert(offs[out@.len() as int] == pos as int);
        }
        let (re, key) = read_record(source, pos, kind);
        match key {
            None => {
                proof {
                    assert(record_key(source@, offs[out@.len() as int], kind) is None);
                    assert(!all_keys_ok(source@, kind));
                }
                return Err(IndexError::ConfigError);
            },
            Some(k) => {
                let ghost pre = out@;
                out.push((pos as u64, k));
                proof {
                    assert(record_offsets_from(
                        source@,
                        re as int,
                        kind.spec_lines_per(),
                    ) =~= offs.skip(out@.len() as int)) by {
                        assert(offs.skip(pre.len() as int).skip(1) =~= offs.skip(
                            pre.len() as int + 1,
                        ));
                    }
                }
                pos = re;
            },
        }
    }
    proof {
        assert(offs.skip(out@.len() as int).len() == 0);
        assert(out@.len() == offs.len());
        assert forall|i: int| 0 <= i < offs.len() implies record_key(
            source@,
            #[trigger] spec_records(source@, kind)[i],
            kind,
        ) is Some by {
            assert(out@[i].0 == offs[i]);
            assert(record_key(source@, offs[i], kind) == Some(out@[i].1@));
        }
        assert forall|i: int|
            0 <= i < offs.len() implies #[trigger] crate::indexer::records_view(out@)[i]
            == scanned_records(source@, kind)[i] by {
            assert(out@[i].0 == offs[i]);
            assert(record_key(source@, offs[i], kind) == Some(out@[i].1@));
        }
        assert(crate::indexer::records_view(out@) =~= scanned_records(source@, kind));
    }
    Ok(out)
}

} // verus!
