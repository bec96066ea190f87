//! Stateful record readers over an in-memory source, one per source shape.
//! Each keeps a cursor and hands out `(offset, key)` pairs in stream order,
//! re-reads a record at a stored offset to verify a key against it, and
//! reports the record count used when no hashmap size was requested.

use vstd::prelude::*;
use crate::IndexError;
use crate::record::{
    read_record, record_end, record_key, record_offsets_from, spec_records, spec_verify,
    test_and_return_entry, SourceKind,
};

verus! {

/// End-of-stream sentinel handed out by `get_entry`.
pub const END_OF_STREAM: u64 = 0xFFFF_FFFF_FFFF_FFFF;

/// Advances one record from `pos`: hands back the record's offset (or the
/// end-of-stream sentinel), the new cursor, and the record's key through
/// `buffer`. Trailing line terminators of the key are stripped.
pub fn source_get_entry(source: &Vec<u8>, pos: usize, kind: SourceKind, buffer: &mut Vec<u8>)
    -> (r: Result<(u64, usize), IndexError>)
    requires
        pos <= source@.len(),
    ensures
        match r {
            Ok((off, np)) => {
                &&& np <= source@.len()
                &&& if pos >= source@.len() {
                    &&& off == END_OF_STREAM
                    &&& np == pos
                    &&& final(buffer)@ == old(buffer)@
                } else {
                    &&& off == pos
                    &&& np == record_end(source@, pos as int, kind)
                    &&& record_key(source@, pos as int, kind) == Some(final(buffer)@)
                }
            },
            Err(e) => {
                &&& e == IndexError::ConfigError
                &&& pos < source@.len()
                &&& record_key(source@, pos as int, kind) is None
            },
        },
{
    if pos >= source.len() {
        return Ok((END_OF_STREAM, pos));
    }
    proof {
        crate::record::lemma_lines_end_bounds(source@, pos as int, kind.spec_lines_per());
    }
    let (re, key) = read_record(source, pos, kind);
    match key {
        None => Err(IndexError::ConfigError),
        Some(k) => {
            *buffer = k;
            Ok((pos as u64, re))
        },
    }
}

/// Counts the records of the source: what `num_entries` reports and what a
/// requested hashmap size of 0 resolves to.
#[verifier::loop_isolation(false)]
pub fn count_records(source: &Vec<u8>, kind: SourceKind) -> (r: u64)
    ensures
        r == spec_records(source@, kind).len(),
{
    let ghost offs = spec_records(source@, kind);
    let len = source.len();
    let mut pos: usize = 0;
    let mut count: usize = 0;
    while pos < len
        invariant
            pos <= len,
            count <= pos,
            count + record_offsets_from(source@, pos as int, kind.spec_lines_per()).len()
                == offs.len(),
        decreases len - pos,
    {
        proof {
            assert(kind.spec_lines_per() >= 1);
            crate::record::lemma_lines_end_bounds(source@, pos as int, kind.spec_lines_per());
            assert(record_offsets_from(source@, pos as int, kind.spec_lines_per()) == seq![
                pos as int,
            ] + record_offsets_from(
                source@,
                crate::record::lines_end(source@, pos as int, kind.spec_lines_per()),
                kind.spec_lines_per(),
            ));
        }
        pos = crate::record::skip_lines(source, pos, kind.lines_per());
        count = count + 1;
    }
    count as u64
}

/// Reads tabular lines and keys them by one separated column.
pub struct TabularInputReader {
    pub separator: u8,
    pub column: u8,
    pub offset: usize,
}

impl TabularInputReader {
    pub open spec fn kind(self) -> SourceKind {
        SourceKind::Tabular { separator: self.separator, column: self.column }
    }

    pub fn new(separator: u8, column: u8) -> (r: TabularInputReader)
        ensures
            r.separator == separator,
            r.column == column,
            r.offset == 0,
    {
        TabularInputReader { separator, column, offset: 0 }
    }

    /// `(index_type, separator, column)` for the header.
    pub fn get_types_for_header(&self) -> (r: (u8, u8, u8))
        ensures
            r == (0u8, self.separator, self.column),
    {
        (0, self.separator, self.column)
    }

    pub fn get_entry(&mut self, source: &Vec<u8>, buffer: &mut Vec<u8>) -> (r: Result<
        u64,
        IndexError,
    >)
        requires
            old(self).offset <= source@.len(),
        ensures
            final(self).separator == old(self).separator,
            final(self).column == old(self).column,
            final(self).offset <= source@.len(),
            match r {
                Ok(off) => if old(self).offset >= source@.len() {
                    &&& off == END_OF_STREAM
                    &&& *final(self) == *old(self)
                    &&& final(buffer)@ == old(buffer)@
                } else {
                    &&& off == old(self).offset
                    &&& final(self).offset == record_end(
                        source@,
                        old(self).offset as int,
                        old(self).kind(),
                    )
                    &&& record_key(source@, old(self).offset as int, old(self).kind()) == Some(
                        final(buffer)@,
                    )
                },
                Err(e) => {
                    &&& e == IndexError::ConfigError
                    &&& old(self).offset < source@.len()
                    &&& record_key(source@, old(self).offset as int, old(self).kind()) is None
                },
            },
    {
        let kind = SourceKind::Tabular { separator: self.separator, column: self.column };
        match source_get_entry(source, self.offset, kind, buffer) {
            Ok((off, np)) => {
                self.offset = np;
                Ok(off)
            },
            Err(e) => Err(e),
        }
    }

    pub fn reset(&mut self)
        ensures
            final(self).separator == old(self).separator,
            final(self).column == old(self).column,
            final(self).offset == 0,
    {
        self.offset = 0;
    }

    pub fn num_entries(&self, source: &Vec<u8>) -> (r: u64)
        ensures
            r == spec_records(source@, self.kind()).len(),
    {
        count_records(source, SourceKind::Tabular { separator: self.separator, column: self.column })
    }

    /// Verifies the record at `offset` against `value`; on a match the whole
    /// record is handed back through `buffer`.
    pub fn test_and_return_entry(&self, source: &Vec<u8>, offset: u64, value: &Vec<u8>, buffer:
        &mut Vec<u8>) -> (r: bool)
        ensures
            r <==> spec_verify(source@, offset as int, self.kind(), value@) is Some,
            r ==> Some(final(buffer)@) == spec_verify(source@, offset as int, self.kind(), value@),
            !r ==> final(buffer)@ == old(buffer)@,
    {
        let kind = SourceKind::Tabular { separator: self.separator, column: self.column };
        match test_and_return_entry(source, offset, kind, value) {
            Some(rec) => {
                *buffer = rec;
                true
            },
            None => false,
        }
    }
}

/// Reads two-line FASTA records, keyed by the id line or the sequence line.
pub struct MultiFastaInputReader {
    pub is_indexing_sequence: bool,
    pub offset: usize,
}

impl MultiFastaInputReader {
    pub open spec fn kind(self) -> SourceKind {
        if self.is_indexing_sequence {
            SourceKind::FastaSeq
        } else {
            SourceKind::FastaId
        }
    }

    pub fn new(is_indexing_sequence: bool) -> (r: MultiFastaInputReader)
        ensures
            r.is_indexing_sequence == is_indexing_sequence,
            r.offset == 0,
    {
        MultiFastaInputReader { is_indexing_sequence, offset: 0 }
    }

    pub fn get_types_for_header(&self) -> (r: (u8, u8, u8))
        ensures
            r == (self.kind().spec_index_type(), 0u8, 0u8),
    {
        if self.is_indexing_sequence {
            (2, 0, 0)
        } else {
            (1, 0, 0)
        }
    }

    fn exec_kind(&self) -> (k: SourceKind)
        ensures
            k == self.kind(),
    {
        if self.is_indexing_sequence {
            SourceKind::FastaSeq
        } else {
            SourceKind::FastaId
        }
    }

    pub fn get_entry(&mut self, source: &Vec<u8>, buffer: &mut Vec<u8>) -> (r: Result<
        u64,
        IndexError,
    >)
        requires
            old(self).offset <= source@.len(),
        ensures
            final(self).is_indexing_sequence == old(self).is_indexing_sequence,
            final(self).offset <= source@.len(),
            match r {
                Ok(off) => if old(self).offset >= source@.len() {
                    &&& off == END_OF_STREAM
                    &&& *final(self) == *old(self)
                    &&& final(buffer)@ == old(buffer)@
                } else {
                    &&& off == old(self).offset
                    &&& final(self).offset == record_end(
                        source@,
                        old(self).offset as int,
                        old(self).kind(),
                    )
                    &&& record_key(source@, old(self).offset as int, old(self).kind()) == Some(
                        final(buffer)@,
                    )
                },
                Err(_) => false,
            },
    {
        let kind = self.exec_kind();
        match source_get_entry(source, self.offset, kind, buffer) {
            Ok((off, np)) => {
                self.offset = np;
                Ok(off)
            },
            Err(e) => Err(e),
        }
    }

    pub fn reset(&mut self)
        ensures
            final(self).is_indexing_sequence == old(self).is_indexing_sequence,
            final(self).offset == 0,
    {
        self.offset = 0;
    }

    pub fn num_entries(&self, source: &Vec<u8>) -> (r: u64)
        ensures
            r == spec_records(source@, self.kind()).len(),
    {
        count_records(source, self.exec_kind())
    }

    pub fn test_and_return_entry(&self, source: &Vec<u8>, offset: u64, value: &Vec<u8>, buffer:
        &mut Vec<u8>) -> (r: bool)
        ensures
            r <==> spec_verify(source@, offset as int, self.kind(), value@) is Some,
            r ==> Some(final(buffer)@) == spec_verify(source@, offset as int, self.kind(), value@),
            !r ==> final(buffer)@ == old(buffer)@,
    {
        match test_and_return_entry(source, offset, self.exec_kind(), value) {
            Some(rec) => {
                *buffer = rec;
                true
            },
            None => false,
        }
    }
}

/// Reads four-line FASTQ records, keyed by the id line or the sequence line.
pub struct FastqInputReader {
    pub is_indexing_sequence: bool,
    pub offset: usize,
}

impl FastqInputReader {
    pub open spec fn kind(self) -> SourceKind {
        if self.is_indexing_sequence {
            SourceKind::FastqSeq
        } else {
            SourceKind::FastqId
        }
    }

    pub fn new(is_indexing_sequence: bool) -> (r: FastqInputReader)
        ensures
            r.is_indexing_sequence == is_indexing_sequence,
            r.offset == 0,
    {
        FastqInputReader { is_indexing_sequence, offset: 0 }
    }

    pub fn get_types_for_header(&self) -> (r: (u8, u8, u8))
        ensures
            r == (self.kind().spec_index_type(), 0u8, 0u8),
    {
        if self.is_indexing_sequence {
            (4, 0, 0)
        } else {
            (3, 0, 0)
        }
    }

    fn exec_kind(&self) -> (k: SourceKind)
        ensures
            k == self.kind(),
    {
        if self.is_indexing_sequence {
            SourceKind::FastqSeq
        } else {
            SourceKind::FastqId
        }
    }

    pub fn get_entry(&mut self, source: &Vec<u8>, buffer: &mut Vec<u8>) -> (r: Result<
        u64,
        IndexError,
    >)
        requires
            old(self).offset <= source@.len(),
        ensures
            final(self).is_indexing_sequence == old(self).is_indexing_sequence,
            final(self).offset <= source@.len(),
            match r {
                Ok(off) => if old(self).offset >= source@.len() {
                    &&& off == END_OF_STREAM
                    &&& *final(self) == *old(self)
                    &&& final(buffer)@ == old(buffer)@
                } else {
                    &&& off == old(self).offset
                    &&& final(self).offset == record_end(
                        source@,
                        old(self).offset as int,
                        old(self).kind(),
                    )
                    &&& record_key(source@, old(self).offset as int, old(self).kind()) == Some(
                        final(buffer)@,
                    )
                },
                Err(_) => false,
            },
    {
        let kind = self.exec_kind();
        match source_get_entry(source, self.offset, kind, buffer) {
            Ok((off, np)) => {
                self.offset = np;
                Ok(off)
            },
            Err(e) => Err(e),
        }
    }

    pub fn reset(&mut self)
        ensures
            final(self).is_indexing_sequence == old(self).is_indexing_sequence,
            final(self).offset == 0,
    {
        self.offset = 0;
    }

    pub fn num_entries(&self, source: &Vec<u8>) -> (r: u64)
        ensures
            r == spec_records(source@, self.kind()).len(),
    {
        count_records(source, self.exec_kind())
    }

    pub fn test_and_return_entry(&self, source: &Vec<u8>, offset: u64, value: &Vec<u8>, buffer:
        &mut Vec<u8>) -> (r: bool)
        ensures
            r <==> spec_verify(source@, offset as int, self.kind(), value@) is Some,
            r ==> Some(final(buffer)@) == spec_verify(source@, offset as int, self.kind(), value@),
            !r ==> final(buffer)@ == old(buffer)@,
    {
        match test_and_return_entry(source, offset, self.exec_kind(), value) {
            Some(rec) => {
                *buffer = rec;
                true
            },
            None => false,
        }
    }
}

} // verus!
