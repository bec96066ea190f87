//! The fixed-width header at the start of an index file: total header
//! length, format version, hashmap size, record-source discriminator,
//! separator and column (the last two meaningful for tabular sources only).
//! All multi-byte fields are big-endian.

use vstd::prelude::*;
use crate::IndexError;
use crate::codec::{be64_bytes, be64_of, lemma_be64_of_bytes, push_be64, read_be64};

verus! {

/// The only format version this library writes and reads.
pub const CURRENT_VERSION: u8 = 0;

/// Total header length, in bytes, of a version-0 header.
pub const HEADER_LEN_V0: u8 = 13;

#[derive(PartialEq, Eq, Structural, Clone, Copy, Debug)]
pub struct Header {
    pub version: u8,
    pub hashmap_size: u64,
    /// 0 tabular, 1 FASTA by id, 2 FASTA by sequence, 3 FASTQ by id,
    /// 4 FASTQ by sequence.
    pub index_type: u8,
    pub separator: u8,
    pub column: u8,
}

/// The 13-byte encoding of a version-0 header.
pub open spec fn spec_header_bytes(h: Header) -> Seq<u8> {
    seq![HEADER_LEN_V0, h.version] + be64_bytes(h.hashmap_size) + seq![
        h.index_type,
        h.separator,
        h.column,
    ]
}

/// Decodes the header found at the start of `bytes`; `None` when the buffer
/// is too short, the length byte disagrees, or the version is unknown.
pub open spec fn spec_header_decode(bytes: Seq<u8>) -> Option<Header> {
    if bytes.len() < HEADER_LEN_V0 {
        None
    } else if bytes[0] != HEADER_LEN_V0 || bytes[1] != CURRENT_VERSION {
        None
    } else {
        Some(
            Header {
                version: bytes[1],
                hashmap_size: be64_of(bytes.subrange(2, 10)),
                index_type: bytes[10],
                separator: bytes[11],
                column: bytes[12],
            },
        )
    }
}

impl Header {
    pub fn new(version: u8, hashmap_size: u64, index_type: u8, separator: u8, column: u8) -> (h:
        Header)
        ensures
            h == (Header { version, hashmap_size, index_type, separator, column }),
    {
        Header { version, hashmap_size, index_type, separator, column }
    }

    /// Header length is a function of the version; only version 0 exists.
    pub fn get_header_size(&self) -> (r: u8)
        requires
            self.version == CURRENT_VERSION,
        ensures
            r == HEADER_LEN_V0,
    {
        HEADER_LEN_V0
    }

    pub fn to_bytes(&self) -> (b: Vec<u8>)
        requires
            self.version == CURRENT_VERSION,
        ensures
            b@ == spec_header_bytes(*self),
            b@.len() == HEADER_LEN_V0,
    {
        let mut b: Vec<u8> = Vec::new();
        b.push(HEADER_LEN_V0);
        b.push(self.version);
        push_be64(&mut b, self.hashmap_size);
        b.push(self.index_type);
        b.push(self.separator);
        b.push(self.column);
        assert(b@ =~= spec_header_bytes(*self));
        b
    }

    pub fn from_bytes(bytes: &Vec<u8>) -> (r: Result<Header, IndexError>)
        ensures
            match r {
                Ok(h) => spec_header_decode(bytes@) == Some(h),
                Err(e) => spec_header_decode(bytes@) is None && e == IndexError::FormatError,
            },
    {
        if bytes.len() < 13 {
            return Err(IndexError::FormatError);
        }
        if bytes[0] != HEADER_LEN_V0 || bytes[1] != CURRENT_VERSION {
            return Err(IndexError::FormatError);
        }
        let hashmap_size = read_be64(bytes, 2);
        Ok(
            Header {
                version: bytes[1],
                hashmap_size,
                index_type: bytes[10],
                separator: bytes[11],
                column: bytes[12],
            },
        )
    }
}

/// Decoding inverts encoding: a header written by `to_bytes` is read back
/// field for field.
pub proof fn lemma_header_round_trip(h: Header)
    requires
        h.version == CURRENT_VERSION,
    ensures
        spec_header_decode(spec_header_bytes(h)) == Some(h),
{
    let b = spec_header_bytes(h);
    lemma_be64_of_bytes(h.hashmap_size);
    assert(b.subrange(2, 10) =~= be64_bytes(h.hashmap_size));
}

} // verus!
