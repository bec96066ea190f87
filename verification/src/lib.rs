//! A persistent keyed index over text sources: an on-disk hash table with
//! direct/indirect slot encoding, an external collision-list area, a
//! bounded-memory slab builder, and a chain-walking lookup.

pub mod chain;
pub mod codec;
pub mod file_reader;
pub mod hash;
pub mod header;
pub mod index_structure;
pub mod indexer;
pub mod laws;
pub mod record;
pub mod search;

pub use file_reader::{FastqInputReader, MultiFastaInputReader, TabularInputReader};
pub use hash::hash_function;
pub use header::Header;
pub use index_structure::{IndexEntry, IndexEntryType, IndexStructure, WriteOp};
pub use indexer::{index, index_fasta, index_fastq, index_source, index_tabular};
pub use record::SourceKind;
pub use search::{search, search_all, search_candidates};

use vstd::prelude::*;

verus! {

/// Marker value for an empty slot or chain terminator.
pub const NULL_ENTRY: u64 = 0xFFFF_FFFF_FFFF_FFFF;

/// Highest bit of an entry: set for Indirect, clear for Direct.
pub const INDIRECT_BIT: u64 = 0x8000_0000_0000_0000;

/// Low 63 bits of an entry: the payload offset.
pub const PAYLOAD_MASK: u64 = 0x7FFF_FFFF_FFFF_FFFF;

/// The fatal conditions a build or a lookup can surface. `NotFound` is not
/// among them: an absent key is reported through an `Option`.
#[derive(PartialEq, Eq, Structural, Clone, Copy, Debug)]
pub enum IndexError {
    /// The source cannot be opened or read.
    SourceOpenError,
    /// The index file cannot be opened for reading.
    IndexOpenError,
    /// Unknown version or header length, a truncated file, or a malformed
    /// chain pointer.
    FormatError,
    /// A computed offset would overflow 63 bits.
    BoundsError,
    /// An impossible configuration: no slots, no slab, or a record without
    /// the requested column.
    ConfigError,
}

} // verus!
