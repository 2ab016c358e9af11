//! The error taxonomy of the storage engine.

use vstd::prelude::*;

verus! {

/// Errors reported by the storage engine and its codec.
///
/// `BadPath` is reserved for callers that open a storage location which is
/// not a directory; `CorruptSegment` carries the segment index and the byte
/// offset at which replay failed; `RecordTooLarge` rejects a single record
/// whose serialized form would exceed the segment cap; `Io` stands for any
/// underlying input/output failure reported by the surrounding process.
#[derive(Clone, Copy, PartialEq, Eq, Structural, Debug)]
pub enum KvError {
    BadPath,
    CorruptSegment { file_idx: usize, offset: usize },
    CorruptRecord,
    RecordTooLarge,
    Io,
}

} // verus!
