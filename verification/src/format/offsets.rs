//! Byte offsets of the fixed header fields.

use vstd::prelude::*;

verus! {

/// Offset of the three magic bytes.
pub const MAGIC: usize = 0x00;

/// Offset of the `index_size` field.
pub const INDEX_SIZE: usize = 0x03;

/// Offset of the `index_count` field.
pub const INDEX_COUNT: usize = 0x07;

/// Offset of the first entry record.
pub const ENTRIES_START: usize = 0x0B;

/// Offset from which `index_size` is measured; the key is derived from the bytes that follow.
pub const INDEX_DATA_START: usize = 0x07;

/// Point from which the entries of the size-field offset table are measured.
pub const FILESIZE_OFFSETS_START: usize = 0x0B;

} // verus!
