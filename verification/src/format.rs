//! Layout of the archive header and index, and the functions that read it.
//!
//! ```text
//! magic "pf6" or "pf8"            3 bytes
//! index_size                      u32, counted from offset 0x07
//! index_count                     u32
//! index_count records:
//!     name_length                 u32
//!     name                        name_length bytes
//!     padding                     4 zero bytes
//!     offset                      u32, from the start of the file
//!     size                        u32
//! filesize_count                  u32, index_count + 1
//! filesize_offsets                u64 each, the last one zero
//! filesize_count_offset           u32, counted from offset 0x07
//! ```
//!
//! All integers are little-endian.

use vstd::prelude::*;
use vstd::utf8::*;
use vstd::slice::slice_to_vec;
use crate::error::{Error, invalid_format, corrupted};

pub mod offsets;

verus! {

/// The two variants of the container.
#[derive(Debug, Clone, Copy, PartialEq, Eq, Structural)]
pub enum ArchiveFormat {
    /// Never encrypted.
    Pf6,
    /// Payloads may be masked with the archive key.
    Pf8,
}

/// One index record with its name decoded.
#[derive(Debug)]
pub struct RawEntry {
    /// Backslash-separated path inside the archive.
    pub name: String,
    /// Position of the payload, from the start of the file.
    pub offset: u32,
    /// Length of the payload in bytes.
    pub size: u32,
}

/// Mathematical value of a [`RawEntry`].
pub ghost struct RawEntryView {
    pub name: Seq<char>,
    pub offset: u32,
    pub size: u32,
}

impl View for RawEntry {
    type V = RawEntryView;

    open spec fn view(&self) -> RawEntryView {
        RawEntryView { name: self.name@, offset: self.offset, size: self.size }
    }
}

impl Clone for RawEntry {
    fn clone(&self) -> (res: Self)
        ensures
            res@ == self@,
    {
        RawEntry { name: self.name.clone(), offset: self.offset, size: self.size }
    }
}

/// One index record as it lies in the buffer, its name still in bytes.
pub ghost struct Record {
    pub name: Seq<u8>,
    pub offset: u32,
    pub size: u32,
}

/// The format that the first three bytes announce, if any.
pub open spec fn spec_magic(data: Seq<u8>) -> Option<ArchiveFormat> {
    if data.len() >= 3 && data[0] == 0x70 && data[1] == 0x66 && data[2] == 0x36 {
        Some(ArchiveFormat::Pf6)
    } else if data.len() >= 3 && data[0] == 0x70 && data[1] == 0x66 && data[2] == 0x38 {
        Some(ArchiveFormat::Pf8)
    } else {
        None
    }
}

/// The little-endian value of the four bytes at `at`.
pub open spec fn spec_u32_le(data: Seq<u8>, at: int) -> int {
    data[at] as int + data[at + 1] as int * 0x100 + data[at + 2] as int * 0x1_0000 + data[at
        + 3] as int * 0x100_0000
}

/// Whether a whole record lies inside the buffer at `cursor`.
pub open spec fn record_fits(data: Seq<u8>, cursor: int) -> bool {
    &&& 0 <= cursor
    &&& cursor + 4 <= data.len()
    &&& cursor + 4 + spec_u32_le(data, cursor) + 12 <= data.len()
}

/// The position just behind the record at `cursor`.
pub open spec fn record_end(data: Seq<u8>, cursor: int) -> int {
    cursor + spec_u32_le(data, cursor) + 16
}

/// The record at `cursor`.
pub open spec fn record_at(data: Seq<u8>, cursor: int) -> Record {
    let n = spec_u32_le(data, cursor);
    Record {
        name: data.subrange(cursor + 4, cursor + 4 + n),
        offset: spec_u32_le(data, cursor + 8 + n) as u32,
        size: spec_u32_le(data, cursor + 12 + n) as u32,
    }
}

/// The records read from `cursor` on: at most `limit` of them, none that starts at or
/// behind `end`, and none behind a record that does not fit into the buffer.
pub open spec fn spec_records(data: Seq<u8>, cursor: int, end: int, limit: nat) -> Seq<Record>
    decreases limit,
{
    if limit == 0 || cursor >= end || !record_fits(data, cursor) {
        Seq::empty()
    } else {
        seq![record_at(data, cursor)] + spec_records(
            data,
            record_end(data, cursor),
            end,
            (limit - 1) as nat,
        )
    }
}

/// Where the index region ends: `index_size` bytes behind offset 0x07, or at the end of
/// the buffer if that comes first.
pub open spec fn spec_index_end(data: Seq<u8>) -> int {
    let declared = 7 + spec_u32_le(data, 3);
    if declared < data.len() {
        declared
    } else {
        data.len() as int
    }
}

/// The records of an index whose fixed header (11 bytes) is present.
pub open spec fn spec_index_records(data: Seq<u8>) -> Seq<Record> {
    spec_records(data, 11, spec_index_end(data), spec_u32_le(data, 7) as nat)
}

/// Whether every record name is valid UTF-8.
pub open spec fn names_valid(records: Seq<Record>) -> bool {
    forall|i: int| 0 <= i < records.len() ==> valid_utf8(#[trigger] records[i].name)
}

/// The record with its name decoded.
pub open spec fn decoded(r: Record) -> RawEntryView {
    RawEntryView { name: decode_utf8(r.name), offset: r.offset, size: r.size }
}

/// The views of a sequence of entries.
pub open spec fn raw_views(entries: Seq<RawEntry>) -> Seq<RawEntryView> {
    entries.map_values(|e: RawEntry| e@)
}

/// Reads the magic bytes.
pub fn validate_magic(data: &[u8]) -> (res: Result<ArchiveFormat, Error>)
    ensures
        match res {
            Ok(format) => spec_magic(data@) == Some(format),
            Err(Error::InvalidFormat(m)) => spec_magic(data@) is None && m@ == (if data.len()
                < 3 {
                "Data too short"@
            } else {
                "Not a PF6 or PF8 file"@
            }),
            Err(_) => false,
        },
{
    if data.len() < 3 {
        return Err(invalid_format("Data too short"));
    }
    if data[0] == 0x70 && data[1] == 0x66 && data[2] == 0x36 {
        Ok(ArchiveFormat::Pf6)
    } else if data[0] == 0x70 && data[1] == 0x66 && data[2] == 0x38 {
        Ok(ArchiveFormat::Pf8)
    } else {
        Err(invalid_format("Not a PF6 or PF8 file"))
    }
}

/// Reads a little-endian `u32` at `offset`.
pub fn read_u32_le(data: &[u8], offset: usize) -> (res: Result<u32, Error>)
    ensures
        match res {
            Ok(v) => offset + 4 <= data.len() && v == spec_u32_le(data@, offset as int),
            Err(Error::InvalidFormat(m)) => offset + 4 > data.len() && m@
                == "Not enough data to read u32"@,
            Err(_) => false,
        },
{
    if data.len() < 4 || offset > data.len() - 4 {
        return Err(invalid_format("Not enough data to read u32"));
    }
    let b0: u32 = data[offset] as u32;
    let b1: u32 = data[offset + 1] as u32;
    let b2: u32 = data[offset + 2] as u32;
    let b3: u32 = data[offset + 3] as u32;
    Ok(b0 + b1 * 0x100 + b2 * 0x1_0000 + b3 * 0x100_0000)
}

/// Reads the `index_size` field of a header.
pub fn get_index_size(data: &[u8]) -> (res: Result<u32, Error>)
    ensures
        match res {
            Ok(v) => spec_magic(data@) is Some && data.len() >= 7 && v == spec_u32_le(data@, 3),
            Err(Error::InvalidFormat(_)) => spec_magic(data@) is None || data.len() < 7,
            Err(_) => false,
        },
{
    match validate_magic(data) {
        Ok(_) => read_u32_le(data, offsets::INDEX_SIZE),
        Err(e) => Err(e),
    }
}

/// Parses the header and the index records of an archive.
///
/// The records are read from offset 0x0B until `index_count` of them are read, the end of
/// the index region is reached, or a record does not fit into the buffer. A name that is
/// not UTF-8 is an error, and so is a number of records other than `index_count`.
pub fn parse_entries(data: &[u8]) -> (res: Result<(Vec<RawEntry>, ArchiveFormat), Error>)
    ensures
        match res {
            Ok((entries, format)) => {
                &&& spec_magic(data@) == Some(format)
                &&& data.len() >= 11
                &&& names_valid(spec_index_records(data@))
                &&& spec_index_records(data@).len() == spec_u32_le(data@, 7)
                &&& raw_views(entries@) == spec_index_records(data@).map_values(
                    |r: Record| decoded(r),
                )
            },
            Err(Error::InvalidFormat(_)) => spec_magic(data@) is None || data.len() < 11,
            Err(Error::InvalidUtf8) => {
                &&& spec_magic(data@) is Some
                &&& data.len() >= 11
                &&& !names_valid(spec_index_records(data@))
            },
            Err(Error::Corrupted(m)) => {
                &&& spec_magic(data@) is Some
                &&& data.len() >= 11
                &&& names_valid(spec_index_records(data@))
                &&& spec_index_records(data@).len() != spec_u32_le(data@, 7)
                &&& m@ == "Index count mismatch"@
            },
            Err(_) => false,
        },
{
    let format = match validate_magic(data) {
        Ok(f) => f,
        Err(e) => {
            return Err(e);
        },
    };
    if data.len() < 11 {
        return Err(invalid_format("Data too short to parse header"));
    }
    let index_size = match read_u32_le(data, offsets::INDEX_SIZE) {
        Ok(v) => v,
        Err(e) => {
            return Err(e);
        },
    };
    let index_count = match read_u32_le(data, offsets::INDEX_COUNT) {
        Ok(v) => v,
        Err(e) => {
            return Err(e);
        },
    };
    let total: u64 = data.len() as u64;
    let declared_end: u64 = 7 + index_size as u64;
    let index_end: u64 = if declared_end < total {
        declared_end
    } else {
        total
    };
    let mut entries: Vec<RawEntry> = Vec::new();
    let mut cursor: usize = offsets::ENTRIES_START;
    let mut stopped = false;
    let ghost all = spec_index_records(data@);
    let ghost mut done: Seq<Record> = Seq::empty();
    while !stopped && (cursor as u64) < index_end && entries.len() < index_count as usize
        invariant
            11 <= cursor <= data.len(),
            total == data.len(),
            spec_magic(data@) == Some(format),
            index_end == spec_index_end(data@),
            index_count == spec_u32_le(data@, 7),
            entries.len() <= index_count,
            done.len() == entries.len(),
            names_valid(done),
            forall|i: int| 0 <= i < entries.len() ==> (#[trigger] entries[i])@ == decoded(done[i]),
            all == spec_index_records(data@),
            all == done + spec_records(
                data@,
                cursor as int,
                index_end as int,
                (index_count - entries.len()) as nat,
            ),
            stopped ==> !record_fits(data@, cursor as int),
        decreases (if stopped { 0int } else { 1int }), index_count - entries.len(),
    {
        if data.len() - cursor < 4 {
            stopped = true;
        } else {
            let name_length = match read_u32_le(data, cursor) {
                Ok(v) => v,
                Err(e) => {
                    return Err(e);
                },
            };
            let name_start: usize = cursor + 4;
            if name_start as u64 + name_length as u64 + 12 > total {
                stopped = true;
            } else {
                let name_end: usize = name_start + name_length as usize;
                let name_bytes = slice_to_vec(&data[name_start..name_end]);
                let ghost rec = record_at(data@, cursor as int);
                let ghost rest = spec_records(
                    data@,
                    record_end(data@, cursor as int),
                    index_end as int,
                    (index_count - entries.len() - 1) as nat,
                );
                proof {
                    assert(all =~= done.push(rec) + rest);
                    assert(name_bytes@ == rec.name);
                }
                let name = match String::from_utf8(name_bytes) {
                    Ok(s) => s,
                    Err(_) => {
                        proof {
                            assert(all[done.len() as int] == rec);
                            assert(!valid_utf8(all[done.len() as int].name));
                        }
                        return Err(Error::InvalidUtf8);
                    },
                };
                let offset = match read_u32_le(data, name_end + 4) {
                    Ok(v) => v,
                    Err(e) => {
                        return Err(e);
                    },
                };
                let size = match read_u32_le(data, name_end + 8) {
                    Ok(v) => v,
                    Err(e) => {
                        return Err(e);
                    },
                };
                cursor = name_end + 12;
                entries.push(RawEntry { name, offset, size });
                proof {
                    done = done.push(rec);
                }
            }
        }
    }
    proof {
        assert(all =~= done);
    }
    if entries.len() != index_count as usize {
        return Err(corrupted("Index count mismatch"));
    }
    proof {
        assert(raw_views(entries@) =~= all.map_values(|r: Record| decoded(r)));
    }
    Ok((entries, format))
}

} // verus!
