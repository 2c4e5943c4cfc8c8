//! One archived file: its index record, its path and whether its payload is encrypted.

use vstd::prelude::*;
use vstd::slice::slice_to_vec;
use crate::crypto::{decrypt, spec_xor};
use crate::error::{Error, corrupted, crypto_error, invalid_format};
use crate::format::{ArchiveFormat, RawEntry, RawEntryView};
use crate::paths::{file_name, spec_file_name};
use crate::text::{chars_of, string_of};
use crate::utils::{
    matches_any_pattern,
    pathbuf_to_pf8_path,
    pattern_views,
    replace_char,
    spec_matches_any,
    spec_pathbuf_to_pf8_path,
    spec_pf8_path_to_pathbuf,
    spec_trim_nul,
    trim_nul,
};

verus! {

/// A file entry of an archive.
#[derive(Debug)]
pub struct Pf8Entry {
    /// The index record.
    raw: RawEntry,
    /// The path with forward slashes.
    path: String,
    /// Whether the payload is masked with the archive key.
    encrypted: bool,
}

/// Mathematical value of a [`Pf8Entry`].
pub ghost struct Pf8EntryView {
    /// The name as the index holds it.
    pub name: Seq<char>,
    pub offset: u32,
    pub size: u32,
    /// The path with forward slashes.
    pub path: Seq<char>,
    pub encrypted: bool,
}

/// The values of a list of entries.
pub open spec fn entry_views(entries: Seq<Pf8Entry>) -> Seq<Pf8EntryView> {
    entries.map_values(|e: Pf8Entry| e@)
}

/// The sizes of the entries.
pub open spec fn entry_sizes(entries: Seq<Pf8EntryView>) -> Seq<u32> {
    entries.map_values(|e: Pf8EntryView| e.size)
}

/// The paths of the entries, under which the handler is told of them.
pub open spec fn entry_paths(entries: Seq<Pf8EntryView>) -> Seq<Seq<char>> {
    entries.map_values(|e: Pf8EntryView| e.path)
}

/// The path under which an entry with the given archive name is looked up.
pub open spec fn spec_entry_path(name: Seq<char>) -> Seq<char> {
    spec_pf8_path_to_pathbuf(spec_trim_nul(name))
}

/// Whether an entry of the given format and name is encrypted under the given patterns.
pub open spec fn spec_encrypted(
    format: ArchiveFormat,
    name: Seq<char>,
    patterns: Seq<Seq<char>>,
) -> bool {
    format == ArchiveFormat::Pf8 && !spec_matches_any(name, patterns)
}

/// The entry that an index record gives under the given format and patterns.
pub open spec fn spec_entry_of(
    raw: RawEntryView,
    format: ArchiveFormat,
    patterns: Seq<Seq<char>>,
) -> Pf8EntryView {
    Pf8EntryView {
        name: raw.name,
        offset: raw.offset,
        size: raw.size,
        path: spec_entry_path(raw.name),
        encrypted: spec_encrypted(format, raw.name, patterns),
    }
}

/// Whether the payload of an entry lies inside an archive of `total` bytes.
pub open spec fn payload_in_bounds(e: Pf8EntryView, total: int) -> bool {
    e.offset + e.size <= total
}

/// The stored bytes of an entry.
pub open spec fn stored_payload(e: Pf8EntryView, archive: Seq<u8>) -> Seq<u8> {
    archive.subrange(e.offset as int, e.offset + e.size)
}

/// The content of an entry: its stored bytes, unmasked if the entry is encrypted.
pub open spec fn entry_content(e: Pf8EntryView, archive: Seq<u8>, key: Seq<u8>) -> Seq<u8> {
    if e.encrypted {
        spec_xor(stored_payload(e, archive), key, 0)
    } else {
        stored_payload(e, archive)
    }
}

impl View for Pf8Entry {
    type V = Pf8EntryView;

    closed spec fn view(&self) -> Pf8EntryView {
        Pf8EntryView {
            name: self.raw.name@,
            offset: self.raw.offset,
            size: self.raw.size,
            path: self.path@,
            encrypted: self.encrypted,
        }
    }
}

impl Clone for Pf8Entry {
    fn clone(&self) -> (res: Self)
        ensures
            res@ == self@,
    {
        Pf8Entry { raw: self.raw.clone(), path: self.path.clone(), encrypted: self.encrypted }
    }
}

impl PartialEq for Pf8Entry {
    /// Entries are equal if their paths are.
    fn eq(&self, other: &Self) -> (res: bool) {
        self.path == other.path
    }
}

impl vstd::std_specs::cmp::PartialEqSpecImpl for Pf8Entry {
    open spec fn obeys_eq_spec() -> bool {
        true
    }

    open spec fn eq_spec(&self, other: &Self) -> bool {
        self@.path == other@.path
    }
}

impl Eq for Pf8Entry {

}

impl Pf8Entry {
    /// Makes the entry of an index record of a PF8 archive.
    pub fn from_raw(raw: RawEntry, unencrypted_patterns: &[&str]) -> (e: Self)
        ensures
            e@ == spec_entry_of(raw@, ArchiveFormat::Pf8, pattern_views(unencrypted_patterns@)),
    {
        Self::from_raw_with_format(raw, unencrypted_patterns, ArchiveFormat::Pf8)
    }

    /// Makes the entry of an index record. No entry of a PF6 archive is encrypted; an
    /// entry of a PF8 archive is encrypted unless a pattern matches its name.
    pub fn from_raw_with_format(
        raw: RawEntry,
        unencrypted_patterns: &[&str],
        format: ArchiveFormat,
    ) -> (e: Self)
        ensures
            e@ == spec_entry_of(raw@, format, pattern_views(unencrypted_patterns@)),
    {
        let chars = chars_of(raw.name.as_str());
        let replaced = replace_char(trim_nul(chars.as_slice()), '\\', '/');
        let path = string_of(replaced.as_slice());
        let encrypted = match format {
            ArchiveFormat::Pf6 => false,
            ArchiveFormat::Pf8 => !matches_any_pattern(raw.name.as_str(), unencrypted_patterns),
        };
        Pf8Entry { raw, path, encrypted }
    }

    /// Makes an entry for a file that is to be written to a PF8 archive under `path`.
    pub fn new(path: &str, offset: u32, size: u32, unencrypted_patterns: &[&str]) -> (e: Self)
        ensures
            e@ == (Pf8EntryView {
                name: spec_pathbuf_to_pf8_path(path@),
                offset,
                size,
                path: path@,
                encrypted: !spec_matches_any(
                    spec_pathbuf_to_pf8_path(path@),
                    pattern_views(unencrypted_patterns@),
                ),
            }),
    {
        let name = pathbuf_to_pf8_path(path);
        let encrypted = !matches_any_pattern(name.as_str(), unencrypted_patterns);
        Pf8Entry { raw: RawEntry { name, offset, size }, path: path.to_owned(), encrypted }
    }

    /// The path with forward slashes.
    pub fn path(&self) -> (p: &str)
        ensures
            p@ == self@.path,
    {
        self.path.as_str()
    }

    /// The file name: the last component of the path.
    pub fn file_name(&self) -> (res: Option<String>)
        ensures
            match res {
                Some(name) => spec_file_name(self@.path) == Some(name@),
                None => spec_file_name(self@.path) is None,
            },
    {
        file_name(self.path.as_str())
    }

    /// The payload size in bytes.
    pub fn size(&self) -> (s: u32)
        ensures
            s == self@.size,
    {
        self.raw.size
    }

    /// The position of the payload, from the start of the archive.
    pub fn offset(&self) -> (o: u32)
        ensures
            o == self@.offset,
    {
        self.raw.offset
    }

    /// Whether the payload is masked with the archive key.
    pub fn is_encrypted(&self) -> (b: bool)
        ensures
            b == self@.encrypted,
    {
        self.encrypted
    }

    /// The name as the index holds it, with backslashes.
    pub fn pf8_path(&self) -> (name: &str)
        ensures
            name@ == self@.name,
    {
        self.raw.name.as_str()
    }

    /// Reads the content of the entry from the bytes of the whole archive.
    pub fn read(&self, archive_data: &[u8], encryption_key: Option<&[u8]>) -> (res: Result<
        Vec<u8>,
        Error,
    >)
        requires
            encryption_key matches Some(k) ==> k@.len() > 0,
        ensures
            match res {
                Ok(bytes) => {
                    &&& payload_in_bounds(self@, archive_data@.len() as int)
                    &&& self@.encrypted ==> encryption_key is Some
                    &&& encryption_key matches Some(k) ==> bytes@ == entry_content(
                        self@,
                        archive_data@,
                        k@,
                    )
                    &&& !self@.encrypted ==> bytes@ == stored_payload(self@, archive_data@)
                },
                Err(Error::Corrupted(_)) => !payload_in_bounds(self@, archive_data@.len() as int),
                Err(Error::Crypto(_)) => {
                    &&& payload_in_bounds(self@, archive_data@.len() as int)
                    &&& self@.encrypted
                    &&& encryption_key is None
                },
                Err(_) => false,
            },
    {
        if self.raw.offset as u64 + self.raw.size as u64 > archive_data.len() as u64 {
            return Err(corrupted("File data extends beyond archive bounds"));
        }
        let start: usize = self.raw.offset as usize;
        let end: usize = start + self.raw.size as usize;
        let data = &archive_data[start..end];
        if self.encrypted {
            match encryption_key {
                Some(key) => Ok(decrypt(data, key, 0)),
                None => Err(crypto_error("File is encrypted but no key provided")),
            }
        } else {
            Ok(slice_to_vec(data))
        }
    }

    /// Reads the content of the entry into `buffer`, whose length must be the size of the
    /// entry.
    pub fn read_into(
        &self,
        archive_data: &[u8],
        buffer: &mut Vec<u8>,
        encryption_key: Option<&[u8]>,
    ) -> (res: Result<(), Error>)
        requires
            encryption_key matches Some(k) ==> k@.len() > 0,
        ensures
            match res {
                Ok(()) => {
                    &&& old(buffer)@.len() == self@.size
                    &&& payload_in_bounds(self@, archive_data@.len() as int)
                    &&& self@.encrypted ==> encryption_key is Some
                    &&& encryption_key matches Some(k) ==> final(buffer)@ == entry_content(
                        self@,
                        archive_data@,
                        k@,
                    )
                    &&& !self@.encrypted ==> final(buffer)@ == stored_payload(
                        self@,
                        archive_data@,
                    )
                },
                Err(Error::InvalidFormat(_)) => {
                    &&& old(buffer)@.len() != self@.size
                    &&& final(buffer)@ == old(buffer)@
                },
                Err(Error::Corrupted(_)) => {
                    &&& old(buffer)@.len() == self@.size
                    &&& !payload_in_bounds(self@, archive_data@.len() as int)
                    &&& final(buffer)@ == old(buffer)@
                },
                Err(Error::Crypto(_)) => {
                    &&& old(buffer)@.len() == self@.size
                    &&& payload_in_bounds(self@, archive_data@.len() as int)
                    &&& self@.encrypted
                    &&& encryption_key is None
                    &&& final(buffer)@ == old(buffer)@
                },
                Err(_) => false,
            },
    {
        if buffer.len() as u64 != self.raw.size as u64 {
            return Err(invalid_format("Buffer size mismatch"));
        }
        match self.read(archive_data, encryption_key) {
            Ok(bytes) => {
                *buffer = bytes;
                Ok(())
            },
            Err(e) => Err(e),
        }
    }
}

} // verus!
