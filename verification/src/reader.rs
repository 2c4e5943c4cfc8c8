//! The archive reader: the index of an archive held in memory, parsed once, and reads
//! of single entries with decryption on demand.
//!
//! The reader works on the bytes of the archive and performs no input or output.

use vstd::prelude::*;
use vstd::hash_map::StringHashMap;
use vstd::slice::slice_to_vec;
use crate::constants::{default_unencrypted_patterns, BUFFER_SIZE};
use crate::crypto::{decrypt, generate_key, spec_key, spec_xor};
use crate::entry::{
    entry_content,
    payload_in_bounds,
    spec_entry_of,
    stored_payload,
    Pf8Entry,
    Pf8EntryView,
};
use crate::error::{Error, corrupted, crypto_error, file_not_found, io_error};
use crate::format::{
    decoded,
    names_valid,
    parse_entries,
    raw_views,
    read_u32_le,
    spec_index_records,
    spec_magic,
    spec_u32_le,
    validate_magic,
    ArchiveFormat,
    RawEntry,
    Record,
};
use crate::format::offsets;
use crate::utils::pattern_views;

verus! {

/// Mathematical value of a [`Pf8Reader`].
pub ghost struct ReaderView {
    /// The bytes of the archive.
    pub data: Seq<u8>,
    /// The entries in index order.
    pub entries: Seq<Pf8EntryView>,
    /// The key, if the format has one.
    pub key: Option<Seq<u8>>,
    pub format: ArchiveFormat,
    /// The largest number of bytes handed out in one chunk.
    pub buffer_size: usize,
}

/// The index of the entry that a path names: the last one with that path.
pub open spec fn spec_lookup(entries: Seq<Pf8EntryView>, path: Seq<char>) -> Option<int>
    decreases entries.len(),
{
    if entries.len() == 0 {
        None
    } else if entries.last().path == path {
        Some(entries.len() - 1)
    } else {
        spec_lookup(entries.drop_last(), path)
    }
}

/// Whether the fixed header and the whole index region lie inside the buffer.
pub open spec fn index_complete(data: Seq<u8>) -> bool {
    data.len() >= 11 && 7 + spec_u32_le(data, 3) <= data.len()
}

/// Whether the index region is too short to hold its own count.
pub open spec fn index_too_short(data: Seq<u8>) -> bool {
    index_complete(data) && spec_u32_le(data, 3) < 4
}

/// The header and index region of an archive.
pub open spec fn index_region(data: Seq<u8>) -> Seq<u8> {
    data.take(7 + spec_u32_le(data, 3))
}

/// The entries that the index of an archive gives under the given patterns.
pub open spec fn spec_entries(data: Seq<u8>, format: ArchiveFormat, patterns: Seq<Seq<char>>) -> Seq<
    Pf8EntryView,
> {
    spec_index_records(index_region(data)).map_values(
        |r: Record| spec_entry_of(decoded(r), format, patterns),
    )
}

/// The key of an archive of the given format.
pub open spec fn spec_archive_key(data: Seq<u8>, format: ArchiveFormat) -> Option<Seq<u8>> {
    if format == ArchiveFormat::Pf8 {
        Some(spec_key(index_region(data), spec_u32_le(data, 3) as u32))
    } else {
        None
    }
}

/// A lookup finds an entry with the path that was asked for, and none with that path
/// comes behind it.
pub proof fn lemma_lookup(entries: Seq<Pf8EntryView>, path: Seq<char>)
    ensures
        match spec_lookup(entries, path) {
            Some(i) => {
                &&& 0 <= i < entries.len()
                &&& entries[i].path == path
                &&& forall|j: int| i < j < entries.len() ==> entries[j].path != path
            },
            None => forall|j: int| 0 <= j < entries.len() ==> entries[j].path != path,
        },
    decreases entries.len(),
{
    if entries.len() > 0 && entries.last().path != path {
        lemma_lookup(entries.drop_last(), path);
        assert forall|j: int| 0 <= j < entries.len() - 1 implies entries.drop_last()[j]
            == entries[j] by {}
    }
}

/// A reader over the bytes of one archive.
pub struct Pf8Reader<'a> {
    /// The bytes of the archive.
    data: &'a [u8],
    /// The entries in index order.
    entries: Vec<Pf8Entry>,
    /// For each path, the index of the last entry that has it.
    entry_map: StringHashMap<usize>,
    /// The key of the archive; none for PF6.
    encryption_key: Option<Vec<u8>>,
    format: ArchiveFormat,
    /// Chunk size for streamed reads.
    buffer_size: usize,
}

impl<'a> View for Pf8Reader<'a> {
    type V = ReaderView;

    closed spec fn view(&self) -> ReaderView {
        ReaderView {
            data: self.data@,
            entries: self.entries@.map_values(|e: Pf8Entry| e@),
            key: match self.encryption_key {
                Some(k) => Some(k@),
                None => None,
            },
            format: self.format,
            buffer_size: self.buffer_size,
        }
    }
}

impl<'a> Pf8Reader<'a> {
    #[verifier::type_invariant]
    spec fn well_formed(self) -> bool {
        &&& self.buffer_size > 0
        &&& self.entries@.len() <= u32::MAX
        &&& self.encryption_key matches Some(k) ==> k@.len() == 20
        &&& self.encryption_key is Some <==> self.format == ArchiveFormat::Pf8
        &&& forall|i: int|
            0 <= i < self.entries@.len() ==> ((#[trigger] self.entries@[i])@.encrypted
                ==> self.format == ArchiveFormat::Pf8)
        &&& forall|p: Seq<char>|
            self.entry_map@.contains_key(p) <==> spec_lookup(self@.entries, p) is Some
        &&& forall|p: Seq<char>|
            self.entry_map@.contains_key(p) ==> spec_lookup(self@.entries, p) == Some(
                #[trigger] self.entry_map@[p] as int,
            )
    }

    /// Opens an archive with the default patterns for unencrypted entries.
    pub fn open(data: &'a [u8]) -> (res: Result<Self, Error>)
        ensures
            opened(
                data@,
                seq!["mp4"@, "flv"@],
                match res {
                    Ok(r) => Ok(r@),
                    Err(e) => Err(e),
                },
            ),
    {
        let patterns = default_unencrypted_patterns();
        assert(pattern_views(patterns@) =~= seq!["mp4"@, "flv"@]);
        Self::open_with_unencrypted_patterns(data, patterns.as_slice())
    }

    /// Opens an archive: checks the magic bytes, parses the index, classifies every
    /// entry under the given patterns and, for a PF8 archive, derives the key.
    pub fn open_with_unencrypted_patterns(data: &'a [u8], unencrypted_patterns: &[&str]) -> (res:
        Result<Self, Error>)
        ensures
            opened(
                data@,
                pattern_views(unencrypted_patterns@),
                match res {
                    Ok(r) => Ok(r@),
                    Err(e) => Err(e),
                },
            ),
    {
        let declared = match validate_magic(data) {
            Ok(f) => f,
            Err(e) => {
                return Err(e);
            },
        };
        if data.len() < 11 {
            return Err(io_error("failed to fill whole buffer"));
        }
        let index_size = match read_u32_le(data, offsets::INDEX_SIZE) {
            Ok(v) => v,
            Err(e) => {
                return Err(e);
            },
        };
        if (data.len() as u64) < 7 + index_size as u64 {
            return Err(io_error("failed to fill whole buffer"));
        }
        let total_index_size: usize = 7 + index_size as usize;
        let index_buffer = &data[0..total_index_size];
        assert(index_buffer@ =~= index_region(data@));
        assert(spec_magic(index_buffer@) == spec_magic(data@));
        let (raw_entries, format) = match parse_entries(index_buffer) {
            Ok(parsed) => parsed,
            Err(e) => {
                return Err(e);
            },
        };
        let encryption_key = match format {
            ArchiveFormat::Pf8 => Some(generate_key(index_buffer, index_size)),
            ArchiveFormat::Pf6 => None,
        };
        let ghost patterns = pattern_views(unencrypted_patterns@);
        let ghost wanted = spec_entries(data@, format, patterns);
        proof {
            let records = spec_index_records(index_region(data@));
            assert(raw_views(raw_entries@).len() == raw_entries@.len());
            assert(records.map_values(|r: Record| decoded(r)).len() == records.len());
            assert forall|i: int| 0 <= i < raw_entries@.len() implies #[trigger] wanted[i]
                == spec_entry_of(raw_entries@[i]@, format, patterns) by {
                assert(raw_views(raw_entries@)[i] == raw_entries@[i]@);
                assert(records.map_values(|r: Record| decoded(r))[i] == decoded(records[i]));
            }
        }
        let mut entries: Vec<Pf8Entry> = Vec::new();
        let mut entry_map: StringHashMap<usize> = StringHashMap::new();
        let mut index: usize = 0;
        while index < raw_entries.len()
            invariant
                index <= raw_entries.len(),
                entries@.len() == index,
                patterns == pattern_views(unencrypted_patterns@),
                wanted.len() == raw_entries@.len(),
                forall|i: int|
                    0 <= i < raw_entries@.len() ==> #[trigger] wanted[i] == spec_entry_of(
                        raw_entries@[i]@,
                        format,
                        patterns,
                    ),
                forall|i: int| 0 <= i < index ==> (#[trigger] entries@[i])@ == wanted[i],
                forall|p: Seq<char>|
                    entry_map@.contains_key(p) <==> spec_lookup(wanted.take(index as int), p)
                        is Some,
                forall|p: Seq<char>|
                    entry_map@.contains_key(p) ==> spec_lookup(wanted.take(index as int), p)
                        == Some(#[trigger] entry_map@[p] as int),
            decreases raw_entries.len() - index,
        {
            let entry = Pf8Entry::from_raw_with_format(
                raw_entries[index].clone(),
                unencrypted_patterns,
                format,
            );
            let path_string = entry.path().to_owned();
            proof {
                assert(wanted.take(index + 1).drop_last() =~= wanted.take(index as int));
                assert(wanted.take(index + 1).last() == entry@);
            }
            entry_map.insert(path_string, index);
            entries.push(entry);
            index = index + 1;
        }
        proof {
            assert(wanted.take(index as int) =~= wanted);
            assert(entries@.map_values(|e: Pf8Entry| e@) =~= wanted);
            assert(raw_views(raw_entries@).len() == raw_entries@.len());
        }
        Ok(Pf8Reader { data, entries, entry_map, encryption_key, format, buffer_size: BUFFER_SIZE })
    }

    /// The same reader with another chunk size for streamed reads.
    pub fn with_buffer_size(self, buffer_size: usize) -> (r: Self)
        requires
            buffer_size > 0,
        ensures
            r@ == (ReaderView { buffer_size, ..self@ }),
    {
        proof {
            use_type_invariant(&self);
        }
        Pf8Reader {
            data: self.data,
            entries: self.entries,
            entry_map: self.entry_map,
            encryption_key: self.encryption_key,
            format: self.format,
            buffer_size,
        }
    }

    /// The entries in index order.
    pub fn entries(&self) -> (entries: &[Pf8Entry])
        ensures
            entries@.map_values(|e: Pf8Entry| e@) == self@.entries,
            entries@.len() <= u32::MAX,
            forall|i: int|
                0 <= i < entries@.len() ==> ((#[trigger] entries@[i])@.encrypted ==> self@.key
                    is Some),
    {
        proof {
            use_type_invariant(self);
        }
        self.entries.as_slice()
    }

    /// The largest number of bytes handed out in one chunk of a streamed read.
    pub fn buffer_size(&self) -> (n: usize)
        ensures
            n == self@.buffer_size,
            n > 0,
    {
        proof {
            use_type_invariant(self);
        }
        self.buffer_size
    }

    /// The number of entries.
    pub fn len(&self) -> (n: usize)
        ensures
            n == self@.entries.len(),
    {
        self.entries.len()
    }

    /// Whether the archive has no entries.
    pub fn is_empty(&self) -> (b: bool)
        ensures
            b == (self@.entries.len() == 0),
    {
        self.entries.len() == 0
    }

    /// The format of the archive.
    pub fn format(&self) -> (f: ArchiveFormat)
        ensures
            f == self@.format,
    {
        self.format
    }

    /// Whether the archive has a key, which is the case for PF8 and for no other format.
    pub fn is_encrypted(&self) -> (b: bool)
        ensures
            b == self@.key is Some,
            b == (self@.format == ArchiveFormat::Pf8),
    {
        proof {
            use_type_invariant(self);
        }
        self.encryption_key.is_some()
    }

    /// The entry with the given path; the last one in index order if several have it.
    pub fn get_entry(&self, path: &str) -> (res: Option<&Pf8Entry>)
        ensures
            match res {
                Some(e) => spec_lookup(self@.entries, path@) matches Some(i) && e@
                    == self@.entries[i],
                None => spec_lookup(self@.entries, path@) is None,
            },
    {
        proof {
            use_type_invariant(self);
            lemma_lookup(self@.entries, path@);
        }
        match self.entry_map.get(path) {
            Some(index) => Some(&self.entries[*index]),
            None => None,
        }
    }

    /// Whether an entry has the given path.
    pub fn contains(&self, path: &str) -> (b: bool)
        ensures
            b == spec_lookup(self@.entries, path@) is Some,
    {
        self.get_entry(path).is_some()
    }

    /// Reads the content of the entry with the given path, decrypted if the entry is
    /// encrypted.
    pub fn read_file(&self, path: &str) -> (res: Result<Vec<u8>, Error>)
        ensures
            match res {
                Ok(bytes) => spec_lookup(self@.entries, path@) matches Some(i) && {
                    &&& payload_in_bounds(self@.entries[i], self@.data.len() as int)
                    &&& bytes@ == spec_entry_content(self@, self@.entries[i])
                },
                Err(Error::FileNotFound(m)) => spec_lookup(self@.entries, path@) is None && m@
                    == path@,
                Err(Error::Corrupted(_)) => spec_lookup(self@.entries, path@) matches Some(i)
                    && !payload_in_bounds(self@.entries[i], self@.data.len() as int),
                Err(_) => false,
            },
    {
        proof {
            use_type_invariant(self);
            lemma_lookup(self@.entries, path@);
        }
        let entry = match self.get_entry(path) {
            Some(e) => e,
            None => {
                return Err(file_not_found(path));
            },
        };
        let key: Option<&[u8]> = match &self.encryption_key {
            Some(k) => Some(k.as_slice()),
            None => None,
        };
        entry.read(self.data, key)
    }

    /// Reads one chunk of the content of `entry`: the bytes from `local_offset` on, as
    /// many as the entry still has but no more than `max_len`, decrypted at the key
    /// position that `local_offset` gives.
    pub fn read_chunk(&self, entry: &Pf8Entry, local_offset: u32, max_len: usize) -> (res: Result<
        Vec<u8>,
        Error,
    >)
        ensures
            match res {
                Ok(bytes) => {
                    &&& payload_in_bounds(entry@, self@.data.len() as int)
                    &&& local_offset <= entry@.size
                    &&& entry@.encrypted ==> self@.key is Some
                    &&& bytes@ == spec_chunk(self@, entry@, local_offset as int, max_len as int)
                },
                Err(Error::Corrupted(_)) => !payload_in_bounds(entry@, self@.data.len() as int)
                    || local_offset > entry@.size,
                Err(Error::Crypto(_)) => {
                    &&& payload_in_bounds(entry@, self@.data.len() as int)
                    &&& local_offset <= entry@.size
                    &&& entry@.encrypted
                    &&& self@.key is None
                },
                Err(_) => false,
            },
    {
        proof {
            use_type_invariant(self);
        }
        if entry.offset() as u64 + entry.size() as u64 > self.data.len() as u64 || local_offset
            > entry.size() {
            return Err(corrupted("File data extends beyond archive bounds"));
        }
        let remaining: usize = (entry.size() - local_offset) as usize;
        let n: usize = if remaining < max_len {
            remaining
        } else {
            max_len
        };
        let start: usize = entry.offset() as usize + local_offset as usize;
        let stored = &self.data[start..start + n];
        if entry.is_encrypted() {
            match &self.encryption_key {
                Some(key) => Ok(decrypt(stored, key.as_slice(), local_offset as usize)),
                None => Err(crypto_error("File is encrypted but no key provided")),
            }
        } else {
            Ok(slice_to_vec(stored))
        }
    }

    /// Reads the content of the entry with the given path chunk by chunk and hands each
    /// chunk to `callback`, in order. An entry no larger than the chunk size of the
    /// reader is handed over in one chunk. An error of the callback ends the read and is
    /// returned.
    ///
    /// The read fails with `FileNotFound` if no entry has the path and with `Corrupted`
    /// if the payload does not lie inside the archive, in both cases before the callback
    /// is called. Otherwise it succeeds if the callback answers `Ok` to every chunk, and
    /// fails only with an answer of the callback.
    #[verifier::loop_isolation(false)]
    pub fn read_file_streaming<F: FnMut(&[u8]) -> Result<(), Error>>(
        &self,
        path: &str,
        mut callback: F,
    ) -> (res: Result<(), Error>)
        requires
            forall|chunk: &[u8]| call_requires(callback, (chunk,)),
        ensures
            res is Ok ==> (spec_lookup(self@.entries, path@) matches Some(i) && payload_in_bounds(
                self@.entries[i],
                self@.data.len() as int,
            ) && takes_all(callback, self@, self@.entries[i])),
            spec_lookup(self@.entries, path@) is None ==> (res matches Err(
                Error::FileNotFound(m),
            ) && m@ == path@),
            (spec_lookup(self@.entries, path@) matches Some(i) && !payload_in_bounds(
                self@.entries[i],
                self@.data.len() as int,
            )) ==> res matches Err(Error::Corrupted(_)),
            res is Err ==> {
                ||| spec_lookup(self@.entries, path@) is None && res matches Err(
                    Error::FileNotFound(_),
                )
                ||| spec_lookup(self@.entries, path@) matches Some(i) && !payload_in_bounds(
                    self@.entries[i],
                    self@.data.len() as int,
                ) && res matches Err(Error::Corrupted(_))
                ||| exists|chunk: &[u8]| #[trigger] call_ensures(callback, (chunk,), res)
            },
            (forall|chunk: &[u8], r: Result<(), Error>|
                call_ensures(callback, (chunk,), r) ==> r is Ok) ==> (match res {
                Ok(()) => true,
                Err(Error::FileNotFound(m)) => spec_lookup(self@.entries, path@) is None && m@
                    == path@,
                Err(Error::Corrupted(_)) => spec_lookup(self@.entries, path@) matches Some(i)
                    && !payload_in_bounds(self@.entries[i], self@.data.len() as int),
                Err(_) => false,
            }),
    {
        proof {
            use_type_invariant(self);
            lemma_lookup(self@.entries, path@);
        }
        let entry = match self.get_entry(path) {
            Some(e) => e,
            None => {
                return Err(file_not_found(path));
            },
        };
        let size: u32 = entry.size();
        let ghost given = callback;
        let first = match self.read_chunk(entry, 0, self.buffer_size) {
            Ok(chunk) => chunk,
            Err(e) => {
                return Err(e);
            },
        };
        let mut done: u32 = first.len() as u32;
        let first_slice = first.as_slice();
        let answer = callback(first_slice);
        if answer.is_err() {
            return answer;
        }
        assert(call_ensures(given, (first_slice,), answer));
        assert(takes(given, first@));
        let ghost first_len = done as int;
        while done < size
            invariant
                done <= size,
                size == entry@.size,
                self@.buffer_size > 0,
                payload_in_bounds(entry@, self@.data.len() as int),
                entry@.encrypted ==> self@.key is Some,
                callback == given,
                forall|chunk: &[u8]| call_requires(callback, (chunk,)),
                takes_rest(given, self@, entry@, done as int) ==> takes_rest(
                    given,
                    self@,
                    entry@,
                    first_len,
                ),
            decreases size - done,
        {
            let chunk = match self.read_chunk(entry, done, self.buffer_size) {
                Ok(chunk) => chunk,
                Err(e) => {
                    return Err(e);
                },
            };
            let ghost from = done as int;
            done = done + chunk.len() as u32;
            let chunk_slice = chunk.as_slice();
            let answer = callback(chunk_slice);
            if answer.is_err() {
                return answer;
            }
            assert(call_ensures(given, (chunk_slice,), answer));
            assert(takes(given, chunk@));
            assert(takes_rest(given, self@, entry@, done as int) ==> takes_rest(
                given,
                self@,
                entry@,
                from,
            ));
        }
        Ok(())
    }
}

/// Whether `Ok` is an answer that `callback` gives to a chunk that holds the bytes.
pub open spec fn takes<F: FnMut(&[u8]) -> Result<(), Error>>(callback: F, bytes: Seq<u8>) -> bool {
    exists|chunk: &[u8], answer: Result<(), Error>|
        chunk@ == bytes && answer is Ok && #[trigger] call_ensures(callback, (chunk,), answer)
}

/// Whether `Ok` is an answer that `callback` gives to each chunk of an entry from `from`
/// on.
pub open spec fn takes_rest<F: FnMut(&[u8]) -> Result<(), Error>>(
    callback: F,
    r: ReaderView,
    e: Pf8EntryView,
    from: int,
) -> bool
    decreases e.size - from,
{
    if from >= e.size || r.buffer_size == 0 {
        true
    } else {
        &&& takes(callback, spec_chunk(r, e, from, r.buffer_size as int))
        &&& takes_rest(
            callback,
            r,
            e,
            from + chunk_len(e.size as int, from, r.buffer_size as int),
        )
    }
}

/// Whether `Ok` is an answer that `callback` gives to every chunk of an entry: to the
/// first, which may be empty, and to those that follow it as long as the entry has bytes
/// left.
pub open spec fn takes_all<F: FnMut(&[u8]) -> Result<(), Error>>(
    callback: F,
    r: ReaderView,
    e: Pf8EntryView,
) -> bool {
    &&& takes(callback, spec_chunk(r, e, 0, r.buffer_size as int))
    &&& takes_rest(callback, r, e, chunk_len(e.size as int, 0, r.buffer_size as int))
}

/// The content of an entry: its stored bytes, unmasked with the key of the archive if
/// the entry is encrypted.
pub open spec fn spec_entry_content(r: ReaderView, e: Pf8EntryView) -> Seq<u8> {
    if e.encrypted {
        spec_xor(stored_payload(e, r.data), r.key->0, 0)
    } else {
        stored_payload(e, r.data)
    }
}

/// The number of bytes of the chunk that begins `local_offset` bytes into a payload of
/// `size` bytes, where a chunk holds `max_len` bytes at most.
pub open spec fn chunk_len(size: int, local_offset: int, max_len: int) -> int {
    if size - local_offset < max_len {
        size - local_offset
    } else {
        max_len
    }
}

/// The chunk of the content of `e` that begins `local_offset` bytes into it.
pub open spec fn spec_chunk(r: ReaderView, e: Pf8EntryView, local_offset: int, max_len: int) -> Seq<
    u8,
> {
    let n = chunk_len(e.size as int, local_offset, max_len);
    let stored = r.data.subrange(e.offset + local_offset, e.offset + local_offset + n);
    if e.encrypted {
        spec_xor(stored, r.key->0, local_offset)
    } else {
        stored
    }
}

/// Whether `open` succeeds on the bytes `data`: they begin with the magic bytes of a
/// format, hold the whole index region, which has room for its count, every record
/// name is UTF-8, and the index holds as many records as it declares.
pub open spec fn can_open(data: Seq<u8>) -> bool {
    let records = spec_index_records(index_region(data));
    &&& spec_magic(data) is Some
    &&& index_complete(data)
    &&& !index_too_short(data)
    &&& names_valid(records)
    &&& records.len() == spec_u32_le(data, 7)
}

/// The reader that `open` makes of the bytes `data` under the given patterns.
pub open spec fn spec_reader(data: Seq<u8>, patterns: Seq<Seq<char>>) -> ReaderView {
    let format = spec_magic(data)->0;
    ReaderView {
        data,
        entries: spec_entries(data, format, patterns),
        key: spec_archive_key(data, format),
        format,
        buffer_size: BUFFER_SIZE,
    }
}

/// What `open` returns for the bytes `data` under the given patterns.
///
/// Foreign magic bytes are an `InvalidFormat` error, and so is an index region of less
/// than four bytes; a buffer that ends before the end of its index is an `Io` error; a
/// record name that is not UTF-8 is an `InvalidUtf8` error; an index that holds another
/// number of records than it declares is `Corrupted`. Otherwise the reader holds the
/// entries of the index in their order.
pub open spec fn opened(data: Seq<u8>, patterns: Seq<Seq<char>>, res: Result<ReaderView, Error>) -> bool {
    let records = spec_index_records(index_region(data));
    match res {
        Ok(r) => can_open(data) && r == spec_reader(data, patterns),
        Err(Error::InvalidFormat(_)) => spec_magic(data) is None || index_too_short(data),
        Err(Error::Io(_)) => spec_magic(data) is Some && !index_complete(data),
        Err(Error::InvalidUtf8) => {
            &&& spec_magic(data) is Some
            &&& index_complete(data)
            &&& !index_too_short(data)
            &&& !names_valid(records)
        },
        Err(Error::Corrupted(_)) => {
            &&& spec_magic(data) is Some
            &&& index_complete(data)
            &&& !index_too_short(data)
            &&& names_valid(records)
            &&& records.len() != spec_u32_le(data, 7)
        },
        Err(_) => false,
    }
}

} // verus!
