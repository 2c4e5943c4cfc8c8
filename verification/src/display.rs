//! The listing of an archive: the path and size of each entry, and their totals.

use vstd::prelude::*;
use crate::archive::Pf8Archive;
use crate::entry::{Pf8Entry, Pf8EntryView};
use crate::error::Error;
use crate::reader::{opened, spec_reader, can_open, ReaderView};
use crate::utils::pattern_views;

verus! {

/// One line of a listing.
#[derive(Debug)]
pub struct DisplayEntry {
    /// The path of the entry.
    pub name: String,
    /// The size of its payload in bytes.
    pub size: u32,
}

/// Mathematical value of a [`DisplayEntry`].
pub ghost struct DisplayView {
    pub name: Seq<char>,
    pub size: u32,
}

impl View for DisplayEntry {
    type V = DisplayView;

    open spec fn view(&self) -> DisplayView {
        DisplayView { name: self.name@, size: self.size }
    }
}

impl DisplayEntry {
    /// The line for an entry.
    pub fn from_entry(entry: &Pf8Entry) -> (line: Self)
        ensures
            line@ == spec_line(entry@),
    {
        DisplayEntry { name: entry.path().to_owned(), size: entry.size() }
    }
}

/// The line of a listing for an entry.
pub open spec fn spec_line(e: Pf8EntryView) -> DisplayView {
    DisplayView { name: e.path, size: e.size }
}

/// The lines of a listing for the entries of an archive.
pub open spec fn spec_lines(entries: Seq<Pf8EntryView>) -> Seq<DisplayView> {
    entries.map_values(|e: Pf8EntryView| spec_line(e))
}

/// The sizes of the first `k` lines, added up.
pub open spec fn spec_total(lines: Seq<DisplayView>, k: int) -> int
    decreases k,
{
    if k <= 0 {
        0
    } else {
        spec_total(lines, k - 1) + lines[k - 1].size
    }
}

/// The listing of an archive.
#[derive(Debug)]
pub struct FileList {
    entries: Vec<DisplayEntry>,
}

impl View for FileList {
    type V = Seq<DisplayView>;

    closed spec fn view(&self) -> Seq<DisplayView> {
        self.entries@.map_values(|e: DisplayEntry| e@)
    }
}

impl FileList {
    /// The listing with the given lines.
    pub fn new(entries: Vec<DisplayEntry>) -> (list: Self)
        ensures
            list@ == entries@.map_values(|e: DisplayEntry| e@),
    {
        FileList { entries }
    }

    /// The listing of an open archive: one line for each entry, in index order.
    pub fn from_archive(archive: &Pf8Archive) -> (list: Self)
        ensures
            list@ == spec_lines(archive@.entries),
    {
        let entries = archive.reader().entries();
        let mut lines: Vec<DisplayEntry> = Vec::new();
        let mut i: usize = 0;
        while i < entries.len()
            invariant
                i <= entries.len(),
                lines@.len() == i,
                entries@.map_values(|e: Pf8Entry| e@) == archive@.entries,
                forall|j: int| 0 <= j < i ==> (#[trigger] lines@[j])@ == spec_line(entries@[j]@),
            decreases entries.len() - i,
        {
            lines.push(DisplayEntry::from_entry(&entries[i]));
            i = i + 1;
        }
        let list = FileList { entries: lines };
        proof {
            assert forall|j: int| 0 <= j < entries@.len() implies list@[j] == spec_lines(
                archive@.entries,
            )[j] by {
                assert(entries@.map_values(|e: Pf8Entry| e@)[j] == entries@[j]@);
            }
            assert(list@ =~= spec_lines(archive@.entries));
        }
        list
    }

    /// The lines of the listing.
    pub fn entries(&self) -> (lines: &[DisplayEntry])
        ensures
            lines@.map_values(|e: DisplayEntry| e@) == self@,
    {
        self.entries.as_slice()
    }

    /// The number of lines.
    pub fn count(&self) -> (n: usize)
        ensures
            n == self@.len(),
    {
        self.entries.len()
    }

    /// The sizes of all entries, added up.
    pub fn total_size(&self) -> (total: u128)
        ensures
            total == spec_total(self@, self@.len() as int),
    {
        let mut total: u128 = 0;
        let mut i: usize = 0;
        while i < self.entries.len()
            invariant
                i <= self.entries.len(),
                total == spec_total(self@, i as int),
                total <= i * 0xFFFF_FFFF,
            decreases self.entries.len() - i,
        {
            assert(self@[i as int].size == self.entries@[i as int].size);
            assert(i * 0xFFFF_FFFF + 0xFFFF_FFFF == (i + 1) * 0xFFFF_FFFF) by (nonlinear_arith);
            assert(i * 0xFFFF_FFFF <= usize::MAX * 0xFFFF_FFFF) by (nonlinear_arith)
                requires
                    i <= usize::MAX,
            ;
            total = total + self.entries[i].size as u128;
            i = i + 1;
        }
        total
    }
}

/// What `list_archive` returns for the bytes `data` under the given patterns: the
/// listing of the archive, or the error of `open`.
pub open spec fn listed(data: Seq<u8>, patterns: Seq<Seq<char>>, res: Result<Seq<DisplayView>, Error>) -> bool {
    match res {
        Ok(lines) => can_open(data) && lines == spec_lines(spec_reader(data, patterns).entries),
        Err(e) => opened(data, patterns, Err(e)),
    }
}

/// Lists the entries of an archive, which are classified with the default patterns.
pub fn list_archive(archive_data: &[u8]) -> (res: Result<FileList, Error>)
    ensures
        listed(
            archive_data@,
            seq!["mp4"@, "flv"@],
            match res {
                Ok(list) => Ok(list@),
                Err(e) => Err(e),
            },
        ),
{
    match Pf8Archive::open(archive_data) {
        Ok(archive) => Ok(FileList::from_archive(&archive)),
        Err(e) => Err(e),
    }
}

/// Lists the entries of an archive, which are classified with the given patterns.
pub fn list_archive_with_patterns(archive_data: &[u8], unencrypted_patterns: &[&str]) -> (res:
    Result<FileList, Error>)
    ensures
        listed(
            archive_data@,
            pattern_views(unencrypted_patterns@),
            match res {
                Ok(list) => Ok(list@),
                Err(e) => Err(e),
            },
        ),
{
    match Pf8Archive::open_with_patterns(archive_data, unencrypted_patterns) {
        Ok(archive) => Ok(FileList::from_archive(&archive)),
        Err(e) => Err(e),
    }
}

} // verus!
