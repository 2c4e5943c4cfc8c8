//! The archive builder: collects the files of an archive and writes them in the order
//! of their archive paths.
//!
//! The builder never touches a file system. Whoever adds a path says what kind of
//! thing lies there, and whoever writes the archive hands in the content of each file.

use vstd::prelude::*;
use crate::callbacks::{
    always_continues,
    answered,
    ArchiveHandler,
    ControlAction,
    EventView,
    OperationType,
    told,
};
use crate::constants::{default_unencrypted_patterns, BUFFER_SIZE};
use crate::crypto::lemma_xor_split;
use crate::operation::{
    bytes_left,
    entries_left,
    entry_heard,
    entry_open,
    event_told,
    heard,
    in_entry,
    lemma_heard_cancel,
    lemma_heard_next,
    lemma_next_advances,
    phase_rank,
    spec_next,
    spec_wf,
    Operation,
    OperationView,
    Phase,
    Step,
};
use crate::entry::{entry_paths, entry_views, Pf8Entry, Pf8EntryView};
use crate::error::{Error, invalid_format, io_error};
use crate::paths::{
    file_name,
    join,
    spec_file_name,
    spec_join,
    spec_strip_prefix,
    strip_prefix,
};
use crate::sorting::{is_sorted_order, sorted_order, spec_sorted_order};
use crate::text::{chars_of, string_views};
use crate::utils::{pattern_views, spec_matches_any, spec_pathbuf_to_pf8_path};
use crate::layout::{
    item_of,
    items_of,
    layout_fits,
    lemma_header_len,
    lemma_sizes_nonnegative,
    spec_header,
    IndexItem,
};
use crate::writer::{header_key, stored_bytes, Pf8Writer, WriterState, WriterView};

verus! {

/// What lies at a path on disk, as far as the builder cares.
#[derive(Debug, Clone, Copy, PartialEq, Eq, Structural)]
pub enum PathKind {
    /// Nothing.
    Missing,
    /// A regular file.
    File,
    /// A directory.
    Directory,
    /// Something else.
    Other,
}

/// Mathematical value of a [`Pf8Builder`].
pub ghost struct BuilderView {
    /// Source path and archive path of each file, in the order in which they were added.
    pub files: Seq<(Seq<char>, Seq<char>)>,
    /// The directory that archive paths are taken relative to, if one is set.
    pub base_path: Option<Seq<char>>,
    /// The patterns that exempt entries from encryption.
    pub patterns: Seq<Seq<char>>,
}

/// The archive path under which `add_file` adds a file: its path below the base
/// directory if one is set, its file name otherwise.
pub open spec fn spec_archive_path(base: Option<Seq<char>>, path: Seq<char>) -> Option<Seq<char>> {
    match base {
        Some(b) => spec_strip_prefix(path, b),
        None => spec_file_name(path),
    }
}

/// The archive paths of the files.
pub open spec fn archive_paths(files: Seq<(Seq<char>, Seq<char>)>) -> Seq<Seq<char>> {
    files.map_values(|f: (Seq<char>, Seq<char>)| f.1)
}

/// The patterns that count when entries are made: those that are configured, or the
/// defaults if none are.
pub open spec fn effective_patterns(patterns: Seq<Seq<char>>) -> Seq<Seq<char>> {
    if patterns.len() == 0 {
        seq!["mp4"@, "flv"@]
    } else {
        patterns
    }
}

/// The pair that a file of a directory is added as: its own path, and its path below
/// the directory, with the prefix before it if there is one.
pub open spec fn spec_dir_pair(dir: Seq<char>, prefix: Option<Seq<char>>, file: Seq<char>) -> (
    Seq<char>,
    Seq<char>,
) {
    let relative = spec_strip_prefix(file, dir)->0;
    (
        file,
        match prefix {
            Some(p) => spec_join(p, relative),
            None => relative,
        },
    )
}

/// The pairs of the first `n` files of a directory.
pub open spec fn spec_dir_pairs(
    dir: Seq<char>,
    prefix: Option<Seq<char>>,
    files: Seq<Seq<char>>,
    n: int,
) -> Seq<(Seq<char>, Seq<char>)> {
    Seq::new(n as nat, |i: int| spec_dir_pair(dir, prefix, files[i]))
}

/// The first file that does not lie below the directory, or the number of files if all
/// do.
pub open spec fn first_outside(dir: Seq<char>, files: Seq<Seq<char>>) -> int
    decreases files.len(),
{
    if files.len() == 0 {
        0
    } else if spec_strip_prefix(files[0], dir) is None {
        0
    } else {
        1 + first_outside(dir, files.drop_first())
    }
}

/// A builder for PF8 archives.
pub struct Pf8Builder {
    /// Source path and archive path of each file.
    files: Vec<(String, String)>,
    /// Base directory for archive paths.
    base_path: Option<String>,
    /// Patterns that exempt entries from encryption.
    unencrypted_patterns: Vec<String>,
}

impl View for Pf8Builder {
    type V = BuilderView;

    closed spec fn view(&self) -> BuilderView {
        BuilderView {
            files: self.files@.map_values(|f: (String, String)| (f.0@, f.1@)),
            base_path: match self.base_path {
                Some(b) => Some(b@),
                None => None,
            },
            patterns: self.unencrypted_patterns@.map_values(|p: String| p@),
        }
    }
}

impl Pf8Builder {
    /// Makes a builder without files, base directory or patterns.
    pub fn new() -> (b: Self)
        ensures
            b@ == (BuilderView { files: Seq::empty(), base_path: None, patterns: Seq::empty() }),
    {
        let b = Pf8Builder {
            files: Vec::new(),
            base_path: None,
            unencrypted_patterns: Vec::new(),
        };
        assert(b@.files =~= Seq::empty());
        assert(b@.patterns =~= Seq::empty());
        b
    }

    /// Sets the directory that the archive paths of `add_file` are relative to.
    pub fn base_path(&mut self, path: &str)
        ensures
            final(self)@ == (BuilderView { base_path: Some(path@), ..old(self)@ }),
    {
        self.base_path = Some(path.to_owned());
    }

    /// Sets the patterns that exempt entries from encryption.
    pub fn unencrypted_extensions(&mut self, patterns: &[&str])
        ensures
            final(self)@ == (BuilderView { patterns: pattern_views(patterns@), ..old(self)@ }),
    {
        let mut owned: Vec<String> = Vec::new();
        let mut i: usize = 0;
        while i < patterns.len()
            invariant
                i <= patterns.len(),
                owned@.len() == i,
                forall|j: int| 0 <= j < i ==> (#[trigger] owned@[j])@ == patterns@[j]@,
            decreases patterns.len() - i,
        {
            owned.push(patterns[i].to_owned());
            i = i + 1;
        }
        self.unencrypted_patterns = owned;
        assert(self@.patterns =~= pattern_views(patterns@));
    }

    /// Adds the file at `file_path`, which the caller found to be of the given kind.
    pub fn add_file(&mut self, file_path: &str, kind: PathKind) -> (res: Result<(), Error>)
        ensures
            match res {
                Ok(()) => {
                    &&& kind == PathKind::File
                    &&& spec_archive_path(old(self)@.base_path, file_path@) is Some
                    &&& final(self)@ == (BuilderView {
                        files: old(self)@.files.push(
                            (file_path@, spec_archive_path(old(self)@.base_path, file_path@)->0),
                        ),
                        ..old(self)@
                    })
                },
                Err(Error::Io(_)) => kind == PathKind::Missing && final(self)@ == old(self)@,
                Err(Error::InvalidFormat(_)) => {
                    &&& kind != PathKind::Missing
                    &&& kind != PathKind::File || spec_archive_path(
                        old(self)@.base_path,
                        file_path@,
                    ) is None
                    &&& final(self)@ == old(self)@
                },
                Err(_) => false,
            },
    {
        if kind == PathKind::Missing {
            return Err(io_error("File not found"));
        }
        if kind != PathKind::File {
            return Err(invalid_format("Path is not a file"));
        }
        let archive_path = match &self.base_path {
            Some(base) => match strip_prefix(file_path, base.as_str()) {
                Some(relative) => relative,
                None => {
                    return Err(invalid_format("File path is not under base path"));
                },
            },
            None => match file_name(file_path) {
                Some(name) => name,
                None => {
                    return Err(invalid_format("Invalid file name"));
                },
            },
        };
        self.push_file(file_path, archive_path);
        Ok(())
    }

    /// Adds the file at `file_path` under the archive path `archive_path`.
    pub fn add_file_as(&mut self, file_path: &str, archive_path: &str, kind: PathKind) -> (res:
        Result<(), Error>)
        ensures
            match res {
                Ok(()) => kind == PathKind::File && final(self)@ == (BuilderView {
                    files: old(self)@.files.push((file_path@, archive_path@)),
                    ..old(self)@
                }),
                Err(Error::Io(_)) => kind == PathKind::Missing && final(self)@ == old(self)@,
                Err(Error::InvalidFormat(_)) => {
                    &&& kind != PathKind::Missing
                    &&& kind != PathKind::File
                    &&& final(self)@ == old(self)@
                },
                Err(_) => false,
            },
    {
        if kind == PathKind::Missing {
            return Err(io_error("File not found"));
        }
        if kind != PathKind::File {
            return Err(invalid_format("Path is not a file"));
        }
        self.push_file(file_path, archive_path.to_owned());
        Ok(())
    }

    fn push_file(&mut self, file_path: &str, archive_path: String)
        ensures
            final(self)@ == (BuilderView {
                files: old(self)@.files.push((file_path@, archive_path@)),
                ..old(self)@
            }),
    {
        self.files.push((file_path.to_owned(), archive_path));
        assert(self@.files =~= old(self)@.files.push((file_path@, archive_path@)));
    }

    /// Adds the regular files of a directory, which the caller has walked: `files` are
    /// their paths, each of which begins with `dir_path`. The archive path of a file is
    /// its path below the directory.
    pub fn add_dir(&mut self, dir_path: &str, kind: PathKind, files: &[String]) -> (res: Result<
        (),
        Error,
    >)
        ensures
            dir_added(old(self)@, final(self)@, dir_path@, None, kind, string_views(files@), res),
    {
        self.add_walked(dir_path, None, kind, files)
    }

    /// Adds the regular files of a directory as [`Self::add_dir`] does, with
    /// `archive_prefix` before each archive path.
    pub fn add_dir_as(
        &mut self,
        dir_path: &str,
        archive_prefix: &str,
        kind: PathKind,
        files: &[String],
    ) -> (res: Result<(), Error>)
        ensures
            dir_added(
                old(self)@,
                final(self)@,
                dir_path@,
                Some(archive_prefix@),
                kind,
                string_views(files@),
                res,
            ),
    {
        self.add_walked(dir_path, Some(archive_prefix), kind, files)
    }

    fn add_walked(
        &mut self,
        dir_path: &str,
        archive_prefix: Option<&str>,
        kind: PathKind,
        files: &[String],
    ) -> (res: Result<(), Error>)
        ensures
            dir_added(
                old(self)@,
                final(self)@,
                dir_path@,
                match archive_prefix {
                    Some(p) => Some(p@),
                    None => None,
                },
                kind,
                string_views(files@),
                res,
            ),
    {
        if kind == PathKind::Missing {
            return Err(io_error("Directory not found"));
        }
        if kind != PathKind::Directory {
            return Err(invalid_format("Path is not a directory"));
        }
        let ghost prefix: Option<Seq<char>> = match archive_prefix {
            Some(p) => Some(p@),
            None => None,
        };
        let ghost paths = string_views(files@);
        let mut i: usize = 0;
        proof {
            assert(paths.skip(0) =~= paths);
            assert(spec_dir_pairs(dir_path@, prefix, paths, 0) =~= Seq::empty());
            assert(old(self)@.files + Seq::empty() =~= old(self)@.files);
        }
        while i < files.len()
            invariant
                i <= files.len(),
                kind == PathKind::Directory,
                paths == string_views(files@),
                prefix == (match archive_prefix {
                    Some(p) => Some(p@),
                    None => None,
                }),
                first_outside(dir_path@, paths) == i + first_outside(
                    dir_path@,
                    paths.skip(i as int),
                ),
                self@ == (BuilderView {
                    files: old(self)@.files + spec_dir_pairs(dir_path@, prefix, paths, i as int),
                    ..old(self)@
                }),
            decreases files.len() - i,
        {
            proof {
                assert(paths.skip(i as int).drop_first() =~= paths.skip(i + 1));
                assert(paths.skip(i as int)[0] == paths[i as int]);
                assert(paths[i as int] == files@[i as int]@);
            }
            let relative = match strip_prefix(files[i].as_str(), dir_path) {
                Some(r) => r,
                None => {
                    proof {
                        assert(first_outside(dir_path@, paths.skip(i as int)) == 0);
                    }
                    return Err(invalid_format("Failed to create relative path"));
                },
            };
            let archive_path = match archive_prefix {
                Some(p) => join(p, relative.as_str()),
                None => relative,
            };
            self.push_file(files[i].as_str(), archive_path);
            proof {
                assert(spec_dir_pairs(dir_path@, prefix, paths, i + 1) =~= spec_dir_pairs(
                    dir_path@,
                    prefix,
                    paths,
                    i as int,
                ).push(spec_dir_pair(dir_path@, prefix, paths[i as int])));
                assert(self@.files =~= old(self)@.files + spec_dir_pairs(
                    dir_path@,
                    prefix,
                    paths,
                    i + 1,
                ));
            }
            i = i + 1;
        }
        proof {
            assert(paths.skip(files.len() as int) =~= Seq::empty());
        }
        Ok(())
    }

    /// The number of files added.
    pub fn file_count(&self) -> (n: usize)
        ensures
            n == self@.files.len(),
    {
        self.files.len()
    }

    /// Whether no file is added.
    pub fn is_empty(&self) -> (b: bool)
        ensures
            b == (self@.files.len() == 0),
    {
        self.files.len() == 0
    }

    /// Forgets all files.
    pub fn clear(&mut self)
        ensures
            final(self)@ == (BuilderView { files: Seq::empty(), ..old(self)@ }),
    {
        self.files.clear();
        assert(self@.files =~= Seq::empty());
    }

    /// Source path and archive path of each file, in the order in which they were added.
    pub fn files(&self) -> (files: &[(String, String)])
        ensures
            files@.map_values(|f: (String, String)| (f.0@, f.1@)) == self@.files,
    {
        self.files.as_slice()
    }

    /// The positions of the files in the order in which they are written: by archive
    /// path, files with the same archive path in the order in which they were added.
    pub fn sorted_indices(&self) -> (order: Vec<usize>)
        ensures
            is_sorted_order(archive_paths(self@.files), order@),
            order@ == spec_sorted_order(archive_paths(self@.files)),
    {
        let mut paths: Vec<Vec<char>> = Vec::new();
        let mut i: usize = 0;
        while i < self.files.len()
            invariant
                i <= self.files.len(),
                paths@.len() == i,
                forall|j: int| 0 <= j < i ==> (#[trigger] paths@[j])@ == self.files@[j].1@,
            decreases self.files.len() - i,
        {
            paths.push(chars_of(self.files[i].1.as_str()));
            i = i + 1;
        }
        assert(paths@.map_values(|p: Vec<char>| p@) =~= archive_paths(self@.files));
        sorted_order(&paths)
    }

    /// The patterns that count when entries are made, as string slices.
    fn pattern_refs(&self) -> (refs: Vec<&str>)
        ensures
            pattern_views(refs@) == effective_patterns(self@.patterns),
    {
        if self.unencrypted_patterns.len() == 0 {
            let refs = default_unencrypted_patterns();
            assert(pattern_views(refs@) =~= seq!["mp4"@, "flv"@]);
            return refs;
        }
        let mut refs: Vec<&str> = Vec::new();
        let mut i: usize = 0;
        while i < self.unencrypted_patterns.len()
            invariant
                i <= self.unencrypted_patterns.len(),
                refs@.len() == i,
                forall|j: int|
                    0 <= j < i ==> (#[trigger] refs@[j])@ == self.unencrypted_patterns@[j]@,
            decreases self.unencrypted_patterns.len() - i,
        {
            refs.push(self.unencrypted_patterns[i].as_str());
            i = i + 1;
        }
        assert(pattern_views(refs@) =~= self@.patterns);
        refs
    }

    /// Makes the entries of the archive, in the order in which they are written, from
    /// the sizes of the files, which are given in the order in which the files were
    /// added. Returns the entries and, for each, the position of its file.
    ///
    /// A size is read when the archive is written, not when the file is added. The
    /// sizes must add up to less than 2^32.
    pub fn build_entries(&self, sizes: &[u64]) -> (res: Result<(Vec<Pf8Entry>, Vec<usize>), Error>)
        ensures
            match res {
                Ok((entries, order)) => {
                    &&& sizes_fit(self@, sizes@)
                    &&& order@ == spec_sorted_order(archive_paths(self@.files))
                    &&& is_sorted_order(archive_paths(self@.files), order@)
                    &&& entry_views(entries@) == spec_built(self@, sizes@)
                },
                Err(Error::InvalidFormat(_)) => !sizes_fit(self@, sizes@),
                Err(_) => false,
            },
    {
        if sizes.len() != self.files.len() {
            return Err(invalid_format("One size is needed for each file"));
        }
        let order = self.sorted_indices();
        let patterns = self.pattern_refs();
        let n = order.len();
        let ghost wanted = spec_built(self@, sizes@);
        let mut entries: Vec<Pf8Entry> = Vec::new();
        let mut total: u32 = 0;
        let mut i: usize = 0;
        while i < n
            invariant
                i <= n,
                n == order@.len(),
                n == sizes@.len(),
                n == self@.files.len(),
                order@ == spec_sorted_order(archive_paths(self@.files)),
                is_sorted_order(archive_paths(self@.files), order@),
                pattern_views(patterns@) == effective_patterns(self@.patterns),
                total == ordered_total(sizes@, order@, i as int),
                entries@.len() == i,
                wanted == spec_built(self@, sizes@),
                forall|j: int| 0 <= j < i ==> (#[trigger] entries@[j])@ == wanted[j],
            decreases n - i,
        {
            let position = order[i];
            let size = sizes[position];
            proof {
                lemma_ordered_total(sizes@, order@, i + 1, n as int);
            }
            if size > 0xFFFF_FFFF - total as u64 {
                return Err(invalid_format("File too large"));
            }
            let entry = Pf8Entry::new(
                self.files[position].1.as_str(),
                total,
                size as u32,
                patterns.as_slice(),
            );
            proof {
                assert(self@.files[position as int].1 == self.files@[position as int].1@);
            }
            entries.push(entry);
            total = total + size as u32;
            i = i + 1;
        }
        proof {
            assert(entry_views(entries@) =~= wanted);
        }
        Ok((entries, order))
    }

    /// Writes the archive through `writer`: the header for all files in the order of
    /// their archive paths, then the content of each file in that order, then the end.
    /// `sources` holds the content of each file, in the order in which the files were
    /// added. A builder without files is an error, and nothing is written.
    pub fn write_to_writer(&self, writer: &mut Pf8Writer, sources: &[Vec<u8>]) -> (res: Result<
        (),
        Error,
    >)
        requires
            old(writer).wf(),
        ensures
            final(writer).wf(),
            match res {
                Ok(()) => {
                    &&& packable(self@, content_views(sources@))
                    &&& old(writer)@.state == WriterState::Created
                    &&& final(writer)@ == (WriterView {
                        state: WriterState::Finalized,
                        pending: old(writer)@.pending + spec_archive(
                            self@,
                            content_views(sources@),
                        ),
                        position: spec_archive(self@, content_views(sources@)).len() as u64,
                        header: spec_header(spec_items(self@, content_views(sources@))),
                        key: Some(header_key(spec_items(self@, content_views(sources@)))),
                        buffer_size: old(writer)@.buffer_size,
                    })
                },
                Err(Error::InvalidFormat(_)) => {
                    &&& !packable(self@, content_views(sources@)) || old(writer)@.state
                        != WriterState::Created
                    &&& final(writer)@ == old(writer)@
                },
                Err(_) => false,
            },
    {
        if self.files.len() == 0 {
            return Err(invalid_format("No files to archive"));
        }
        if sources.len() != self.files.len() {
            return Err(invalid_format("One source is needed for each file"));
        }
        let ghost contents = content_views(sources@);
        let sizes = source_sizes(sources);
        let (entries, order) = match self.build_entries(sizes.as_slice()) {
            Ok(built) => built,
            Err(e) => {
                return Err(e);
            },
        };
        let ordered = arrange(sources, order.as_slice());
        proof {
            assert forall|j: int| 0 <= j < contents.len() implies (#[trigger] contents[j]).len()
                <= u64::MAX by {
                let v = sources@[j];
                assert(contents[j] == v@);
                assert(v@.len() == v.len());
            }
            lemma_entries_built(self@, contents, entry_views(entries@));
            assert(items_of(entries@) =~= entry_views(entries@).map_values(
                |e: Pf8EntryView| item_of(e),
            ));
            assert forall|j: int| 0 <= j < entries@.len() implies (#[trigger] entries@[j])@.size
                == ordered@[j]@.len() by {
                assert(entry_views(entries@)[j] == entries@[j]@);
                assert(contents[order@[j] as int] == sources@[order@[j] as int]@);
            }
        }
        let res = write_entries(writer, entries.as_slice(), ordered.as_slice());
        proof {
            if res is Ok {
                lemma_header_len(spec_items(self@, contents));
                lemma_payloads_len(
                    entry_views(entries@),
                    in_order(contents, order@),
                    header_key(spec_items(self@, contents)),
                    order@.len() as int,
                );
            }
        }
        res
    }

    /// Writes the archive as [`Self::write_to_writer`] does and tells `handler` of every
    /// step: the start, the begin and the end of each entry, the end. An answer of
    /// `Abort` ends the operation with the error `Cancelled` before the next entry is
    /// touched; what is written by then stays written.
    ///
    /// A builder without files, contents that are not one for each file, and sizes that
    /// do not fit are refused with `InvalidFormat` before the handler is told of anything.
    /// With a handler that always answers `Continue` the call succeeds exactly where
    /// [`Self::write_to_writer`] does.
    pub fn write_to_writer_with_progress<H: ArchiveHandler>(
        &self,
        writer: &mut Pf8Writer,
        sources: &[Vec<u8>],
        handler: &mut H,
    ) -> (res: Result<(), Error>)
        requires
            old(writer).wf(),
        ensures
            final(writer).wf(),
            match res {
                Ok(()) => {
                    &&& packable(self@, content_views(sources@))
                    &&& old(writer)@.state == WriterState::Created
                    &&& final(writer)@ == (WriterView {
                        state: WriterState::Finalized,
                        pending: old(writer)@.pending + spec_archive(
                            self@,
                            content_views(sources@),
                        ),
                        position: spec_archive(self@, content_views(sources@)).len() as u64,
                        header: spec_header(spec_items(self@, content_views(sources@))),
                        key: Some(header_key(spec_items(self@, content_views(sources@)))),
                        buffer_size: old(writer)@.buffer_size,
                    })
                },
                Err(Error::InvalidFormat(_)) => {
                    &&& !packable(self@, content_views(sources@)) || old(writer)@.state
                        != WriterState::Created
                    &&& final(writer)@ == old(writer)@
                },
                Err(Error::Cancelled) => !refused_at_once(self@, content_views(sources@)),
                Err(_) => false,
            },
            refused_at_once(self@, content_views(sources@)) ==> res matches Err(
                Error::InvalidFormat(_),
            ),
            !refused_at_once(self@, content_views(sources@)) ==> handled_pack::<H>(
                old(writer)@,
                final(writer)@,
                spec_items(self@, content_views(sources@)),
                spec_built(self@, sizes_of(content_views(sources@))),
                in_order(content_views(sources@), spec_sorted_order(archive_paths(self@.files))),
                res,
            ),
    {
        if self.files.len() == 0 {
            return Err(invalid_format("No files to archive"));
        }
        if sources.len() != self.files.len() {
            return Err(invalid_format("One source is needed for each file"));
        }
        let ghost contents = content_views(sources@);
        let sizes = source_sizes(sources);
        let (entries, order) = match self.build_entries(sizes.as_slice()) {
            Ok(built) => built,
            Err(e) => {
                return Err(e);
            },
        };
        let ordered = arrange(sources, order.as_slice());
        proof {
            assert forall|j: int| 0 <= j < contents.len() implies (#[trigger] contents[j]).len()
                <= u64::MAX by {
                let v = sources@[j];
                assert(contents[j] == v@);
                assert(v@.len() == v.len());
            }
            lemma_entries_built(self@, contents, entry_views(entries@));
            assert(items_of(entries@) =~= entry_views(entries@).map_values(
                |e: Pf8EntryView| item_of(e),
            ));
            assert forall|j: int| 0 <= j < entries@.len() implies (#[trigger] entries@[j])@.size
                == ordered@[j]@.len() by {
                assert(entry_views(entries@)[j] == entries@[j]@);
                assert(contents[order@[j] as int] == sources@[order@[j] as int]@);
            }
        }
        if entries.len() > 0xFFFF_FFFF {
            proof {
                lemma_sizes_nonnegative(spec_items(self@, contents));
            }
            return Err(invalid_format("Archive too large"));
        }
        let res = run_pack(writer, entries.as_slice(), ordered.as_slice(), handler);
        proof {
            if res is Ok {
                lemma_header_len(spec_items(self@, contents));
                lemma_payloads_len(
                    entry_views(entries@),
                    in_order(contents, order@),
                    header_key(spec_items(self@, contents)),
                    order@.len() as int,
                );
            }
        }
        res
    }

    /// Builds the archive in memory as [`Self::write_to_file`] does and tells `handler`
    /// of every step.
    pub fn write_to_file_with_progress<H: ArchiveHandler>(
        &self,
        sources: &[Vec<u8>],
        handler: &mut H,
    ) -> (res: Result<Vec<u8>, Error>)
        ensures
            match res {
                Ok(bytes) => packable(self@, content_views(sources@)) && bytes@ == spec_archive(
                    self@,
                    content_views(sources@),
                ),
                Err(Error::InvalidFormat(_)) => !packable(self@, content_views(sources@)),
                Err(Error::Cancelled) => !refused_at_once(self@, content_views(sources@)),
                Err(_) => false,
            },
            refused_at_once(self@, content_views(sources@)) ==> res matches Err(
                Error::InvalidFormat(_),
            ),
            !refused_at_once(self@, content_views(sources@)) ==> exists|w: WriterView|
                #[trigger] handled_pack::<H>(
                    new_writer(),
                    w,
                    spec_items(self@, content_views(sources@)),
                    spec_built(self@, sizes_of(content_views(sources@))),
                    in_order(
                        content_views(sources@),
                        spec_sorted_order(archive_paths(self@.files)),
                    ),
                    without_bytes(res),
                ),
    {
        let mut writer = Pf8Writer::create();
        assert(writer@ == new_writer());
        let res = self.write_to_writer_with_progress(&mut writer, sources, handler);
        let ghost written = writer@;
        proof {
            if !refused_at_once(self@, content_views(sources@)) {
                assert(handled_pack::<H>(
                    new_writer(),
                    written,
                    spec_items(self@, content_views(sources@)),
                    spec_built(self@, sizes_of(content_views(sources@))),
                    in_order(
                        content_views(sources@),
                        spec_sorted_order(archive_paths(self@.files)),
                    ),
                    res,
                ));
            }
        }
        match res {
            Ok(()) => {
                let bytes = writer.take_output();
                proof {
                    assert(bytes@ =~= spec_archive(self@, content_views(sources@)));
                    if !refused_at_once(self@, content_views(sources@)) {
                        assert(handled_pack::<H>(
                            new_writer(),
                            written,
                            spec_items(self@, content_views(sources@)),
                            spec_built(self@, sizes_of(content_views(sources@))),
                            in_order(
                                content_views(sources@),
                                spec_sorted_order(archive_paths(self@.files)),
                            ),
                            without_bytes(Ok(bytes)),
                        ));
                    }
                }
                Ok(bytes)
            },
            Err(e) => Err(e),
        }
    }

    /// Builds the archive in memory and returns its bytes. `sources` holds the content
    /// of each file, in the order in which the files were added.
    pub fn write_to_file(&self, sources: &[Vec<u8>]) -> (res: Result<Vec<u8>, Error>)
        ensures
            match res {
                Ok(bytes) => packable(self@, content_views(sources@)) && bytes@ == spec_archive(
                    self@,
                    content_views(sources@),
                ),
                Err(Error::InvalidFormat(_)) => !packable(self@, content_views(sources@)),
                Err(_) => false,
            },
    {
        let mut writer = Pf8Writer::create();
        match self.write_to_writer(&mut writer, sources) {
            Ok(()) => {
                let bytes = writer.take_output();
                assert(bytes@ =~= spec_archive(self@, content_views(sources@)));
                Ok(bytes)
            },
            Err(e) => Err(e),
        }
    }
}

/// The payload bytes that are written when a pack operation has come to the given
/// state: the payloads of the entries that are complete, and the payload of the current
/// entry as far as it has been asked for.
pub open spec fn packed_so_far(
    v: OperationView,
    entries: Seq<Pf8EntryView>,
    contents: Seq<Seq<u8>>,
    key: Seq<u8>,
) -> Seq<u8> {
    if in_entry(v.phase) {
        spec_payloads(entries, contents, key, v.index) + stored_bytes(
            entries[v.index],
            contents[v.index].take(v.done),
            key,
            0,
        )
    } else {
        spec_payloads(entries, contents, key, v.index)
    }
}

/// Whether a chunk is written when a pack operation has come to the given state.
pub open spec fn chunk_written(v: OperationView) -> bool {
    v.index > 0 || v.phase == Phase::SentTransfer || v.phase == Phase::SentEntryFinished
}

/// What holds of the writer while a pack operation runs.
pub open spec fn pack_inv(
    v: OperationView,
    before: WriterView,
    w: WriterView,
    items: Seq<IndexItem>,
    entries: Seq<Pf8EntryView>,
    contents: Seq<Seq<u8>>,
) -> bool {
    let key = header_key(items);
    &&& v.phase != Phase::Cancelled
    &&& v.phase != Phase::Done
    &&& v.phase != Phase::SentProgress
    &&& if v.phase == Phase::Created || v.phase == Phase::SentStarted {
        w == before
    } else {
        &&& before.state == WriterState::Created
        &&& layout_fits(items)
        &&& w.header == spec_header(items)
        &&& w.key == Some(key)
        &&& w.buffer_size == before.buffer_size
        &&& w.pending == before.pending + spec_header(items) + packed_so_far(
            v,
            entries,
            contents,
            key,
        )
        &&& w.position == spec_header(items).len() + contents_len(contents, v.index) + (if in_entry(
            v.phase,
        ) {
            v.done
        } else {
            0
        })
        &&& w.state == (if v.phase == Phase::SentFinalize || v.phase == Phase::SentFinished
            || v.phase == Phase::Done {
            WriterState::Finalized
        } else if chunk_written(v) {
            WriterState::WritingData
        } else {
            WriterState::HeaderWritten
        })
    }
}

/// The result without the bytes it holds.
pub open spec fn without_bytes(res: Result<Vec<u8>, Error>) -> Result<(), Error> {
    match res {
        Ok(_) => Ok(()),
        Err(e) => Err(e),
    }
}

/// The value of a writer that is new.
pub open spec fn new_writer() -> WriterView {
    WriterView {
        state: WriterState::Created,
        pending: Seq::empty(),
        position: 0,
        header: Seq::empty(),
        key: None,
        buffer_size: BUFFER_SIZE,
    }
}

/// Whether an archive is refused before the handler is told of anything: there is no
/// file, the contents are not one for each file, their sizes do not fit, or there are
/// more files than an index can count.
pub open spec fn refused_at_once(b: BuilderView, contents: Seq<Seq<u8>>) -> bool {
    ||| b.files.len() == 0
    ||| contents.len() != b.files.len()
    ||| !sizes_fit(b, sizes_of(contents))
    ||| b.files.len() > u32::MAX
}

/// Whether a handler of the type `H` answered `Continue` to all that it was told before
/// a pack operation came to entry `k`: to the start, and to the begin and the end of
/// every entry before entry `k`; and, if entry `k` is `begun`, to the begin of entry `k`.
pub open spec fn pack_continued_before<H: ArchiveHandler>(
    entries: Seq<Pf8EntryView>,
    k: int,
    begun: bool,
) -> bool {
    &&& answered::<H>(EventView::Started(OperationType::Pack), ControlAction::Continue)
    &&& forall|j: int| 0 <= j < k ==> entry_heard::<H>(#[trigger] entries[j].path)
    &&& begun ==> answered::<H>(EventView::EntryStarted(entries[k].path), ControlAction::Continue)
}

/// Whether `event` is an event at which a pack operation can be stopped so that the
/// first `k` payloads and the first `n` bytes of payload `k` are written: the begin of
/// entry `k`, before any of its bytes, or its end, behind all of them.
pub open spec fn pack_stopped_at(entries: Seq<Pf8EntryView>, k: int, n: int, event: EventView) -> bool {
    match event {
        EventView::EntryStarted(name) => 0 <= k < entries.len() && name == entries[k].path && n
            == 0,
        EventView::EntryFinished(name) => 0 <= k < entries.len() && name == entries[k].path
            && n == entries[k].size,
        _ => false,
    }
}

/// Whether the writer holds what a pack operation leaves that a handler of the type `H`
/// stopped. The handler answered `Abort` to the start, and nothing is written; or it
/// answered `Abort` to the begin or the end of an entry, after `Continue` to the start
/// and to the begin and the end of the entries before, and the writer holds the header
/// and the payloads up to there. Nothing that was written is taken back.
pub open spec fn cancelled_pack_by<H: ArchiveHandler>(
    before: WriterView,
    w: WriterView,
    items: Seq<IndexItem>,
    entries: Seq<Pf8EntryView>,
    contents: Seq<Seq<u8>>,
) -> bool {
    ||| w == before && answered::<H>(
        EventView::Started(OperationType::Pack),
        ControlAction::Abort,
    )
    ||| exists|k: int, n: int, event: EventView|
        {
            &&& #[trigger] pack_stopped_at(entries, k, n, event)
            &&& pack_cut(before, w, items, entries, contents, k, n)
            &&& answered::<H>(event, ControlAction::Abort)
            &&& pack_continued_before::<H>(entries, k, event is EntryFinished)
        }
}

/// What a pack operation with a handler of the type `H` gives, once the entries are
/// made.
///
/// It succeeds with the whole archive written if the writer is new, the archive fits,
/// and the handler answered `Continue` to the start and to the begin and the end of
/// every entry; the handler is then told of the end, and its answer to that is not
/// looked at. It fails with `InvalidFormat`, and writes nothing, if the handler
/// answered `Continue` to the start and the writer is not new or the archive does not
/// fit. It fails with `Cancelled` if the handler answered `Abort`. A handler that always
/// answers `Continue` never has it cancelled.
pub open spec fn handled_pack<H: ArchiveHandler>(
    before: WriterView,
    w: WriterView,
    items: Seq<IndexItem>,
    entries: Seq<Pf8EntryView>,
    contents: Seq<Seq<u8>>,
    res: Result<(), Error>,
) -> bool {
    &&& match res {
        Ok(()) => {
            &&& before.state == WriterState::Created
            &&& layout_fits(items)
            &&& w == (WriterView {
                state: WriterState::Finalized,
                pending: before.pending + (spec_header(items) + spec_payloads(
                    entries,
                    contents,
                    header_key(items),
                    entries.len() as int,
                )),
                position: (spec_header(items).len() + contents_len(
                    contents,
                    contents.len() as int,
                )) as u64,
                header: spec_header(items),
                key: Some(header_key(items)),
                buffer_size: before.buffer_size,
            })
            &&& pack_continued_before::<H>(entries, entries.len() as int, false)
            &&& told::<H>(EventView::Finished)
        },
        Err(Error::InvalidFormat(_)) => {
            &&& before.state != WriterState::Created || !layout_fits(items)
            &&& w == before
            &&& answered::<H>(EventView::Started(OperationType::Pack), ControlAction::Continue)
        },
        Err(Error::Cancelled) => cancelled_pack_by::<H>(before, w, items, entries, contents),
        Err(_) => false,
    }
    &&& always_continues::<H>() ==> !(res matches Err(Error::Cancelled))
}

/// The answers that brought a pack operation to the state `v` are `Continue` to all
/// that the handler was told before entry `v.index`.
proof fn lemma_pack_continued<H: ArchiveHandler>(
    v: OperationView,
    answer: ControlAction,
    entries: Seq<Pf8EntryView>,
    begun: bool,
)
    requires
        v.op == OperationType::Pack,
        v.names == entry_paths(entries),
        0 <= v.index <= entries.len(),
        heard::<H>(v, answer),
        v.phase != Phase::Created,
        v.phase != Phase::SentStarted,
        begun ==> entry_open(v.phase) && v.index < entries.len(),
    ensures
        pack_continued_before::<H>(entries, v.index, begun),
{
    assert forall|j: int| 0 <= j < v.index implies entry_heard::<H>(
        #[trigger] entries[j].path,
    ) by {
        assert(v.names[j] == entries[j].path);
    }
}

/// Whether the writer holds the header, the payloads of the first `k` entries and the
/// first `n` bytes of the payload of entry `k`.
pub open spec fn pack_cut(
    before: WriterView,
    w: WriterView,
    items: Seq<IndexItem>,
    entries: Seq<Pf8EntryView>,
    contents: Seq<Seq<u8>>,
    k: int,
    n: int,
) -> bool {
    let key = header_key(items);
    &&& 0 <= k < entries.len()
    &&& 0 <= n <= entries[k].size
    &&& before.state == WriterState::Created
    &&& layout_fits(items)
    &&& w.header == spec_header(items)
    &&& w.key == Some(key)
    &&& w.buffer_size == before.buffer_size
    &&& w.state == WriterState::HeaderWritten || w.state == WriterState::WritingData
    &&& w.pending == before.pending + spec_header(items) + spec_payloads(
        entries,
        contents,
        key,
        k,
    ) + stored_bytes(entries[k], contents[k].take(n), key, 0)
}

/// Runs a pack operation: writes the header, the payload of each entry chunk by chunk
/// from the source that stands at the same place, and the end. The events go to
/// `handler`, whose answers decide whether the operation goes on.
fn run_pack<H: ArchiveHandler>(
    writer: &mut Pf8Writer,
    entries: &[Pf8Entry],
    sources: &[&Vec<u8>],
    handler: &mut H,
) -> (res: Result<(), Error>)
    requires
        old(writer).wf(),
        entries@.len() == sources@.len(),
        0 < entries@.len() <= u32::MAX,
        forall|i: int| 0 <= i < entries@.len() ==> (#[trigger] entries@[i])@.size == sources@[i]@.len(),
        contents_len(borrowed_views(sources@), sources@.len() as int) <= u32::MAX,
    ensures
        final(writer).wf(),
        handled_pack::<H>(
            old(writer)@,
            final(writer)@,
            items_of(entries@),
            entry_views(entries@),
            borrowed_views(sources@),
            res,
        ),
{
    let ghost items = items_of(entries@);
    let ghost views = entry_views(entries@);
    let ghost contents = borrowed_views(sources@);
    let ghost key = header_key(items);
    let ghost before = writer@;
    let mut names: Vec<String> = Vec::new();
    let mut sizes: Vec<u32> = Vec::new();
    let mut k: usize = 0;
    while k < entries.len()
        invariant
            k <= entries.len(),
            names@.len() == k,
            sizes@.len() == k,
            forall|j: int| 0 <= j < k ==> #[trigger] sizes@[j] == entries@[j]@.size,
            forall|j: int| 0 <= j < k ==> (#[trigger] names@[j])@ == entries@[j]@.path,
        decreases entries.len() - k,
    {
        names.push(entries[k].path().to_owned());
        sizes.push(entries[k].size());
        k = k + 1;
    }
    proof {
        assert(names@.map_values(|s: String| s@) =~= entry_paths(views));
    }
    let mut op = Operation::new(OperationType::Pack, names, sizes, writer.buffer_size());
    let mut answer = ControlAction::Continue;
    loop
        invariant
            writer.wf(),
            op.wf(),
            op@.names == entry_paths(views),
            heard::<H>(op@, answer),
            entries@.len() == sources@.len(),
            items == items_of(entries@),
            views == entry_views(entries@),
            contents == borrowed_views(sources@),
            before == old(writer)@,
            pack_setting(op@, views, contents),
            pack_inv(op@, before, writer@, items, views, contents),
            always_continues::<H>() ==> answer == ControlAction::Continue,
        decreases entries_left(op@), bytes_left(op@), phase_rank(op@.phase),
    {
        let ghost v = op@;
        let ghost w = writer@;
        let ghost given = answer;
        proof {
            op.lemma_wf();
            lemma_next_advances(v, answer);
        }
        let step = op.next(answer);
        match step {
            Step::Notify(event) => {
                answer = handler.on_event(&event);
                proof {
                    assert(answered::<H>(event@, answer));
                    lemma_heard_next::<H>(v, given, answer);
                    lemma_pack_quiet(v, given, before, w, items, views, contents);
                }
            },
            Step::WriteHeader => {
                proof {
                    lemma_heard_next::<H>(v, answer, answer);
                }
                match writer.write_header(entries) {
                    Ok(()) => {},
                    Err(e) => {
                        return Err(e);
                    },
                }
                proof {
                    lemma_pack_header(v, before, writer@, items, views, contents);
                }
            },
            Step::OpenEntry { index } => {
                proof {
                    lemma_heard_next::<H>(v, answer, answer);
                    lemma_pack_quiet(v, ControlAction::Continue, before, w, items, views, contents);
                }
            },
            Step::Transfer { index, local_offset, len } => {
                proof {
                    lemma_heard_next::<H>(v, answer, answer);
                    lemma_pack_transfer(v, before, w, items, views, contents);
                    assert(contents[index as int] == sources@[index as int]@);
                    assert(views[index as int] == entries@[index as int]@);
                }
                let source = sources[index].as_slice();
                let chunk = &source[local_offset as usize..local_offset as usize + len];
                let res = writer.write_file_chunk(&entries[index], local_offset as u64, chunk);
                assert(res is Ok);
                proof {
                    assert(chunk@ =~= contents[v.index].subrange(v.done, op@.done));
                }
            },
            Step::Finalize => {
                let res = writer.finalize();
                assert(res is Ok);
                proof {
                    lemma_heard_next::<H>(v, answer, answer);
                    assert(contents[v.index].take(v.done) =~= contents[v.index]);
                    assert(packed_so_far(op@, views, contents, header_key(items)) =~= packed_so_far(
                        v,
                        views,
                        contents,
                        header_key(items),
                    ));
                }
            },
            Step::Finish => {
                proof {
                    lemma_pack_finish(v, before, w, items, views, contents);
                    lemma_pack_continued::<H>(v, answer, views, false);
                    assert(answered::<H>(EventView::Finished, answer));
                }
                return Ok(());
            },
            Step::Cancel => {
                proof {
                    lemma_heard_cancel::<H>(v, answer);
                    if v.phase != Phase::SentStarted {
                        lemma_pack_continued::<H>(
                            v,
                            answer,
                            views,
                            v.phase == Phase::SentEntryFinished,
                        );
                        assert(pack_stopped_at(views, v.index, v.done, event_told(v)->0));
                        assert(w.pending =~= before.pending + spec_header(items) + spec_payloads(
                            views,
                            contents,
                            header_key(items),
                            v.index,
                        ) + stored_bytes(
                            views[v.index],
                            contents[v.index].take(v.done),
                            header_key(items),
                            0,
                        ));
                        assert(pack_cut(before, w, items, views, contents, v.index, v.done));
                    }
                }
                return Err(Error::Cancelled);
            },
        }
    }
}

/// What a pack operation and the entries it packs have in common: the operation knows
/// the size of each entry, which is the length of its content, and all contents
/// together take less than 2^32 bytes.
pub open spec fn pack_setting(
    v: OperationView,
    entries: Seq<Pf8EntryView>,
    contents: Seq<Seq<u8>>,
) -> bool {
    &&& v.op == OperationType::Pack
    &&& 0 < entries.len()
    &&& v.sizes.len() == entries.len()
    &&& contents.len() == entries.len()
    &&& forall|j: int| 0 <= j < entries.len() ==> #[trigger] v.sizes[j] == entries[j].size
    &&& forall|j: int| 0 <= j < entries.len() ==> (#[trigger] entries[j]).size == contents[j].len()
    &&& contents_len(contents, contents.len() as int) <= u32::MAX
}

/// A step that writes nothing leaves the writer as the next state wants it.
proof fn lemma_pack_quiet(
    v: OperationView,
    answer: ControlAction,
    before: WriterView,
    w: WriterView,
    items: Seq<IndexItem>,
    entries: Seq<Pf8EntryView>,
    contents: Seq<Seq<u8>>,
)
    requires
        spec_wf(v),
        pack_setting(v, entries, contents),
        pack_inv(v, before, w, items, entries, contents),
        spec_next(v, answer).1 is Notify || spec_next(v, answer).1 is OpenEntry,
    ensures
        pack_inv(spec_next(v, answer).0, before, w, items, entries, contents),
{
    let key = header_key(items);
    let next = spec_next(v, answer).0;
    if v.phase == Phase::SentTransfer {
        assert(contents[v.index].take(v.done) =~= contents[v.index]);
        assert(packed_so_far(next, entries, contents, key) =~= packed_so_far(
            v,
            entries,
            contents,
            key,
        ));
    } else if v.phase == Phase::SentEntryFinished {
        assert(contents[v.index].take(v.done) =~= contents[v.index]);
        if v.index + 1 < entries.len() {
            assert(contents[v.index + 1].take(0) =~= Seq::<u8>::empty());
        }
        assert(packed_so_far(next, entries, contents, key) =~= packed_so_far(
            v,
            entries,
            contents,
            key,
        ));
    } else if v.phase == Phase::SentHeader {
        assert(contents[0].take(0) =~= Seq::<u8>::empty());
        assert(packed_so_far(next, entries, contents, key) =~= packed_so_far(
            v,
            entries,
            contents,
            key,
        ));
    } else if v.phase == Phase::SentEntryStarted {
        assert(packed_so_far(next, entries, contents, key) =~= packed_so_far(
            v,
            entries,
            contents,
            key,
        ));
    }
}

/// The header is written: the writer is as the state behind `WriteHeader` wants it.
proof fn lemma_pack_header(
    v: OperationView,
    before: WriterView,
    w: WriterView,
    items: Seq<IndexItem>,
    entries: Seq<Pf8EntryView>,
    contents: Seq<Seq<u8>>,
)
    requires
        spec_wf(v),
        pack_setting(v, entries, contents),
        v.phase == Phase::SentStarted,
        before.state == WriterState::Created,
        layout_fits(items),
        w == (WriterView {
            state: WriterState::HeaderWritten,
            pending: before.pending + spec_header(items),
            position: spec_header(items).len() as u64,
            header: spec_header(items),
            key: Some(header_key(items)),
            buffer_size: before.buffer_size,
        }),
    ensures
        pack_inv(
            spec_next(v, ControlAction::Continue).0,
            before,
            w,
            items,
            entries,
            contents,
        ),
{
    lemma_header_len(items);
    lemma_sizes_nonnegative(items);
    let next = spec_next(v, ControlAction::Continue).0;
    assert(w.pending =~= before.pending + spec_header(items) + packed_so_far(
        next,
        entries,
        contents,
        header_key(items),
    ));
}

/// Before a chunk is written the writer is ready for it, and the bytes that the chunk
/// adds are those that the state behind the transfer wants.
proof fn lemma_pack_transfer(
    v: OperationView,
    before: WriterView,
    w: WriterView,
    items: Seq<IndexItem>,
    entries: Seq<Pf8EntryView>,
    contents: Seq<Seq<u8>>,
)
    requires
        spec_wf(v),
        pack_setting(v, entries, contents),
        pack_inv(v, before, w, items, entries, contents),
        spec_next(v, ControlAction::Continue).1 is Transfer,
    ensures
        ({
            let next = spec_next(v, ControlAction::Continue).0;
            let chunk = contents[v.index].subrange(v.done, next.done);
            let key = header_key(items);
            &&& 0 <= v.index < entries.len()
            &&& 0 <= v.done <= next.done <= entries[v.index].size
            &&& w.state == WriterState::HeaderWritten || w.state == WriterState::WritingData
            &&& w.key == Some(key)
            &&& w.position + (next.done - v.done) <= u64::MAX
            &&& pack_inv(
                next,
                before,
                WriterView {
                    state: WriterState::WritingData,
                    pending: w.pending + stored_bytes(entries[v.index], chunk, key, v.done),
                    position: (w.position + (next.done - v.done)) as u64,
                    ..w
                },
                items,
                entries,
                contents,
            )
        }),
{
    let next = spec_next(v, ControlAction::Continue).0;
    let key = header_key(items);
    let content = contents[v.index];
    let chunk = content.subrange(v.done, next.done);
    lemma_header_len(items);
    lemma_sizes_nonnegative(items);
    lemma_contents_len(contents, v.index, contents.len() as int);
    lemma_contents_len(contents, v.index + 1, contents.len() as int);
    assert(content.take(next.done) =~= content.take(v.done) + chunk);
    lemma_xor_split(content.take(v.done), chunk, key, 0);
    assert(w.pending + stored_bytes(entries[v.index], chunk, key, v.done) =~= before.pending
        + spec_header(items) + packed_so_far(next, entries, contents, key));
}

/// At the end the writer holds the whole archive.
proof fn lemma_pack_finish(
    v: OperationView,
    before: WriterView,
    w: WriterView,
    items: Seq<IndexItem>,
    entries: Seq<Pf8EntryView>,
    contents: Seq<Seq<u8>>,
)
    requires
        spec_wf(v),
        pack_setting(v, entries, contents),
        pack_inv(v, before, w, items, entries, contents),
        v.phase == Phase::SentFinished,
    ensures
        w.pending == before.pending + (spec_header(items) + spec_payloads(
            entries,
            contents,
            header_key(items),
            entries.len() as int,
        )),
        w.position == spec_header(items).len() + contents_len(contents, contents.len() as int),
{
    assert(w.pending =~= before.pending + (spec_header(items) + spec_payloads(
        entries,
        contents,
        header_key(items),
        entries.len() as int,
    )));
}

/// The lengths of the sources.
fn source_sizes(sources: &[Vec<u8>]) -> (sizes: Vec<u64>)
    ensures
        sizes@ == sizes_of(content_views(sources@)),
{
    let mut sizes: Vec<u64> = Vec::new();
    let mut k: usize = 0;
    while k < sources.len()
        invariant
            k <= sources.len(),
            sizes@.len() == k,
            forall|j: int| 0 <= j < k ==> #[trigger] sizes@[j] == sources@[j]@.len(),
        decreases sources.len() - k,
    {
        sizes.push(sources[k].len() as u64);
        k = k + 1;
    }
    assert(sizes@ =~= sizes_of(content_views(sources@)));
    sizes
}

/// The sources in the order in which they are written.
fn arrange<'a>(sources: &'a [Vec<u8>], order: &[usize]) -> (ordered: Vec<&'a Vec<u8>>)
    requires
        forall|i: int| 0 <= i < order@.len() ==> (#[trigger] order@[i]) < sources@.len(),
    ensures
        ordered@.len() == order@.len(),
        forall|j: int| 0 <= j < order@.len() ==> *(#[trigger] ordered@[j]) == sources@[order@[j] as int],
        borrowed_views(ordered@) == in_order(content_views(sources@), order@),
{
    let mut ordered: Vec<&Vec<u8>> = Vec::new();
    let mut i: usize = 0;
    while i < order.len()
        invariant
            i <= order.len(),
            ordered@.len() == i,
            forall|j: int| 0 <= j < order@.len() ==> (#[trigger] order@[j]) < sources@.len(),
            forall|j: int| 0 <= j < i ==> *(#[trigger] ordered@[j]) == sources@[order@[j] as int],
        decreases order.len() - i,
    {
        ordered.push(&sources[order[i]]);
        i = i + 1;
    }
    assert(borrowed_views(ordered@) =~= in_order(content_views(sources@), order@));
    ordered
}

/// The contents of a list of borrowed sources.
pub open spec fn borrowed_views(sources: Seq<&Vec<u8>>) -> Seq<Seq<u8>> {
    sources.map_values(|s: &Vec<u8>| s@)
}

/// Writes an archive of the entries: the header, the payload of each entry from the
/// source that stands at the same place, and the end.
fn write_entries(writer: &mut Pf8Writer, entries: &[Pf8Entry], sources: &[&Vec<u8>]) -> (res:
    Result<(), Error>)
    requires
        old(writer).wf(),
        entries@.len() == sources@.len(),
        forall|i: int| 0 <= i < entries@.len() ==> (#[trigger] entries@[i])@.size == sources@[i]@.len(),
        contents_len(borrowed_views(sources@), sources@.len() as int) <= u32::MAX,
    ensures
        final(writer).wf(),
        match res {
            Ok(()) => {
                &&& old(writer)@.state == WriterState::Created
                &&& layout_fits(items_of(entries@))
                &&& final(writer)@ == (WriterView {
                    state: WriterState::Finalized,
                    pending: old(writer)@.pending + (spec_header(items_of(entries@))
                        + spec_payloads(
                        entry_views(entries@),
                        borrowed_views(sources@),
                        header_key(items_of(entries@)),
                        entries@.len() as int,
                    )),
                    position: (spec_header(items_of(entries@)).len() + contents_len(
                        borrowed_views(sources@),
                        sources@.len() as int,
                    )) as u64,
                    header: spec_header(items_of(entries@)),
                    key: Some(header_key(items_of(entries@))),
                    buffer_size: old(writer)@.buffer_size,
                })
            },
            Err(Error::InvalidFormat(_)) => {
                &&& old(writer)@.state != WriterState::Created || !layout_fits(items_of(entries@))
                &&& final(writer)@ == old(writer)@
            },
            Err(_) => false,
        },
{
    let ghost items = items_of(entries@);
    let ghost before = writer@;
    match writer.write_header(entries) {
        Ok(()) => {},
        Err(e) => {
            return Err(e);
        },
    }
    let ghost with_header = writer@;
    proof {
        lemma_header_len(items);
        lemma_sizes_nonnegative(items);
        assert(with_header.state == WriterState::HeaderWritten);
        assert(with_header.position <= u32::MAX);
    }
    write_payloads(writer, entries, sources);
    let ghost with_payloads = writer@;
    let res = writer.finalize();
    proof {
        let payloads = spec_payloads(
            entry_views(entries@),
            borrowed_views(sources@),
            header_key(items),
            entries@.len() as int,
        );
        assert(before.pending + spec_header(items) + payloads =~= before.pending + (spec_header(
            items,
        ) + payloads));
    }
    res
}

/// Writes the payloads of the entries, each from the source that stands at the same
/// place.
fn write_payloads(writer: &mut Pf8Writer, entries: &[Pf8Entry], sources: &[&Vec<u8>])
    requires
        old(writer).wf(),
        old(writer)@.state == WriterState::HeaderWritten,
        entries@.len() == sources@.len(),
        forall|i: int| 0 <= i < entries@.len() ==> (#[trigger] entries@[i])@.size == sources@[i]@.len(),
        old(writer)@.position + contents_len(borrowed_views(sources@), sources@.len() as int)
            <= u64::MAX,
    ensures
        final(writer).wf(),
        final(writer)@ == (WriterView {
            state: if entries@.len() == 0 {
                WriterState::HeaderWritten
            } else {
                WriterState::WritingData
            },
            pending: old(writer)@.pending + spec_payloads(
                entry_views(entries@),
                borrowed_views(sources@),
                old(writer)@.key->0,
                entries@.len() as int,
            ),
            position: (old(writer)@.position + contents_len(
                borrowed_views(sources@),
                sources@.len() as int,
            )) as u64,
            ..old(writer)@
        }),
{
    let ghost key = old(writer)@.key->0;
    let ghost contents = borrowed_views(sources@);
    let ghost views = entry_views(entries@);
    let n = entries.len();
    let mut i: usize = 0;
    proof {
        assert(old(writer)@.pending + Seq::<u8>::empty() =~= old(writer)@.pending);
    }
    while i < n
        invariant
            i <= n,
            n == entries@.len(),
            n == sources@.len(),
            writer.wf(),
            contents == borrowed_views(sources@),
            views == entry_views(entries@),
            old(writer)@.key == Some(key),
            old(writer)@.state == WriterState::HeaderWritten,
            forall|j: int|
                0 <= j < entries@.len() ==> (#[trigger] entries@[j])@.size == sources@[j]@.len(),
            old(writer)@.position + contents_len(contents, n as int) <= u64::MAX,
            writer@ == (WriterView {
                state: if i == 0 {
                    WriterState::HeaderWritten
                } else {
                    WriterState::WritingData
                },
                pending: old(writer)@.pending + spec_payloads(views, contents, key, i as int),
                position: (old(writer)@.position + contents_len(contents, i as int)) as u64,
                ..old(writer)@
            }),
        decreases n - i,
    {
        proof {
            lemma_contents_len(contents, i + 1, n as int);
            lemma_contents_len(contents, i as int, n as int);
            assert(contents_len(contents, i + 1) == contents_len(contents, i as int)
                + contents[i as int].len());
            assert(contents[i as int] == sources@[i as int]@);
            assert(views[i as int] == entries@[i as int]@);
            assert(sources@[i as int]@.take(entries@[i as int]@.size as int)
                =~= contents[i as int]);
        }
        let res = writer.write_file_data(&entries[i], sources[i].as_slice());
        assert(res is Ok);
        proof {
            assert(writer@.pending =~= old(writer)@.pending + spec_payloads(
                views,
                contents,
                key,
                i + 1,
            ));
        }
        i = i + 1;
    }
}

/// The lengths of a part of the contents add up to no more than those of all.
pub proof fn lemma_contents_len(contents: Seq<Seq<u8>>, k: int, n: int)
    requires
        0 <= k <= n,
    ensures
        0 <= contents_len(contents, k) <= contents_len(contents, n),
    decreases n,
{
    if k < n {
        lemma_contents_len(contents, k, n - 1);
    } else if k > 0 {
        lemma_contents_len(contents, k - 1, k - 1);
    }
}

/// The entries that are made have the sizes of their files, whose contents take as many
/// bytes as the sizes say.
pub proof fn lemma_entries_built(b: BuilderView, contents: Seq<Seq<u8>>, views: Seq<Pf8EntryView>)
    requires
        contents.len() == b.files.len(),
        forall|i: int| 0 <= i < contents.len() ==> (#[trigger] contents[i]).len() <= u64::MAX,
        sizes_fit(b, sizes_of(contents)),
        views == spec_built(b, sizes_of(contents)),
        is_sorted_order(archive_paths(b.files), spec_sorted_order(archive_paths(b.files))),
    ensures
        views.len() == b.files.len(),
        views.map_values(|e: Pf8EntryView| item_of(e)) == spec_items(b, contents),
        forall|i: int|
            0 <= i < b.files.len() ==> (#[trigger] views[i]).size
                == contents[spec_sorted_order(archive_paths(b.files))[i] as int].len(),
        contents_len(
            in_order(contents, spec_sorted_order(archive_paths(b.files))),
            b.files.len() as int,
        ) <= u32::MAX,
{
    let order = spec_sorted_order(archive_paths(b.files));
    let sizes = sizes_of(contents);
    let ordered = in_order(contents, order);
    lemma_built_sizes(b, sizes);
    assert forall|i: int| 0 <= i < order.len() implies (#[trigger] ordered[i]).len()
        == sizes[order[i] as int] by {
        assert(order[i] < contents.len());
        assert(sizes[order[i] as int] == contents[order[i] as int].len() as u64);
    }
    lemma_sizes_in_order(sizes, order, ordered, order.len() as int);
}

/// Each entry that is made has the size of its file.
pub proof fn lemma_built_sizes(b: BuilderView, sizes: Seq<u64>)
    requires
        sizes_fit(b, sizes),
    ensures
        spec_built(b, sizes).len() == b.files.len(),
        forall|i: int|
            0 <= i < b.files.len() ==> (#[trigger] spec_built(b, sizes)[i]).size
                == sizes[spec_sorted_order(archive_paths(b.files))[i] as int],
{
    let order = spec_sorted_order(archive_paths(b.files));
    assert forall|i: int| 0 <= i < b.files.len() implies (#[trigger] spec_built(b, sizes)[i]).size
        == sizes[order[i] as int] by {
        lemma_ordered_total(sizes, order, i + 1, b.files.len() as int);
        lemma_ordered_total(sizes, order, i, i + 1);
    }
}

/// The contents of a list of sources.
pub open spec fn content_views(sources: Seq<Vec<u8>>) -> Seq<Seq<u8>> {
    sources.map_values(|s: Vec<u8>| s@)
}

/// The sizes of a list of contents.
pub open spec fn sizes_of(contents: Seq<Seq<u8>>) -> Seq<u64> {
    contents.map_values(|c: Seq<u8>| c.len() as u64)
}

/// The contents in the order in which they are written.
pub open spec fn in_order(contents: Seq<Seq<u8>>, order: Seq<usize>) -> Seq<Seq<u8>> {
    Seq::new(order.len(), |i: int| contents[order[i] as int])
}

/// The sizes of the first `k` files of the order, added up.
pub open spec fn ordered_total(sizes: Seq<u64>, order: Seq<usize>, k: int) -> int
    decreases k,
{
    if k <= 0 {
        0
    } else {
        ordered_total(sizes, order, k - 1) + sizes[order[k - 1] as int]
    }
}

/// Whether entries can be made from the sizes: there is one size for each file, and the
/// sizes add up to less than 2^32.
pub open spec fn sizes_fit(b: BuilderView, sizes: Seq<u64>) -> bool {
    &&& sizes.len() == b.files.len()
    &&& ordered_total(
        sizes,
        spec_sorted_order(archive_paths(b.files)),
        b.files.len() as int,
    ) <= u32::MAX
}

/// The entry that is made for a file: its name is the archive path with backslashes,
/// and it is encrypted unless a pattern matches the name.
pub open spec fn spec_entry_for(
    archive_path: Seq<char>,
    offset: u32,
    size: u32,
    patterns: Seq<Seq<char>>,
) -> Pf8EntryView {
    Pf8EntryView {
        name: spec_pathbuf_to_pf8_path(archive_path),
        offset,
        size,
        path: archive_path,
        encrypted: !spec_matches_any(spec_pathbuf_to_pf8_path(archive_path), patterns),
    }
}

/// The entries of the archive in the order in which they are written. Each holds as its
/// offset the sizes of the entries before it, added up.
pub open spec fn spec_built(b: BuilderView, sizes: Seq<u64>) -> Seq<Pf8EntryView> {
    let order = spec_sorted_order(archive_paths(b.files));
    Seq::new(
        b.files.len(),
        |i: int|
            spec_entry_for(
                b.files[order[i] as int].1,
                ordered_total(sizes, order, i) as u32,
                sizes[order[i] as int] as u32,
                effective_patterns(b.patterns),
            ),
    )
}

/// The index items of the archive that is made from the files and their contents.
pub open spec fn spec_items(b: BuilderView, contents: Seq<Seq<u8>>) -> Seq<IndexItem> {
    spec_built(b, sizes_of(contents)).map_values(|e: Pf8EntryView| item_of(e))
}

/// The stored payloads of the first `k` entries, one behind the other. Each is masked
/// from the start of the key if its entry is encrypted.
pub open spec fn spec_payloads(
    entries: Seq<Pf8EntryView>,
    contents: Seq<Seq<u8>>,
    key: Seq<u8>,
    k: int,
) -> Seq<u8>
    decreases k,
{
    if k <= 0 {
        Seq::empty()
    } else {
        spec_payloads(entries, contents, key, k - 1) + stored_bytes(
            entries[k - 1],
            contents[k - 1],
            key,
            0,
        )
    }
}

/// Whether an archive can be made: there is a file, a content for each file, and the
/// archive fits into 32 bits.
pub open spec fn packable(b: BuilderView, contents: Seq<Seq<u8>>) -> bool {
    &&& b.files.len() > 0
    &&& contents.len() == b.files.len()
    &&& forall|i: int| 0 <= i < contents.len() ==> (#[trigger] contents[i]).len() <= u64::MAX
    &&& sizes_fit(b, sizes_of(contents))
    &&& layout_fits(spec_items(b, contents))
}

/// The bytes of the archive that is made from the files and their contents: the header,
/// then the payloads in the order of the archive paths.
pub open spec fn spec_archive(b: BuilderView, contents: Seq<Seq<u8>>) -> Seq<u8> {
    let items = spec_items(b, contents);
    let order = spec_sorted_order(archive_paths(b.files));
    spec_header(items) + spec_payloads(
        spec_built(b, sizes_of(contents)),
        in_order(contents, order),
        header_key(items),
        b.files.len() as int,
    )
}

/// The sizes of a part of the files add up to no more than those of all.
pub proof fn lemma_ordered_total(sizes: Seq<u64>, order: Seq<usize>, k: int, n: int)
    requires
        0 <= k <= n,
    ensures
        0 <= ordered_total(sizes, order, k) <= ordered_total(sizes, order, n),
    decreases n - k,
{
    if k < n {
        lemma_ordered_total(sizes, order, k + 1, n);
        lemma_ordered_total_nonnegative(sizes, order, k);
    } else {
        lemma_ordered_total_nonnegative(sizes, order, k);
    }
}

proof fn lemma_ordered_total_nonnegative(sizes: Seq<u64>, order: Seq<usize>, k: int)
    ensures
        0 <= ordered_total(sizes, order, k),
    decreases k,
{
    if k > 0 {
        lemma_ordered_total_nonnegative(sizes, order, k - 1);
    }
}

/// The payloads take as many bytes as the contents have.
pub proof fn lemma_payloads_len(
    entries: Seq<Pf8EntryView>,
    contents: Seq<Seq<u8>>,
    key: Seq<u8>,
    k: int,
)
    ensures
        spec_payloads(entries, contents, key, k).len() == contents_len(contents, k),
    decreases k,
{
    if k > 0 {
        lemma_payloads_len(entries, contents, key, k - 1);
    }
}

/// The lengths of the first `k` contents, added up.
pub open spec fn contents_len(contents: Seq<Seq<u8>>, k: int) -> int
    decreases k,
{
    if k <= 0 {
        0
    } else {
        contents_len(contents, k - 1) + contents[k - 1].len()
    }
}

proof fn lemma_sizes_in_order(sizes: Seq<u64>, order: Seq<usize>, ordered: Seq<Seq<u8>>, k: int)
    requires
        0 <= k <= order.len(),
        ordered.len() == order.len(),
        forall|i: int| 0 <= i < order.len() ==> (#[trigger] ordered[i]).len() == sizes[order[i] as int],
    ensures
        contents_len(ordered, k) == ordered_total(sizes, order, k),
    decreases k,
{
    if k > 0 {
        lemma_sizes_in_order(sizes, order, ordered, k - 1);
    }
}

/// What `add_dir` and `add_dir_as` do. A directory that is missing is an `Io` error,
/// anything but a directory an `InvalidFormat` error, and neither adds a file. The files
/// are added one by one; the first that does not lie below the directory ends the call
/// with an `InvalidFormat` error, and those before it stay added.
pub open spec fn dir_added(
    before: BuilderView,
    after: BuilderView,
    dir: Seq<char>,
    prefix: Option<Seq<char>>,
    kind: PathKind,
    files: Seq<Seq<char>>,
    res: Result<(), Error>,
) -> bool {
    let n = first_outside(dir, files);
    match res {
        Ok(()) => {
            &&& kind == PathKind::Directory
            &&& n == files.len()
            &&& after == (BuilderView {
                files: before.files + spec_dir_pairs(dir, prefix, files, n),
                ..before
            })
        },
        Err(Error::Io(_)) => kind == PathKind::Missing && after == before,
        Err(Error::InvalidFormat(_)) => {
            &&& kind != PathKind::Missing
            &&& if kind == PathKind::Directory {
                &&& n < files.len()
                &&& after == (BuilderView {
                    files: before.files + spec_dir_pairs(dir, prefix, files, n),
                    ..before
                })
            } else {
                after == before
            }
        },
        Err(_) => false,
    }
}

} // verus!
