//! The archive as a whole: a reader with the operations that are wanted most, and
//! functions that extract or build an archive in one call.

use vstd::prelude::*;
use crate::builder::{
    content_views,
    first_outside,
    packable,
    spec_archive,
    spec_dir_pairs,
    BuilderView,
    PathKind,
    Pf8Builder,
};
use crate::callbacks::ArchiveHandler;
use crate::entry::payload_in_bounds;
use crate::error::Error;
use crate::extract::{
    handled_extraction,
    extracted_views,
    first_out_of_bounds,
    spec_extracted,
    spec_output_paths,
    ExtractedFile,
    ExtractedView,
};
use crate::reader::{
    can_open,
    opened,
    spec_entry_content,
    spec_lookup,
    spec_reader,
    Pf8Reader,
    ReaderView,
};
use crate::text::string_views;
use crate::utils::pattern_views;

verus! {

/// An archive that is open for reading.
pub struct Pf8Archive<'a> {
    reader: Pf8Reader<'a>,
}

impl<'a> View for Pf8Archive<'a> {
    type V = ReaderView;

    closed spec fn view(&self) -> ReaderView {
        self.reader@
    }
}

impl<'a> Pf8Archive<'a> {
    /// Opens an archive with the default patterns for unencrypted entries.
    pub fn open(data: &'a [u8]) -> (res: Result<Self, Error>)
        ensures
            opened(
                data@,
                seq!["mp4"@, "flv"@],
                match res {
                    Ok(a) => Ok(a@),
                    Err(e) => Err(e),
                },
            ),
    {
        match Pf8Reader::open(data) {
            Ok(reader) => Ok(Pf8Archive { reader }),
            Err(e) => Err(e),
        }
    }

    /// Opens an archive with the given patterns for unencrypted entries.
    pub fn open_with_patterns(data: &'a [u8], unencrypted_patterns: &[&str]) -> (res: Result<
        Self,
        Error,
    >)
        ensures
            opened(
                data@,
                pattern_views(unencrypted_patterns@),
                match res {
                    Ok(a) => Ok(a@),
                    Err(e) => Err(e),
                },
            ),
    {
        match Pf8Reader::open_with_unencrypted_patterns(data, unencrypted_patterns) {
            Ok(reader) => Ok(Pf8Archive { reader }),
            Err(e) => Err(e),
        }
    }

    /// Makes a builder for a new archive.
    pub fn builder() -> (b: Pf8Builder)
        ensures
            b@ == (BuilderView { files: Seq::empty(), base_path: None, patterns: Seq::empty() }),
    {
        Pf8Builder::new()
    }

    /// The reader of the archive.
    pub fn reader(&self) -> (r: &Pf8Reader<'a>)
        ensures
            r@ == self@,
    {
        &self.reader
    }

    /// Extracts the entry with the given path to a file at `output_path` and appends
    /// the file to `output`.
    pub fn extract_file(
        &self,
        archive_path: &str,
        output_path: &str,
        output: &mut Vec<ExtractedFile>,
    ) -> (res: Result<(), Error>)
        ensures
            match res {
                Ok(()) => spec_lookup(self@.entries, archive_path@) is Some && {
                    let e = self@.entries[spec_lookup(self@.entries, archive_path@)->0];
                    &&& payload_in_bounds(e, self@.data.len() as int)
                    &&& extracted_views(final(output)@) == extracted_views(old(output)@).push(
                        ExtractedView { path: output_path@, data: spec_entry_content(self@, e) },
                    )
                },
                Err(Error::FileNotFound(_)) => spec_lookup(self@.entries, archive_path@) is None
                    && extracted_views(final(output)@) == extracted_views(old(output)@),
                Err(Error::Corrupted(_)) => spec_lookup(self@.entries, archive_path@) is Some
                    && !payload_in_bounds(
                    self@.entries[spec_lookup(self@.entries, archive_path@)->0],
                    self@.data.len() as int,
                ) && extracted_views(final(output)@) == extracted_views(old(output)@),
                Err(_) => false,
            },
    {
        match self.reader.read_file(archive_path) {
            Ok(data) => {
                let ghost before = extracted_views(output@);
                output.push(ExtractedFile { path: output_path.to_owned(), data });
                assert(extracted_views(output@) =~= before.push(output@.last()@));
                Ok(())
            },
            Err(e) => Err(e),
        }
    }

    /// Extracts the entry with the given path as [`Self::extract_file`] does and tells
    /// `handler` of every step.
    pub fn extract_file_with_progress<H: ArchiveHandler>(
        &self,
        archive_path: &str,
        output_path: &str,
        output: &mut Vec<ExtractedFile>,
        handler: &mut H,
    ) -> (res: Result<(), Error>)
        ensures
            forall|j: int|
                0 <= j < old(output)@.len() ==> #[trigger] extracted_views(final(output)@)[j]
                    == extracted_views(old(output)@)[j],
            match res {
                Ok(()) => spec_lookup(self@.entries, archive_path@) is Some && {
                    let e = self@.entries[spec_lookup(self@.entries, archive_path@)->0];
                    &&& payload_in_bounds(e, self@.data.len() as int)
                    &&& extracted_views(final(output)@) == extracted_views(old(output)@).push(
                        ExtractedView { path: output_path@, data: spec_entry_content(self@, e) },
                    )
                },
                Err(Error::FileNotFound(_)) => spec_lookup(self@.entries, archive_path@) is None
                    && extracted_views(final(output)@) == extracted_views(old(output)@),
                Err(Error::Cancelled) => spec_lookup(self@.entries, archive_path@) is Some,
                Err(Error::Corrupted(_)) => spec_lookup(self@.entries, archive_path@) is Some && {
                    &&& !payload_in_bounds(
                        self@.entries[spec_lookup(self@.entries, archive_path@)->0],
                        self@.data.len() as int,
                    )
                    &&& extracted_views(final(output)@) == extracted_views(old(output)@).push(
                        ExtractedView { path: output_path@, data: Seq::empty() },
                    )
                },
                Err(_) => false,
            },
            spec_lookup(self@.entries, archive_path@) is Some ==> handled_extraction::<H>(
                extracted_views(old(output)@),
                extracted_views(final(output)@),
                self@,
                seq![self@.entries[spec_lookup(self@.entries, archive_path@)->0]],
                seq![output_path@],
                res,
            ),
    {
        self.reader.extract_file_with_progress(archive_path, output_path, output, handler)
    }
}

/// What the extraction of a whole archive gives: an error of `open`, or the files of
/// the entries up to the first whose payload does not lie inside the archive, and a
/// `Corrupted` error if there is such an entry.
pub open spec fn extracted(
    data: Seq<u8>,
    patterns: Seq<Seq<char>>,
    output_dir: Seq<char>,
    before: Seq<ExtractedView>,
    after: Seq<ExtractedView>,
    res: Result<(), Error>,
) -> bool {
    if can_open(data) {
        let r = spec_reader(data, patterns);
        let n = first_out_of_bounds(r, r.entries, 0);
        &&& after == before + spec_extracted(
            r,
            r.entries,
            spec_output_paths(output_dir, r.entries),
            n,
        )
        &&& match res {
            Ok(()) => n == r.entries.len(),
            Err(Error::Corrupted(_)) => n < r.entries.len(),
            Err(_) => false,
        }
    } else {
        &&& after == before
        &&& res matches Err(e) && opened(data, patterns, Err(e))
    }
}

/// Extracts all entries of an archive to files below `output_dir` and appends the files
/// to `output`. Entries are classified with the default patterns.
pub fn extract(archive_data: &[u8], output_dir: &str, output: &mut Vec<ExtractedFile>) -> (res:
    Result<(), Error>)
    ensures
        extracted(
            archive_data@,
            seq!["mp4"@, "flv"@],
            output_dir@,
            extracted_views(old(output)@),
            extracted_views(final(output)@),
            res,
        ),
{
    match Pf8Archive::open(archive_data) {
        Ok(archive) => archive.reader.extract_all(output_dir, output),
        Err(e) => Err(e),
    }
}

/// Extracts all entries of an archive as [`extract`] does, with the given patterns for
/// unencrypted entries.
pub fn extract_with_patterns(
    archive_data: &[u8],
    output_dir: &str,
    unencrypted_patterns: &[&str],
    output: &mut Vec<ExtractedFile>,
) -> (res: Result<(), Error>)
    ensures
        extracted(
            archive_data@,
            pattern_views(unencrypted_patterns@),
            output_dir@,
            extracted_views(old(output)@),
            extracted_views(final(output)@),
            res,
        ),
{
    match Pf8Archive::open_with_patterns(archive_data, unencrypted_patterns) {
        Ok(archive) => archive.reader.extract_all(output_dir, output),
        Err(e) => Err(e),
    }
}

/// What the extraction of a whole archive with a handler of the type `H` gives: an
/// error of `open`, with nothing extracted and the handler told of nothing; or what an
/// extraction of the entries of the archive with the handler gives.
pub open spec fn extracted_with_handler<H: ArchiveHandler>(
    data: Seq<u8>,
    patterns: Seq<Seq<char>>,
    output_dir: Seq<char>,
    before: Seq<ExtractedView>,
    after: Seq<ExtractedView>,
    res: Result<(), Error>,
) -> bool {
    if can_open(data) {
        let r = spec_reader(data, patterns);
        handled_extraction::<H>(
            before,
            after,
            r,
            r.entries,
            spec_output_paths(output_dir, r.entries),
            res,
        )
    } else {
        &&& after == before
        &&& res matches Err(e) && opened(data, patterns, Err(e))
    }
}

/// Extracts all entries of an archive as [`extract`] does and tells `handler` of every
/// step. An answer of `Abort` ends the extraction with the error `Cancelled`; the files
/// that are extracted by then stay in `output`.
pub fn extract_with_progress<H: ArchiveHandler>(
    archive_data: &[u8],
    output_dir: &str,
    output: &mut Vec<ExtractedFile>,
    handler: &mut H,
) -> (res: Result<(), Error>)
    ensures
        forall|j: int|
            0 <= j < old(output)@.len() ==> #[trigger] extracted_views(final(output)@)[j]
                == extracted_views(old(output)@)[j],
        extracted_with_handler::<H>(
            archive_data@,
            seq!["mp4"@, "flv"@],
            output_dir@,
            extracted_views(old(output)@),
            extracted_views(final(output)@),
            res,
        ),
{
    match Pf8Archive::open(archive_data) {
        Ok(archive) => archive.reader.extract_all_with_progress(output_dir, output, handler),
        Err(e) => Err(e),
    }
}

/// What `create_from_dir` makes of a directory whose regular files are `files`, with
/// the contents `contents`: the archive of the files under their paths below the
/// directory.
pub open spec fn dir_builder(dir: Seq<char>, files: Seq<Seq<char>>, patterns: Seq<Seq<char>>) -> BuilderView {
    BuilderView {
        files: spec_dir_pairs(dir, None, files, files.len() as int),
        base_path: None,
        patterns,
    }
}

/// Whether `create_from_dir` succeeds: there is a directory, its files lie below it,
/// and an archive can be made of them.
pub open spec fn dir_packable(
    dir: Seq<char>,
    kind: PathKind,
    files: Seq<Seq<char>>,
    contents: Seq<Seq<u8>>,
    patterns: Seq<Seq<char>>,
) -> bool {
    &&& kind == PathKind::Directory
    &&& first_outside(dir, files) == files.len()
    &&& packable(dir_builder(dir, files, patterns), contents)
}

/// Builds an archive of the regular files of a directory, which the caller has walked:
/// `files` are their paths, `sources` their contents. Entries are classified with the
/// default patterns.
pub fn create_from_dir(input_dir: &str, kind: PathKind, files: &[String], sources: &[Vec<u8>]) -> (res:
    Result<Vec<u8>, Error>)
    ensures
        match res {
            Ok(bytes) => dir_packable(
                input_dir@,
                kind,
                string_views(files@),
                content_views(sources@),
                Seq::empty(),
            ) && bytes@ == spec_archive(
                dir_builder(input_dir@, string_views(files@), Seq::empty()),
                content_views(sources@),
            ),
            Err(Error::Io(_)) => kind == PathKind::Missing,
            Err(Error::InvalidFormat(_)) => kind != PathKind::Missing && !dir_packable(
                input_dir@,
                kind,
                string_views(files@),
                content_views(sources@),
                Seq::empty(),
            ),
            Err(_) => false,
        },
{
    let mut builder = Pf8Builder::new();
    match builder.add_dir(input_dir, kind, files) {
        Ok(()) => {},
        Err(e) => {
            return Err(e);
        },
    }
    proof {
        assert(builder@.files =~= spec_dir_pairs(
            input_dir@,
            None,
            string_views(files@),
            files@.len() as int,
        ));
    }
    builder.write_to_file(sources)
}

/// Builds an archive of the regular files of a directory as [`create_from_dir`] does,
/// with the given patterns for unencrypted entries.
pub fn create_from_dir_with_patterns(
    input_dir: &str,
    kind: PathKind,
    files: &[String],
    sources: &[Vec<u8>],
    unencrypted_patterns: &[&str],
) -> (res: Result<Vec<u8>, Error>)
    ensures
        match res {
            Ok(bytes) => dir_packable(
                input_dir@,
                kind,
                string_views(files@),
                content_views(sources@),
                pattern_views(unencrypted_patterns@),
            ) && bytes@ == spec_archive(
                dir_builder(input_dir@, string_views(files@), pattern_views(unencrypted_patterns@)),
                content_views(sources@),
            ),
            Err(Error::Io(_)) => kind == PathKind::Missing,
            Err(Error::InvalidFormat(_)) => kind != PathKind::Missing && !dir_packable(
                input_dir@,
                kind,
                string_views(files@),
                content_views(sources@),
                pattern_views(unencrypted_patterns@),
            ),
            Err(_) => false,
        },
{
    let mut builder = Pf8Builder::new();
    builder.unencrypted_extensions(unencrypted_patterns);
    match builder.add_dir(input_dir, kind, files) {
        Ok(()) => {},
        Err(e) => {
            return Err(e);
        },
    }
    proof {
        assert(builder@.files =~= spec_dir_pairs(
            input_dir@,
            None,
            string_views(files@),
            files@.len() as int,
        ));
    }
    builder.write_to_file(sources)
}

} // verus!
