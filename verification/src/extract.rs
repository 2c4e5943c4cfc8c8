//! Extraction of entries into memory, with events for a handler.
//!
//! The files that an extraction produces are values: a path and the content. Storing
//! them is left to the caller.

use vstd::prelude::*;
use crate::callbacks::{
    always_continues,
    answered,
    ArchiveHandler,
    ControlAction,
    EventView,
    OperationType,
    ProgressView,
    told,
};
use crate::crypto::spec_xor;
use crate::entry::{
    entry_paths,
    entry_sizes,
    entry_views,
    payload_in_bounds,
    stored_payload,
    Pf8Entry,
    Pf8EntryView,
};
use crate::text::string_views;
use crate::error::{Error, file_not_found};
use crate::operation::{
    bytes_left,
    entries_left,
    entry_heard,
    entry_open,
    event_told,
    heard,
    lemma_heard_cancel,
    lemma_heard_next,
    spec_progress,
    sum_sizes,
    StepView,
    lemma_next_advances,
    phase_rank,
    spec_next,
    spec_wf,
    Operation,
    OperationView,
    Phase,
    Step,
};
use crate::paths::{join, spec_join};
use crate::reader::{
    chunk_len,
    lemma_lookup,
    spec_chunk,
    spec_entry_content,
    spec_lookup,
    Pf8Reader,
    ReaderView,
};

verus! {

/// A file that was extracted from an archive.
#[derive(Debug)]
pub struct ExtractedFile {
    /// Where the file belongs.
    pub path: String,
    /// The content of the file.
    pub data: Vec<u8>,
}

/// Mathematical value of an [`ExtractedFile`].
pub ghost struct ExtractedView {
    pub path: Seq<char>,
    pub data: Seq<u8>,
}

impl View for ExtractedFile {
    type V = ExtractedView;

    open spec fn view(&self) -> ExtractedView {
        ExtractedView { path: self.path@, data: self.data@ }
    }
}

/// The values of a list of extracted files.
pub open spec fn extracted_views(files: Seq<ExtractedFile>) -> Seq<ExtractedView> {
    files.map_values(|f: ExtractedFile| f@)
}

/// A chunk is the part of the content at its place: chunks that are read one behind
/// the other give the content, however long they are.
pub proof fn lemma_chunk_of_content(r: ReaderView, e: Pf8EntryView, local_offset: int, max_len: int)
    requires
        payload_in_bounds(e, r.data.len() as int),
        0 <= local_offset <= e.size,
        0 <= max_len,
    ensures
        spec_chunk(r, e, local_offset, max_len) == spec_entry_content(r, e).subrange(
            local_offset,
            local_offset + chunk_len(e.size as int, local_offset, max_len),
        ),
{
    let n = chunk_len(e.size as int, local_offset, max_len);
    let chunk = spec_chunk(r, e, local_offset, max_len);
    let part = spec_entry_content(r, e).subrange(local_offset, local_offset + n);
    assert(chunk.len() == part.len());
    assert forall|i: int| 0 <= i < chunk.len() implies chunk[i] == part[i] by {
        assert(0 + (local_offset + i) == local_offset + i);
    }
    assert(chunk =~= part);
}

/// The files that the extraction of the first `k` entries gives.
pub open spec fn spec_extracted(
    r: ReaderView,
    entries: Seq<Pf8EntryView>,
    paths: Seq<Seq<char>>,
    k: int,
) -> Seq<ExtractedView> {
    Seq::new(
        k as nat,
        |i: int| ExtractedView { path: paths[i], data: spec_entry_content(r, entries[i]) },
    )
}

/// The first entry whose payload does not lie inside the archive, or the number of
/// entries if there is none.
pub open spec fn first_out_of_bounds(r: ReaderView, entries: Seq<Pf8EntryView>, from: int) -> int
    decreases entries.len() - from,
{
    if from >= entries.len() {
        from
    } else if !payload_in_bounds(entries[from], r.data.len() as int) {
        from
    } else {
        first_out_of_bounds(r, entries, from + 1)
    }
}

/// The paths of the entries below a directory.
pub open spec fn spec_output_paths(dir: Seq<char>, entries: Seq<Pf8EntryView>) -> Seq<Seq<char>> {
    Seq::new(entries.len(), |i: int| spec_join(dir, entries[i].path))
}

impl<'a> Pf8Reader<'a> {
    /// Extracts all entries, in index order, to files below `output_dir`, and appends
    /// the files to `output`. An entry whose payload does not lie inside the archive
    /// ends the extraction with an error; the files before it stay in `output`.
    pub fn extract_all(&self, output_dir: &str, output: &mut Vec<ExtractedFile>) -> (res: Result<
        (),
        Error,
    >)
        ensures
            extracted_views(final(output)@) == extracted_views(old(output)@) + spec_extracted(
                self@,
                self@.entries,
                spec_output_paths(output_dir@, self@.entries),
                first_out_of_bounds(self@, self@.entries, 0),
            ),
            match res {
                Ok(()) => first_out_of_bounds(self@, self@.entries, 0) == self@.entries.len(),
                Err(Error::Corrupted(_)) => first_out_of_bounds(self@, self@.entries, 0)
                    < self@.entries.len(),
                Err(_) => false,
            },
    {
        let entries = self.entries();
        let ghost views = self@.entries;
        let ghost paths = spec_output_paths(output_dir@, views);
        let mut i: usize = 0;
        proof {
            assert(extracted_views(output@) + spec_extracted(self@, views, paths, 0)
                =~= extracted_views(output@));
        }
        while i < entries.len()
            invariant
                i <= entries.len(),
                views == self@.entries,
                entry_views(entries@) == views,
                paths == spec_output_paths(output_dir@, views),
                forall|j: int|
                    0 <= j < entries@.len() ==> ((#[trigger] entries@[j])@.encrypted
                        ==> self@.key is Some),
                first_out_of_bounds(self@, views, 0) == first_out_of_bounds(self@, views, i as int),
                extracted_views(output@) == extracted_views(old(output)@) + spec_extracted(
                    self@,
                    views,
                    paths,
                    i as int,
                ),
            decreases entries.len() - i,
        {
            proof {
                assert(entry_views(entries@)[i as int] == entries@[i as int]@);
            }
            let content = match self.read_chunk(&entries[i], 0, entries[i].size() as usize) {
                Ok(content) => content,
                Err(e) => {
                    return Err(e);
                },
            };
            proof {
                lemma_chunk_of_content(self@, views[i as int], 0, views[i as int].size as int);
                assert(content@ =~= spec_entry_content(self@, views[i as int]));
            }
            let path = join(output_dir, entries[i].path());
            let ghost before = output@;
            output.push(ExtractedFile { path, data: content });
            proof {
                let file = ExtractedView {
                    path: paths[i as int],
                    data: spec_entry_content(self@, views[i as int]),
                };
                assert(output@.last()@ == file);
                assert(extracted_views(output@) =~= extracted_views(before).push(file));
                assert(spec_extracted(self@, views, paths, i + 1) =~= spec_extracted(
                    self@,
                    views,
                    paths,
                    i as int,
                ).push(file));
                assert(extracted_views(output@) =~= extracted_views(old(output)@) + spec_extracted(
                    self@,
                    views,
                    paths,
                    i + 1,
                ));
            }
            i = i + 1;
        }
        Ok(())
    }
}

impl<'a> Pf8Reader<'a> {
    /// Extracts all entries and tells `handler` of every step: the start, each entry,
    /// each chunk, the end. The file of an entry is created when the handler has
    /// answered to the begin of the entry, and filled chunk by chunk. An answer of
    /// `Abort` ends the extraction with the error `Cancelled` before the next entry or
    /// chunk is touched; what is extracted by then stays in `output`.
    pub fn extract_all_with_progress<H: ArchiveHandler>(
        &self,
        output_dir: &str,
        output: &mut Vec<ExtractedFile>,
        handler: &mut H,
    ) -> (res: Result<(), Error>)
        ensures
            forall|j: int|
                0 <= j < old(output)@.len() ==> #[trigger] extracted_views(final(output)@)[j]
                    == extracted_views(old(output)@)[j],
            handled_extraction::<H>(
                extracted_views(old(output)@),
                extracted_views(final(output)@),
                self@,
                self@.entries,
                spec_output_paths(output_dir@, self@.entries),
                res,
            ),
    {
        let entries = self.entries();
        let mut paths: Vec<String> = Vec::new();
        let mut i: usize = 0;
        while i < entries.len()
            invariant
                i <= entries.len(),
                paths@.len() == i,
                entry_views(entries@) == self@.entries,
                forall|j: int|
                    0 <= j < i ==> (#[trigger] paths@[j])@ == spec_join(
                        output_dir@,
                        self@.entries[j].path,
                    ),
            decreases entries.len() - i,
        {
            proof {
                assert(entry_views(entries@)[i as int] == entries@[i as int]@);
            }
            paths.push(join(output_dir, entries[i].path()));
            i = i + 1;
        }
        assert(string_views(paths@) =~= spec_output_paths(output_dir@, self@.entries));
        run_unpack(self, entries, paths.as_slice(), output, handler)
    }

    /// Extracts the entry with the given path to a file at `output_path`, appends the
    /// file to `output`, and tells `handler` of every step.
    pub fn extract_file_with_progress<H: ArchiveHandler>(
        &self,
        archive_path: &str,
        output_path: &str,
        output: &mut Vec<ExtractedFile>,
        handler: &mut H,
    ) -> (res: Result<(), Error>)
        ensures
            forall|j: int|
                0 <= j < old(output)@.len() ==> #[trigger] extracted_views(final(output)@)[j]
                    == extracted_views(old(output)@)[j],
            match res {
                Ok(()) => spec_lookup(self@.entries, archive_path@) is Some && {
                    let e = self@.entries[spec_lookup(self@.entries, archive_path@)->0];
                    &&& payload_in_bounds(e, self@.data.len() as int)
                    &&& extracted_views(final(output)@) == extracted_views(old(output)@).push(
                        ExtractedView { path: output_path@, data: spec_entry_content(self@, e) },
                    )
                },
                Err(Error::FileNotFound(_)) => spec_lookup(self@.entries, archive_path@) is None
                    && extracted_views(final(output)@) == extracted_views(old(output)@),
                Err(Error::Cancelled) => spec_lookup(self@.entries, archive_path@) is Some,
                Err(Error::Corrupted(_)) => spec_lookup(self@.entries, archive_path@) is Some && {
                    &&& !payload_in_bounds(
                        self@.entries[spec_lookup(self@.entries, archive_path@)->0],
                        self@.data.len() as int,
                    )
                    &&& extracted_views(final(output)@) == extracted_views(old(output)@).push(
                        ExtractedView { path: output_path@, data: Seq::empty() },
                    )
                },
                Err(_) => false,
            },
            spec_lookup(self@.entries, archive_path@) is Some ==> handled_extraction::<H>(
                extracted_views(old(output)@),
                extracted_views(final(output)@),
                self@,
                seq![self@.entries[spec_lookup(self@.entries, archive_path@)->0]],
                seq![output_path@],
                res,
            ),
    {
        let entry = match self.get_entry(archive_path) {
            Some(entry) => entry.clone(),
            None => {
                return Err(file_not_found(archive_path));
            },
        };
        proof {
            lemma_lookup(self@.entries, archive_path@);
        }
        let all = self.entries();
        proof {
            let i = spec_lookup(self@.entries, archive_path@)->0;
            assert(entry_views(all@)[i] == all@[i]@);
        }
        let mut entries: Vec<Pf8Entry> = Vec::new();
        entries.push(entry);
        let mut paths: Vec<String> = Vec::new();
        paths.push(output_path.to_owned());
        let res = run_unpack(self, entries.as_slice(), paths.as_slice(), output, handler);
        proof {
            let views = entry_views(entries@);
            assert(views[0] == entries@[0]@);
            assert(views[0] == self@.entries[spec_lookup(self@.entries, archive_path@)->0]);
            assert(views.len() == 1);
            assert(first_out_of_bounds(self@, views, 1) == 1);
            assert(first_out_of_bounds(self@, views, 0) == if payload_in_bounds(
                views[0],
                self@.data.len() as int,
            ) {
                1int
            } else {
                0int
            });
            assert(views =~= seq![self@.entries[spec_lookup(self@.entries, archive_path@)->0]]);
            assert(string_views(paths@) =~= seq![output_path@]);
            if res matches Err(Error::Corrupted(_)) {
                assert(spec_extracted(self@, views, string_views(paths@), 0) =~= Seq::empty());
                assert(spec_entry_content(self@, views[0]).take(0) =~= Seq::<u8>::empty());
                assert(extracted_views(output@) =~= extracted_views(old(output)@).push(
                    ExtractedView { path: output_path@, data: Seq::empty() },
                ));
            }
            if res is Ok {
                assert(spec_extracted(self@, views, string_views(paths@), 1) =~= seq![
                    ExtractedView {
                        path: output_path@,
                        data: spec_entry_content(self@, views[0]),
                    },
                ]);
                assert(extracted_views(old(output)@) + seq![
                    ExtractedView {
                        path: output_path@,
                        data: spec_entry_content(self@, views[0]),
                    },
                ] =~= extracted_views(old(output)@).push(
                    ExtractedView {
                        path: output_path@,
                        data: spec_entry_content(self@, views[0]),
                    },
                ));
            }
        }
        res
    }
}

/// Whether `after` holds, behind the files of `before`, what an extraction leaves that
/// was cancelled at entry `k`: the files of the `k` entries before it, whole, and, if
/// `part` says so, the file of entry `k` with the first `part` bytes of its content.
pub open spec fn cut_at(
    before: Seq<ExtractedView>,
    after: Seq<ExtractedView>,
    r: ReaderView,
    entries: Seq<Pf8EntryView>,
    paths: Seq<Seq<char>>,
    k: int,
    part: Option<int>,
) -> bool {
    &&& 0 <= k <= entries.len()
    &&& forall|j: int| 0 <= j < k ==> payload_in_bounds(#[trigger] entries[j], r.data.len() as int)
    &&& match part {
        Some(n) => {
            &&& k < entries.len()
            &&& 0 <= n <= entries[k].size
            &&& after == (before + spec_extracted(r, entries, paths, k)).push(
                ExtractedView { path: paths[k], data: spec_entry_content(r, entries[k]).take(n) },
            )
        },
        None => after == before + spec_extracted(r, entries, paths, k),
    }
}

/// The progress that is reported when `done` bytes of entry `k` are extracted.
pub open spec fn progress_at(entries: Seq<Pf8EntryView>, k: int, done: int) -> ProgressView {
    ProgressView {
        processed_bytes: (sum_sizes(entry_sizes(entries).take(k)) + done) as u64,
        total_bytes: Some(sum_sizes(entry_sizes(entries)) as u64),
        processed_files: (k + 1) as usize,
        total_files: Some(entries.len() as usize),
        current_file: entries[k].path,
    }
}

/// Whether a handler of the type `H` answered `Continue` to all that it was told before
/// an extraction came to entry `k`: to the start, and to the begin and the end of every
/// entry before entry `k`; and, if entry `k` is `begun`, to the begin of entry `k`.
pub open spec fn continued_before<H: ArchiveHandler>(
    entries: Seq<Pf8EntryView>,
    k: int,
    begun: bool,
) -> bool {
    &&& answered::<H>(EventView::Started(OperationType::Unpack), ControlAction::Continue)
    &&& forall|j: int| 0 <= j < k ==> entry_heard::<H>(#[trigger] entries[j].path)
    &&& begun ==> answered::<H>(EventView::EntryStarted(entries[k].path), ControlAction::Continue)
}

/// Whether `event` is an event at which an extraction can be stopped so that it leaves
/// the files of the first `k` entries and of entry `k` what `part` says: the start,
/// before any file; the begin of entry `k`, before its file is created; the progress
/// behind a chunk of entry `k`; or the end of entry `k`, when its file is whole.
pub open spec fn stopped_at(
    entries: Seq<Pf8EntryView>,
    k: int,
    part: Option<int>,
    event: EventView,
) -> bool {
    match event {
        EventView::Started(op) => op == OperationType::Unpack && k == 0 && part is None,
        EventView::EntryStarted(name) => 0 <= k < entries.len() && name == entries[k].path
            && part is None,
        EventView::Progress(info) => 0 <= k < entries.len() && part is Some && info
            == progress_at(entries, k, part->0),
        EventView::EntryFinished(name) => 0 <= k < entries.len() && name == entries[k].path
            && part == Some(entries[k].size as int),
        _ => false,
    }
}

/// Whether `after` holds what an extraction leaves that a handler of the type `H`
/// stopped: the handler answered `Abort` to an event, `after` holds what was extracted
/// when that event was told, and the handler answered `Continue` to the start and to the
/// begin and the end of the entries before.
pub open spec fn cancelled_by<H: ArchiveHandler>(
    before: Seq<ExtractedView>,
    after: Seq<ExtractedView>,
    r: ReaderView,
    entries: Seq<Pf8EntryView>,
    paths: Seq<Seq<char>>,
) -> bool {
    exists|k: int, part: Option<int>, event: EventView|
        {
            &&& #[trigger] stopped_at(entries, k, part, event)
            &&& cut_at(before, after, r, entries, paths, k, part)
            &&& answered::<H>(event, ControlAction::Abort)
            &&& event is Started || continued_before::<H>(entries, k, part is Some)
        }
}

/// What an extraction with a handler of the type `H` gives.
///
/// It succeeds with all files if every payload lies inside the archive and the handler
/// answered `Continue` to the start and to the begin and the end of every entry; the
/// handler is then told of the end, and its answer to that is not looked at. It fails with `Corrupted` at the
/// first entry that lies out of bounds, if the handler let it come so far, and with
/// `Cancelled` if the handler answered `Abort`; then `after` holds what was extracted by
/// then. A handler that always answers `Continue` never has it cancelled.
pub open spec fn handled_extraction<H: ArchiveHandler>(
    before: Seq<ExtractedView>,
    after: Seq<ExtractedView>,
    r: ReaderView,
    entries: Seq<Pf8EntryView>,
    paths: Seq<Seq<char>>,
    res: Result<(), Error>,
) -> bool {
    &&& match res {
        Ok(()) => {
            &&& first_out_of_bounds(r, entries, 0) == entries.len()
            &&& after == before + spec_extracted(r, entries, paths, entries.len() as int)
            &&& continued_before::<H>(entries, entries.len() as int, false)
            &&& told::<H>(EventView::Finished)
        },
        Err(Error::Cancelled) => cancelled_by::<H>(before, after, r, entries, paths),
        Err(Error::Corrupted(_)) => {
            &&& corrupted_extraction(before, after, r, entries, paths)
            &&& continued_before::<H>(entries, first_out_of_bounds(r, entries, 0), true)
        },
        Err(_) => false,
    }
    &&& always_continues::<H>() ==> !(res matches Err(Error::Cancelled))
}

/// The answers that brought an extraction to the state `v` are `Continue` to all that
/// the handler was told before entry `v.index`.
proof fn lemma_continued<H: ArchiveHandler>(
    v: OperationView,
    answer: ControlAction,
    entries: Seq<Pf8EntryView>,
    begun: bool,
)
    requires
        v.op == OperationType::Unpack,
        v.names == entry_paths(entries),
        0 <= v.index <= entries.len(),
        heard::<H>(v, answer),
        v.phase != Phase::Created,
        v.phase != Phase::SentStarted,
        begun ==> entry_open(v.phase) && v.index < entries.len(),
    ensures
        continued_before::<H>(entries, v.index, begun),
{
    assert forall|j: int| 0 <= j < v.index implies entry_heard::<H>(
        #[trigger] entries[j].path,
    ) by {
        assert(v.names[j] == entries[j].path);
    }
}

/// An extraction that is cancelled in the state `v` was stopped by an answer of `Abort`
/// to the event that was told last.
proof fn lemma_cancelled_by<H: ArchiveHandler>(
    v: OperationView,
    answer: ControlAction,
    before: Seq<ExtractedView>,
    files: Seq<ExtractedView>,
    r: ReaderView,
    entries: Seq<Pf8EntryView>,
    paths: Seq<Seq<char>>,
)
    requires
        spec_wf(v),
        v.op == OperationType::Unpack,
        v.names == entry_paths(entries),
        v.sizes == entry_sizes(entries),
        v.phase != Phase::Cancelled,
        heard::<H>(v, answer),
        spec_next(v, answer).1 == StepView::Cancel,
        cut_at(before, files, r, entries, paths, v.index, cut_part(v)),
    ensures
        cancelled_by::<H>(before, files, r, entries, paths),
{
    lemma_heard_cancel::<H>(v, answer);
    let event = event_told(v)->0;
    if v.phase != Phase::SentStarted {
        lemma_continued::<H>(v, answer, entries, cut_part(v) is Some);
    }
    if v.phase == Phase::SentProgress {
        assert(spec_progress(v) == progress_at(entries, v.index, v.done));
    }
    assert(stopped_at(entries, v.index, cut_part(v), event));
}

/// Whether `after` holds what an extraction with a handler leaves that met an entry
/// whose payload does not lie inside the archive: the files of the entries before the
/// first such entry, whole, and the file of that entry, empty.
pub open spec fn corrupted_extraction(
    before: Seq<ExtractedView>,
    after: Seq<ExtractedView>,
    r: ReaderView,
    entries: Seq<Pf8EntryView>,
    paths: Seq<Seq<char>>,
) -> bool {
    &&& first_out_of_bounds(r, entries, 0) < entries.len()
    &&& cut_at(before, after, r, entries, paths, first_out_of_bounds(r, entries, 0), Some(0))
}

/// How much of the file of the current entry there is in the given state: nothing if
/// the file is not created yet, else as many bytes as were asked for.
pub open spec fn cut_part(v: OperationView) -> Option<int> {
    if entry_open(v.phase) {
        Some(v.done)
    } else {
        None
    }
}

/// If all entries from `from` up to entry `k` lie inside the archive and entry `k` does
/// not, entry `k` is the first that lies out of bounds.
pub proof fn lemma_first_out_of_bounds_is(
    r: ReaderView,
    entries: Seq<Pf8EntryView>,
    from: int,
    k: int,
)
    requires
        0 <= from <= k < entries.len(),
        forall|j: int|
            from <= j < k ==> payload_in_bounds(#[trigger] entries[j], r.data.len() as int),
        !payload_in_bounds(entries[k], r.data.len() as int),
    ensures
        first_out_of_bounds(r, entries, from) == k,
    decreases k - from,
{
    if from < k {
        lemma_first_out_of_bounds_is(r, entries, from + 1, k);
    }
}

/// The state of an extraction gives the files that there are when it ends in that state.
proof fn lemma_cut(
    v: OperationView,
    before: Seq<ExtractedView>,
    files: Seq<ExtractedView>,
    r: ReaderView,
    entries: Seq<Pf8EntryView>,
    paths: Seq<Seq<char>>,
)
    requires
        spec_wf(v),
        v.sizes.len() == entries.len(),
        forall|j: int| 0 <= j < entries.len() ==> #[trigger] v.sizes[j] == entries[j].size,
        unpack_inv(v, before, files, r, entries, paths),
        v.phase != Phase::SentFinalize && v.phase != Phase::SentFinished && v.phase != Phase::Done,
    ensures
        cut_at(before, files, r, entries, paths, v.index, cut_part(v)),
{
    let k = v.index;
    let whole = before + spec_extracted(r, entries, paths, k);
    if entry_open(v.phase) {
        let part = ExtractedView {
            path: paths[k],
            data: spec_entry_content(r, entries[k]).take(v.done),
        };
        assert(files.len() == whole.len() + 1);
        assert forall|i: int| 0 <= i < files.len() implies files[i] == whole.push(part)[i] by {
            if before.len() <= i < before.len() + k {
                let j = i - before.len();
                assert(files[before.len() + j] == whole[i]);
            }
        }
        assert(files =~= whole.push(part));
        assert(cut_at(before, files, r, entries, paths, k, Some(v.done)));
    } else {
        assert(files.len() == whole.len());
        assert forall|i: int| 0 <= i < files.len() implies files[i] == whole[i] by {
            if before.len() <= i {
                let j = i - before.len();
                assert(files[before.len() + j] == whole[i]);
            }
        }
        assert(files =~= whole);
        assert(cut_at(before, files, r, entries, paths, k, None));
    }
}

/// The number of files that are created when an extraction has come to the given
/// state.
pub open spec fn opened_count(v: OperationView) -> int {
    match v.phase {
        Phase::Created | Phase::SentStarted | Phase::SentHeader | Phase::Cancelled => 0,
        Phase::SentEntryStarted => v.index,
        Phase::SentOpen | Phase::SentTransfer | Phase::SentProgress | Phase::SentEntryFinished => v.index
            + 1,
        Phase::SentFinalize | Phase::SentFinished | Phase::Done => v.sizes.len() as int,
    }
}

/// What holds of the files while an extraction runs: the files of the entries that are
/// complete hold their content, and the file of the entry that is being extracted
/// holds the content as far as it has been asked for.
pub open spec fn unpack_inv(
    v: OperationView,
    before: Seq<ExtractedView>,
    files: Seq<ExtractedView>,
    r: ReaderView,
    entries: Seq<Pf8EntryView>,
    paths: Seq<Seq<char>>,
) -> bool {
    &&& v.phase != Phase::Cancelled
    &&& files.len() == before.len() + opened_count(v)
    &&& forall|j: int| 0 <= j < before.len() ==> #[trigger] files[j] == before[j]
    &&& forall|j: int|
        0 <= j < v.index ==> payload_in_bounds(#[trigger] entries[j], r.data.len() as int)
    &&& forall|j: int|
        0 <= j < v.index ==> #[trigger] files[before.len() + j] == (ExtractedView {
            path: paths[j],
            data: spec_entry_content(r, entries[j]),
        })
    &&& entry_open(v.phase) ==> files[before.len() + v.index] == (ExtractedView {
        path: paths[v.index],
        data: spec_entry_content(r, entries[v.index]).take(v.done),
    })
    &&& entry_open(v.phase) && v.phase != Phase::SentOpen ==> payload_in_bounds(
        entries[v.index],
        r.data.len() as int,
    )
}

/// Runs an extraction of `entries` to the files at `paths` and appends the files to
/// `output`. The events go to `handler`, whose answers decide whether the extraction
/// goes on.
fn run_unpack<H: ArchiveHandler>(
    reader: &Pf8Reader,
    entries: &[Pf8Entry],
    paths: &[String],
    output: &mut Vec<ExtractedFile>,
    handler: &mut H,
) -> (res: Result<(), Error>)
    requires
        entries@.len() == paths@.len(),
        entries@.len() <= u32::MAX,
        forall|i: int|
            0 <= i < entries@.len() ==> ((#[trigger] entries@[i])@.encrypted ==> reader@.key
                is Some),
    ensures
        forall|j: int|
            0 <= j < old(output)@.len() ==> #[trigger] extracted_views(final(output)@)[j]
                == extracted_views(old(output)@)[j],
        handled_extraction::<H>(
            extracted_views(old(output)@),
            extracted_views(final(output)@),
            reader@,
            entry_views(entries@),
            string_views(paths@),
            res,
        ),
{
    let ghost views = entry_views(entries@);
    let ghost targets = string_views(paths@);
    let ghost before = extracted_views(old(output)@);
    let mut names: Vec<String> = Vec::new();
    let mut sizes: Vec<u32> = Vec::new();
    let mut k: usize = 0;
    while k < entries.len()
        invariant
            k <= entries.len(),
            names@.len() == k,
            sizes@.len() == k,
            forall|j: int| 0 <= j < k ==> #[trigger] sizes@[j] == entries@[j]@.size,
            forall|j: int| 0 <= j < k ==> (#[trigger] names@[j])@ == entries@[j]@.path,
        decreases entries.len() - k,
    {
        names.push(entries[k].path().to_owned());
        sizes.push(entries[k].size());
        k = k + 1;
    }
    proof {
        assert(names@.map_values(|s: String| s@) =~= entry_paths(views));
        assert(sizes@ =~= entry_sizes(views));
    }
    let mut op = Operation::new(OperationType::Unpack, names, sizes, reader.buffer_size());
    let mut answer = ControlAction::Continue;
    loop
        invariant
            op.wf(),
            op@.names == entry_paths(views),
            op@.sizes == entry_sizes(views),
            op@.phase != Phase::Done,
            heard::<H>(op@, answer),
            op@.op == OperationType::Unpack,
            op@.sizes.len() == entries@.len(),
            op@.buffer_size == reader@.buffer_size,
            forall|j: int| 0 <= j < entries@.len() ==> #[trigger] op@.sizes[j] == entries@[j]@.size,
            entries@.len() == paths@.len(),
            views == entry_views(entries@),
            targets == string_views(paths@),
            before == extracted_views(old(output)@),
            forall|i: int|
                0 <= i < entries@.len() ==> ((#[trigger] entries@[i])@.encrypted ==> reader@.key
                    is Some),
            unpack_inv(op@, before, extracted_views(output@), reader@, views, targets),
            always_continues::<H>() ==> answer == ControlAction::Continue,
        decreases entries_left(op@), bytes_left(op@), phase_rank(op@.phase),
    {
        let ghost v = op@;
        let ghost files = extracted_views(output@);
        proof {
            op.lemma_wf();
            lemma_next_advances(v, answer);
        }
        let step = op.next(answer);
        match step {
            Step::Notify(event) => {
                let ghost last = answer;
                answer = handler.on_event(&event);
                proof {
                    assert(answered::<H>(event@, answer));
                    lemma_heard_next::<H>(v, last, answer);
                    if v.phase == Phase::SentEntryFinished {
                        assert(spec_entry_content(reader@, views[v.index]).take(v.done)
                            =~= spec_entry_content(reader@, views[v.index]));
                    }
                }
            },
            Step::OpenEntry { index } => {
                output.push(ExtractedFile { path: paths[index].clone(), data: Vec::new() });
                proof {
                    lemma_heard_next::<H>(v, answer, answer);
                    assert(spec_entry_content(reader@, views[v.index]).take(0) =~= Seq::<
                        u8,
                    >::empty());
                    assert(extracted_views(output@) =~= files.push(
                        ExtractedView { path: targets[v.index], data: Seq::empty() },
                    ));
                }
            },
            Step::Transfer { index, local_offset, len } => {
                proof {
                    assert(views[index as int] == entries@[index as int]@);
                }
                let chunk = match reader.read_chunk(&entries[index], local_offset, len) {
                    Ok(chunk) => chunk,
                    Err(e) => {
                        proof {
                            assert forall|j: int| 0 <= j < views.len() implies #[trigger] v.sizes[j]
                                == views[j].size by {
                                assert(views[j] == entries@[j]@);
                            }
                            lemma_first_out_of_bounds_is(reader@, views, 0, index as int);
                            lemma_cut(v, before, files, reader@, views, targets);
                            lemma_continued::<H>(v, answer, views, true);
                        }
                        return Err(e);
                    },
                };
                proof {
                    lemma_heard_next::<H>(v, answer, answer);
                    lemma_chunk_of_content(
                        reader@,
                        views[index as int],
                        local_offset as int,
                        len as int,
                    );
                }
                proof {
                    assert(v.phase == Phase::SentOpen || v.phase == Phase::SentProgress);
                    assert(files.len() - 1 == before.len() + index);
                    assert(output@.last()@ == files[before.len() + index]);
                }
                let mut file = match output.pop() {
                    Some(file) => file,
                    None => {
                        // The file of the entry was pushed when the entry was opened.
                        assert(false);
                        return Err(Error::Cancelled);
                    },
                };
                let ghost rest = extracted_views(output@);
                let ghost opened = file@;
                proof {
                    assert(rest =~= files.drop_last());
                    assert(opened == files[before.len() + index]);
                    assert(local_offset == v.done);
                    assert(chunk_len(views[index as int].size as int, local_offset as int, len as int)
                        == len);
                    assert(opened.data == spec_entry_content(reader@, views[index as int]).take(
                        local_offset as int,
                    ));
                }
                file.data.extend_from_slice(chunk.as_slice());
                proof {
                    let content = spec_entry_content(reader@, views[index as int]);
                    assert(content.take(local_offset as int) + content.subrange(
                        local_offset as int,
                        local_offset + len,
                    ) =~= content.take(local_offset + len));
                }
                proof {
                    assert(file@.path == targets[index as int]);
                    assert(file@.data =~= spec_entry_content(reader@, views[index as int]).take(
                        local_offset + len,
                    ));
                }
                output.push(file);
                proof {
                    assert(extracted_views(output@) =~= rest.push(file@));
                    assert(extracted_views(output@) =~= files.update(
                        files.len() - 1,
                        ExtractedView {
                            path: targets[index as int],
                            data: spec_entry_content(reader@, views[index as int]).take(
                                local_offset + len,
                            ),
                        },
                    ));
                }
            },
            Step::WriteHeader => {
                // An extraction writes no header.
                assert(false);
                return Err(Error::Cancelled);
            },
            Step::Finalize => {
                // An extraction has no archive to make final.
                assert(false);
                return Err(Error::Cancelled);
            },
            Step::Finish => {
                proof {
                    lemma_continued::<H>(v, answer, views, false);
                    assert(answered::<H>(EventView::Finished, answer));
                    lemma_all_in_bounds(reader@, views, 0);
                    let wanted = before + spec_extracted(
                        reader@,
                        views,
                        targets,
                        entries@.len() as int,
                    );
                    assert(files.len() == wanted.len());
                    assert forall|i: int| 0 <= i < files.len() implies files[i] == wanted[i] by {
                        if i >= before.len() {
                            let j = i - before.len();
                            assert(files[before.len() + j] == wanted[i]);
                        }
                    }
                    assert(extracted_views(output@) =~= before + spec_extracted(
                        reader@,
                        views,
                        targets,
                        entries@.len() as int,
                    ));
                }
                return Ok(());
            },
            Step::Cancel => {
                proof {
                    assert forall|j: int| 0 <= j < views.len() implies #[trigger] v.sizes[j]
                        == views[j].size by {
                        assert(views[j] == entries@[j]@);
                    }
                    lemma_cut(v, before, files, reader@, views, targets);
                    lemma_cancelled_by::<H>(v, answer, before, files, reader@, views, targets);
                }
                return Err(Error::Cancelled);
            },
        }
    }
}

/// If all entries from `from` on lie inside the archive, none is the first out of
/// bounds.
pub proof fn lemma_all_in_bounds(r: ReaderView, entries: Seq<Pf8EntryView>, from: int)
    requires
        0 <= from <= entries.len(),
        forall|j: int|
            from <= j < entries.len() ==> payload_in_bounds(
                #[trigger] entries[j],
                r.data.len() as int,
            ),
    ensures
        first_out_of_bounds(r, entries, from) == entries.len(),
    decreases entries.len() - from,
{
    if from < entries.len() {
        lemma_all_in_bounds(r, entries, from + 1);
    }
}

} // verus!
