//! The course of a pack or unpack operation, as a state machine.
//!
//! The machine decides what happens next: which event the handler is told, which entry
//! is opened, which chunk is moved, and when the operation ends. Whoever drives it
//! performs each step and hands back the answer of the handler. An answer of `Abort`
//! ends the operation before the next entry or chunk is touched.

use vstd::prelude::*;
use crate::callbacks::{
    answered,
    ArchiveEvent,
    ArchiveHandler,
    ControlAction,
    EventView,
    OperationType,
    ProgressInfo,
    ProgressView,
};

verus! {

/// Where an operation stands: the step that was handed out last.
#[derive(Debug, Clone, Copy, PartialEq, Eq, Structural)]
pub enum Phase {
    /// No step yet.
    Created,
    /// The handler was told that the operation begins.
    SentStarted,
    /// The header was asked for.
    SentHeader,
    /// The handler was told that an entry begins.
    SentEntryStarted,
    /// The entry was asked to be opened.
    SentOpen,
    /// A chunk was asked to be moved.
    SentTransfer,
    /// The handler was told of the progress.
    SentProgress,
    /// The handler was told that the entry is complete.
    SentEntryFinished,
    /// The archive was asked to be made final.
    SentFinalize,
    /// The handler was told that the operation is complete.
    SentFinished,
    /// The operation is complete.
    Done,
    /// The operation was cancelled.
    Cancelled,
}

/// What the driver of an operation has to do next.
#[derive(Debug)]
pub enum Step {
    /// Hand the event to the handler, and its answer to the next call of `next`.
    Notify(ArchiveEvent),
    /// Write the header of the archive. Asked for when packing only.
    WriteHeader,
    /// Make the entry ready: create the file it is extracted to, or open the file it is
    /// packed from.
    OpenEntry { index: usize },
    /// Move `len` bytes of the entry, those that begin `local_offset` bytes into it.
    Transfer { index: usize, local_offset: u32, len: usize },
    /// Make the archive final. Asked for when packing only.
    Finalize,
    /// The operation is complete.
    Finish,
    /// The operation ends with the error `Cancelled`.
    Cancel,
}

/// Mathematical value of a [`Step`].
pub ghost enum StepView {
    Notify(EventView),
    WriteHeader,
    OpenEntry { index: int },
    Transfer { index: int, local_offset: int, len: int },
    Finalize,
    Finish,
    Cancel,
}

impl View for Step {
    type V = StepView;

    open spec fn view(&self) -> StepView {
        match self {
            Step::Notify(event) => StepView::Notify(event@),
            Step::WriteHeader => StepView::WriteHeader,
            Step::OpenEntry { index } => StepView::OpenEntry { index: *index as int },
            Step::Transfer { index, local_offset, len } => StepView::Transfer {
                index: *index as int,
                local_offset: *local_offset as int,
                len: *len as int,
            },
            Step::Finalize => StepView::Finalize,
            Step::Finish => StepView::Finish,
            Step::Cancel => StepView::Cancel,
        }
    }
}

/// Mathematical value of an [`Operation`].
pub ghost struct OperationView {
    pub op: OperationType,
    /// The paths of the entries, in the order in which they are processed.
    pub names: Seq<Seq<char>>,
    /// The payload sizes of the entries.
    pub sizes: Seq<u32>,
    /// The largest number of bytes moved in one step.
    pub buffer_size: usize,
    pub phase: Phase,
    /// The entry that is being processed.
    pub index: int,
    /// The bytes of that entry that were asked to be moved.
    pub done: int,
}

/// The sizes added up.
pub open spec fn sum_sizes(sizes: Seq<u32>) -> int
    decreases sizes.len(),
{
    if sizes.len() == 0 {
        0
    } else {
        sum_sizes(sizes.drop_last()) + sizes.last()
    }
}

/// The state after a cancellation.
pub open spec fn spec_cancel(v: OperationView) -> (OperationView, StepView) {
    (OperationView { phase: Phase::Cancelled, ..v }, StepView::Cancel)
}

/// Turns to entry `i`, or to the end of the operation if there is no such entry.
pub open spec fn spec_begin_entry(v: OperationView, i: int) -> (OperationView, StepView) {
    if i < v.names.len() {
        (
            OperationView { phase: Phase::SentEntryStarted, index: i, done: 0, ..v },
            StepView::Notify(EventView::EntryStarted(v.names[i])),
        )
    } else if v.op == OperationType::Pack {
        (OperationView { phase: Phase::SentFinalize, index: i, done: 0, ..v }, StepView::Finalize)
    } else {
        (
            OperationView { phase: Phase::SentFinished, index: i, done: 0, ..v },
            StepView::Notify(EventView::Finished),
        )
    }
}

/// The length of the next chunk of the current entry.
pub open spec fn spec_next_len(v: OperationView) -> int {
    let left = v.sizes[v.index] - v.done;
    if left < v.buffer_size {
        left
    } else {
        v.buffer_size as int
    }
}

/// Asks for the next chunk of the current entry.
pub open spec fn spec_transfer(v: OperationView) -> (OperationView, StepView) {
    (
        OperationView { phase: Phase::SentTransfer, done: v.done + spec_next_len(v), ..v },
        StepView::Transfer { index: v.index, local_offset: v.done, len: spec_next_len(v) },
    )
}

/// Goes on behind a chunk: with the next chunk, or with the end of the entry.
pub open spec fn spec_after_chunk(v: OperationView) -> (OperationView, StepView) {
    if v.done < v.sizes[v.index] {
        spec_transfer(v)
    } else {
        (
            OperationView { phase: Phase::SentEntryFinished, ..v },
            StepView::Notify(EventView::EntryFinished(v.names[v.index])),
        )
    }
}

/// The progress that is reported behind a chunk.
pub open spec fn spec_progress(v: OperationView) -> ProgressView {
    ProgressView {
        processed_bytes: (sum_sizes(v.sizes.take(v.index)) + v.done) as u64,
        total_bytes: Some(sum_sizes(v.sizes) as u64),
        processed_files: (v.index + 1) as usize,
        total_files: Some(v.names.len() as usize),
        current_file: v.names[v.index],
    }
}

/// The transition function: the state and the step that follow on `v` when the answer
/// to the last step is `answer`.
///
/// The answer counts behind the events `Started`, `EntryStarted`, `Progress` and
/// `EntryFinished`; behind every other step it is not looked at.
pub open spec fn spec_next(v: OperationView, answer: ControlAction) -> (OperationView, StepView) {
    match v.phase {
        Phase::Created => (
            OperationView { phase: Phase::SentStarted, ..v },
            StepView::Notify(EventView::Started(v.op)),
        ),
        Phase::SentStarted => if answer == ControlAction::Abort {
            spec_cancel(v)
        } else if v.op == OperationType::Pack {
            (OperationView { phase: Phase::SentHeader, ..v }, StepView::WriteHeader)
        } else {
            spec_begin_entry(v, 0)
        },
        Phase::SentHeader => spec_begin_entry(v, 0),
        Phase::SentEntryStarted => if answer == ControlAction::Abort {
            spec_cancel(v)
        } else {
            (
                OperationView { phase: Phase::SentOpen, ..v },
                StepView::OpenEntry { index: v.index },
            )
        },
        Phase::SentOpen => spec_transfer(v),
        Phase::SentTransfer => if v.op == OperationType::Unpack {
            (
                OperationView { phase: Phase::SentProgress, ..v },
                StepView::Notify(EventView::Progress(spec_progress(v))),
            )
        } else {
            spec_after_chunk(v)
        },
        Phase::SentProgress => if answer == ControlAction::Abort {
            spec_cancel(v)
        } else {
            spec_after_chunk(v)
        },
        Phase::SentEntryFinished => if answer == ControlAction::Abort {
            spec_cancel(v)
        } else {
            spec_begin_entry(v, v.index + 1)
        },
        Phase::SentFinalize => (
            OperationView { phase: Phase::SentFinished, ..v },
            StepView::Notify(EventView::Finished),
        ),
        Phase::SentFinished => (OperationView { phase: Phase::Done, ..v }, StepView::Finish),
        Phase::Done => (v, StepView::Finish),
        Phase::Cancelled => (v, StepView::Cancel),
    }
}

/// Whether the phase is one in which an entry is being processed.
pub open spec fn in_entry(phase: Phase) -> bool {
    phase == Phase::SentEntryStarted || phase == Phase::SentOpen || phase == Phase::SentTransfer
        || phase == Phase::SentProgress || phase == Phase::SentEntryFinished
}

/// What holds of every state that an operation reaches.
pub open spec fn spec_wf(v: OperationView) -> bool {
    &&& v.names.len() == v.sizes.len()
    &&& v.sizes.len() <= u32::MAX
    &&& v.buffer_size > 0
    &&& 0 <= v.index <= v.sizes.len()
    &&& in_entry(v.phase) ==> v.index < v.sizes.len() && 0 <= v.done <= v.sizes[v.index]
    &&& v.phase == Phase::SentEntryStarted || v.phase == Phase::SentOpen ==> v.done == 0
    &&& v.phase == Phase::SentEntryFinished ==> v.done == v.sizes[v.index]
    &&& v.phase == Phase::Created || v.phase == Phase::SentStarted || v.phase == Phase::SentHeader
        ==> v.index == 0 && v.done == 0
    &&& v.phase == Phase::SentFinalize || v.phase == Phase::SentFinished || v.phase == Phase::Done
        ==> v.index == v.sizes.len()
    &&& v.phase == Phase::SentHeader || v.phase == Phase::SentFinalize ==> v.op
        == OperationType::Pack
    &&& v.phase == Phase::SentProgress ==> v.op == OperationType::Unpack
}

/// The sizes of a part of the entries add up to no more than those of all.
pub proof fn lemma_sum_sizes(sizes: Seq<u32>, k: int)
    requires
        0 <= k <= sizes.len(),
    ensures
        0 <= sum_sizes(sizes.take(k)) <= sum_sizes(sizes),
        sum_sizes(sizes) <= sizes.len() * u32::MAX,
        k < sizes.len() ==> sum_sizes(sizes.take(k)) + sizes[k] <= sum_sizes(sizes),
    decreases sizes.len() - k,
{
    if k == sizes.len() {
        assert(sizes.take(k) =~= sizes);
        lemma_sum_bound(sizes);
    } else {
        lemma_sum_sizes(sizes, k + 1);
        assert(sizes.take(k + 1).drop_last() =~= sizes.take(k));
        lemma_sum_bound(sizes.take(k));
    }
}

proof fn lemma_sum_bound(sizes: Seq<u32>)
    ensures
        0 <= sum_sizes(sizes) <= sizes.len() * u32::MAX,
    decreases sizes.len(),
{
    if sizes.len() > 0 {
        lemma_sum_bound(sizes.drop_last());
        assert((sizes.len() - 1) * u32::MAX + u32::MAX == sizes.len() * u32::MAX)
            by (nonlinear_arith);
    }
}

/// How far a phase is from the end of its entry, or of the operation.
pub open spec fn phase_rank(phase: Phase) -> int {
    match phase {
        Phase::Created => 11,
        Phase::SentStarted => 10,
        Phase::SentHeader => 9,
        Phase::SentEntryStarted => 8,
        Phase::SentOpen => 7,
        Phase::SentTransfer => 6,
        Phase::SentProgress => 5,
        Phase::SentEntryFinished => 4,
        Phase::SentFinalize => 3,
        Phase::SentFinished => 2,
        Phase::Done => 1,
        Phase::Cancelled => 0,
    }
}

/// The entries that are not complete yet.
pub open spec fn entries_left(v: OperationView) -> int {
    v.sizes.len() - v.index
}

/// The bytes of the current entry that are not asked for yet.
pub open spec fn bytes_left(v: OperationView) -> int {
    if v.index < v.sizes.len() {
        v.sizes[v.index] - v.done
    } else {
        0
    }
}

/// Whether the operation has come to its end.
pub open spec fn is_terminal(phase: Phase) -> bool {
    phase == Phase::Done || phase == Phase::Cancelled
}

/// Every step keeps the state well-formed and, until the end is reached, brings the
/// operation nearer to it: an entry is completed, or bytes of the current entry are
/// asked for, or the phase moves on.
pub proof fn lemma_next_advances(v: OperationView, answer: ControlAction)
    requires
        spec_wf(v),
    ensures
        spec_wf(spec_next(v, answer).0),
        spec_next(v, answer).0.op == v.op,
        spec_next(v, answer).0.names == v.names,
        spec_next(v, answer).0.sizes == v.sizes,
        spec_next(v, answer).0.buffer_size == v.buffer_size,
        !is_terminal(v.phase) ==> {
            let w = spec_next(v, answer).0;
            ||| entries_left(w) < entries_left(v)
            ||| entries_left(w) == entries_left(v) && bytes_left(w) < bytes_left(v)
            ||| entries_left(w) == entries_left(v) && bytes_left(w) == bytes_left(v) && phase_rank(
                w.phase,
            ) < phase_rank(v.phase)
        },
{
}

/// An answer of `Abort` to `Started`, `EntryStarted`, `Progress` or `EntryFinished` ends
/// the operation at once: the next step is `Cancel`, whatever was still to do.
pub proof fn lemma_abort_cancels(v: OperationView)
    requires
        v.phase == Phase::SentStarted || v.phase == Phase::SentEntryStarted || v.phase
            == Phase::SentProgress || v.phase == Phase::SentEntryFinished,
    ensures
        spec_next(v, ControlAction::Abort) == spec_cancel(v),
{
}

/// Once cancelled, an operation hands out nothing but `Cancel`: no entry is opened and
/// no chunk is moved any more.
pub proof fn lemma_cancelled_stays(v: OperationView, answer: ControlAction)
    requires
        v.phase == Phase::Cancelled,
    ensures
        spec_next(v, answer) == (v, StepView::Cancel),
{
}

/// The answer to `Finished` is not looked at: the operation is complete either way.
pub proof fn lemma_finished_ignores_answer(v: OperationView)
    requires
        v.phase == Phase::SentFinished,
    ensures
        spec_next(v, ControlAction::Abort) == spec_next(v, ControlAction::Continue),
        spec_next(v, ControlAction::Abort).1 == StepView::Finish,
{
}

/// Whether a file of the current entry is open.
pub open spec fn entry_open(phase: Phase) -> bool {
    phase == Phase::SentOpen || phase == Phase::SentTransfer || phase == Phase::SentProgress
        || phase == Phase::SentEntryFinished
}

/// The event that was handed out last, in a state in which the last step was an event.
pub open spec fn event_told(v: OperationView) -> Option<EventView> {
    match v.phase {
        Phase::SentStarted => Some(EventView::Started(v.op)),
        Phase::SentEntryStarted => Some(EventView::EntryStarted(v.names[v.index])),
        Phase::SentProgress => Some(EventView::Progress(spec_progress(v))),
        Phase::SentEntryFinished => Some(EventView::EntryFinished(v.names[v.index])),
        Phase::SentFinished => Some(EventView::Finished),
        _ => None,
    }
}

/// Whether a handler of the type `H` answered `Continue` to the begin and to the end of
/// the entry with the given name.
pub open spec fn entry_heard<H: ArchiveHandler>(name: Seq<char>) -> bool {
    &&& answered::<H>(EventView::EntryStarted(name), ControlAction::Continue)
    &&& answered::<H>(EventView::EntryFinished(name), ControlAction::Continue)
}

/// What the answers were that brought an operation to the state `v`, where `answer` is
/// the answer to the event that was handed out last: `Continue` to the start, to the
/// begin and the end of every entry that is complete, and to the begin of the entry that
/// is open.
pub open spec fn heard<H: ArchiveHandler>(v: OperationView, answer: ControlAction) -> bool {
    &&& v.phase != Phase::Created && v.phase != Phase::SentStarted ==> answered::<H>(
        EventView::Started(v.op),
        ControlAction::Continue,
    )
    &&& forall|j: int| 0 <= j < v.index ==> entry_heard::<H>(#[trigger] v.names[j])
    &&& entry_open(v.phase) ==> answered::<H>(
        EventView::EntryStarted(v.names[v.index]),
        ControlAction::Continue,
    )
    &&& event_told(v) matches Some(event) ==> answered::<H>(event, answer)
}

/// A step that is no cancellation takes the answers along: the answer to the last
/// event was `Continue`, and `new_answer` is the answer to the event of the step, if the
/// step is an event.
pub proof fn lemma_heard_next<H: ArchiveHandler>(
    v: OperationView,
    answer: ControlAction,
    new_answer: ControlAction,
)
    requires
        spec_wf(v),
        v.phase != Phase::Cancelled,
        v.phase != Phase::Done,
        heard::<H>(v, answer),
        spec_next(v, answer).1 != StepView::Cancel,
        spec_next(v, answer).1 matches StepView::Notify(event) ==> answered::<H>(
            event,
            new_answer,
        ),
    ensures
        heard::<H>(spec_next(v, answer).0, new_answer),
{
    let w = spec_next(v, answer).0;
    if v.phase == Phase::SentEntryFinished {
        assert(answer == ControlAction::Continue);
        assert(entry_heard::<H>(v.names[v.index]));
        assert forall|j: int| 0 <= j < w.index implies entry_heard::<H>(#[trigger] w.names[j]) by {
            if j < v.index {
                assert(entry_heard::<H>(v.names[j]));
            }
        }
    } else {
        assert forall|j: int| 0 <= j < w.index implies entry_heard::<H>(#[trigger] w.names[j]) by {
            assert(entry_heard::<H>(v.names[j]));
        }
    }
}

/// A cancellation follows on an answer of `Abort` to the event that was handed out
/// last, which was the start, the begin or the end of an entry, or the progress in it.
pub proof fn lemma_heard_cancel<H: ArchiveHandler>(v: OperationView, answer: ControlAction)
    requires
        spec_wf(v),
        v.phase != Phase::Cancelled,
        heard::<H>(v, answer),
        spec_next(v, answer).1 == StepView::Cancel,
    ensures
        v.phase == Phase::SentStarted || v.phase == Phase::SentEntryStarted || v.phase
            == Phase::SentProgress || v.phase == Phase::SentEntryFinished,
        event_told(v) is Some,
        answered::<H>(event_told(v)->0, ControlAction::Abort),
{
}

/// An operation: the entries to process and the place it has come to.
pub struct Operation {
    op: OperationType,
    /// The paths of the entries, in the order in which they are processed.
    names: Vec<String>,
    /// The payload sizes of the entries.
    sizes: Vec<u32>,
    /// The largest number of bytes moved in one step.
    buffer_size: usize,
    /// The sizes of all entries together.
    total_bytes: u64,
    phase: Phase,
    /// The entry that is being processed.
    index: usize,
    /// The bytes of that entry that were asked to be moved.
    done: u32,
    /// The sizes of the entries before the current one, together.
    processed: u64,
}

impl View for Operation {
    type V = OperationView;

    closed spec fn view(&self) -> OperationView {
        OperationView {
            op: self.op,
            names: self.names@.map_values(|s: String| s@),
            sizes: self.sizes@,
            buffer_size: self.buffer_size,
            phase: self.phase,
            index: self.index as int,
            done: self.done as int,
        }
    }
}

impl Operation {
    /// What every operation keeps: its state is one that [`spec_wf`] admits, and its
    /// byte counts are the sums they stand for.
    pub closed spec fn wf(&self) -> bool {
        &&& spec_wf(self@)
        &&& self.total_bytes == sum_sizes(self.sizes@)
        &&& self.processed == sum_sizes(self.sizes@.take(self.index as int))
    }

    spec fn base_ok(&self) -> bool {
        &&& self.names@.len() == self.sizes@.len()
        &&& self.sizes@.len() <= u32::MAX
        &&& self.buffer_size > 0
        &&& self.total_bytes == sum_sizes(self.sizes@)
    }

    /// A well-formed operation is in a state that [`spec_wf`] admits.
    pub proof fn lemma_wf(&self)
        requires
            self.wf(),
        ensures
            spec_wf(self@),
    {
    }

    /// Makes an operation over the entries with the given paths and sizes.
    pub fn new(op: OperationType, names: Vec<String>, sizes: Vec<u32>, buffer_size: usize) -> (res:
        Self)
        requires
            names@.len() == sizes@.len(),
            sizes@.len() <= u32::MAX,
            buffer_size > 0,
        ensures
            res.wf(),
            res@ == (OperationView {
                op,
                names: names@.map_values(|s: String| s@),
                sizes: sizes@,
                buffer_size,
                phase: Phase::Created,
                index: 0,
                done: 0,
            }),
    {
        let mut total: u64 = 0;
        let mut i: usize = 0;
        while i < sizes.len()
            invariant
                i <= sizes.len(),
                sizes@.len() <= u32::MAX,
                total == sum_sizes(sizes@.take(i as int)),
            decreases sizes.len() - i,
        {
            proof {
                lemma_sum_sizes(sizes@, i as int);
                assert(sizes@.take(i + 1).drop_last() =~= sizes@.take(i as int));
                assert(sizes@.len() * u32::MAX <= u32::MAX * u32::MAX) by (nonlinear_arith)
                    requires
                        sizes@.len() <= u32::MAX,
                ;
            }
            total = total + sizes[i] as u64;
            i = i + 1;
        }
        proof {
            assert(sizes@.take(sizes.len() as int) =~= sizes@);
            assert(sizes@.take(0) =~= Seq::<u32>::empty());
        }
        Operation {
            op,
            names,
            sizes,
            buffer_size,
            total_bytes: total,
            phase: Phase::Created,
            index: 0,
            done: 0,
            processed: 0,
        }
    }

    /// The phase of the operation.
    pub fn phase(&self) -> (phase: Phase)
        ensures
            phase == self@.phase,
    {
        self.phase
    }

    fn cancel(&mut self) -> (step: Step)
        requires
            old(self).wf(),
        ensures
            final(self).wf(),
            (final(self)@, step@) == spec_cancel(old(self)@),
    {
        self.phase = Phase::Cancelled;
        Step::Cancel
    }

    fn begin_entry(&mut self, i: usize) -> (step: Step)
        requires
            old(self).base_ok(),
            i <= old(self)@.sizes.len(),
            old(self).processed == sum_sizes(old(self)@.sizes.take(i as int)),
        ensures
            final(self).wf(),
            (final(self)@, step@) == spec_begin_entry(old(self)@, i as int),
    {
        self.index = i;
        self.done = 0;
        if i < self.names.len() {
            self.phase = Phase::SentEntryStarted;
            Step::Notify(ArchiveEvent::EntryStarted(self.names[i].clone()))
        } else if self.op == OperationType::Pack {
            self.phase = Phase::SentFinalize;
            Step::Finalize
        } else {
            self.phase = Phase::SentFinished;
            Step::Notify(ArchiveEvent::Finished)
        }
    }

    fn transfer(&mut self) -> (step: Step)
        requires
            old(self).wf(),
            in_entry(old(self)@.phase),
        ensures
            final(self).wf(),
            (final(self)@, step@) == spec_transfer(old(self)@),
    {
        let left: u32 = self.sizes[self.index] - self.done;
        let len: usize = if (left as usize) < self.buffer_size {
            left as usize
        } else {
            self.buffer_size
        };
        let local_offset = self.done;
        self.done = self.done + len as u32;
        self.phase = Phase::SentTransfer;
        Step::Transfer { index: self.index, local_offset, len }
    }

    fn after_chunk(&mut self) -> (step: Step)
        requires
            old(self).wf(),
            old(self)@.phase == Phase::SentTransfer || old(self)@.phase == Phase::SentProgress,
        ensures
            final(self).wf(),
            (final(self)@, step@) == spec_after_chunk(old(self)@),
    {
        if self.done < self.sizes[self.index] {
            self.transfer()
        } else {
            self.phase = Phase::SentEntryFinished;
            Step::Notify(ArchiveEvent::EntryFinished(self.names[self.index].clone()))
        }
    }

    /// Hands out the next step. `answer` is what the handler said to the event of the
    /// step before; where that step was no event, or the event was `Finished`, it is not
    /// looked at.
    pub fn next(&mut self, answer: ControlAction) -> (step: Step)
        requires
            old(self).wf(),
        ensures
            final(self).wf(),
            (final(self)@, step@) == spec_next(old(self)@, answer),
    {
        proof {
            lemma_sum_sizes(self.sizes@, self.index as int);
            assert(self.sizes@.take(0) =~= Seq::<u32>::empty());
        }
        match self.phase {
            Phase::Created => {
                self.phase = Phase::SentStarted;
                Step::Notify(ArchiveEvent::Started(self.op))
            },
            Phase::SentStarted => {
                if answer == ControlAction::Abort {
                    self.cancel()
                } else if self.op == OperationType::Pack {
                    self.phase = Phase::SentHeader;
                    Step::WriteHeader
                } else {
                    self.begin_entry(0)
                }
            },
            Phase::SentHeader => self.begin_entry(0),
            Phase::SentEntryStarted => {
                if answer == ControlAction::Abort {
                    self.cancel()
                } else {
                    self.phase = Phase::SentOpen;
                    Step::OpenEntry { index: self.index }
                }
            },
            Phase::SentOpen => self.transfer(),
            Phase::SentTransfer => {
                if self.op == OperationType::Unpack {
                    self.phase = Phase::SentProgress;
                    Step::Notify(
                        ArchiveEvent::Progress(
                            ProgressInfo {
                                processed_bytes: self.processed + self.done as u64,
                                total_bytes: Some(self.total_bytes),
                                processed_files: self.index + 1,
                                total_files: Some(self.names.len()),
                                current_file: self.names[self.index].clone(),
                            },
                        ),
                    )
                } else {
                    self.after_chunk()
                }
            },
            Phase::SentProgress => {
                if answer == ControlAction::Abort {
                    self.cancel()
                } else {
                    self.after_chunk()
                }
            },
            Phase::SentEntryFinished => {
                if answer == ControlAction::Abort {
                    self.cancel()
                } else {
                    proof {
                        assert(self.sizes@.take(self.index + 1).drop_last() =~= self.sizes@.take(
                            self.index as int,
                        ));
                    }
                    self.processed = self.processed + self.sizes[self.index] as u64;
                    self.begin_entry(self.index + 1)
                }
            },
            Phase::SentFinalize => {
                self.phase = Phase::SentFinished;
                Step::Notify(ArchiveEvent::Finished)
            },
            Phase::SentFinished => {
                self.phase = Phase::Done;
                Step::Finish
            },
            Phase::Done => Step::Finish,
            Phase::Cancelled => Step::Cancel,
        }
    }
}

} // verus!
