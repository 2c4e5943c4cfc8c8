//! Events of long-running operations and the handler that receives them.
//!
//! Packing and unpacking report their progress as events. A handler answers every event
//! with [`ControlAction::Continue`] or [`ControlAction::Abort`]; an operation that is told
//! to abort stops before it touches the next entry or chunk.

use vstd::prelude::*;

verus! {

/// The kind of a long-running operation.
#[derive(Debug, Clone, Copy, PartialEq, Eq, Structural)]
pub enum OperationType {
    /// Files are packed into an archive.
    Pack,
    /// Files are extracted from an archive.
    Unpack,
}

/// The answer of a handler to an event.
#[derive(Debug, Clone, Copy, PartialEq, Eq, Structural)]
pub enum ControlAction {
    /// Go on.
    Continue,
    /// Stop the operation.
    Abort,
}

/// How far an operation has come.
#[derive(Debug)]
pub struct ProgressInfo {
    /// Bytes processed so far.
    pub processed_bytes: u64,
    /// Bytes to process in all, where that is known.
    pub total_bytes: Option<u64>,
    /// Number of the file that is being processed, counted from 1.
    pub processed_files: usize,
    /// Number of files to process, where that is known.
    pub total_files: Option<usize>,
    /// Path of the file that is being processed.
    pub current_file: String,
}

/// Mathematical value of a [`ProgressInfo`].
pub ghost struct ProgressView {
    pub processed_bytes: u64,
    pub total_bytes: Option<u64>,
    pub processed_files: usize,
    pub total_files: Option<usize>,
    pub current_file: Seq<char>,
}

impl View for ProgressInfo {
    type V = ProgressView;

    open spec fn view(&self) -> ProgressView {
        ProgressView {
            processed_bytes: self.processed_bytes,
            total_bytes: self.total_bytes,
            processed_files: self.processed_files,
            total_files: self.total_files,
            current_file: self.current_file@,
        }
    }
}

impl Clone for ProgressInfo {
    fn clone(&self) -> (res: Self)
        ensures
            res@ == self@,
    {
        ProgressInfo {
            processed_bytes: self.processed_bytes,
            total_bytes: self.total_bytes,
            processed_files: self.processed_files,
            total_files: self.total_files,
            current_file: self.current_file.clone(),
        }
    }
}

/// Errors that a handler may want to report in its own terms.
#[derive(Debug)]
pub enum ArchiveError {
    /// Input or output failed.
    IoError(String),
    /// The archive is malformed.
    FormatError(String),
    /// A file or an entry is missing.
    NotFound(String),
    /// Encoding or decoding failed.
    CompressionError(String),
    /// Access was denied.
    PermissionDenied(String),
    /// Anything else.
    Other(String),
}

/// The events of an operation, in the order of its life.
#[derive(Debug)]
pub enum ArchiveEvent {
    /// The operation begins.
    Started(OperationType),
    /// Work on the named entry begins.
    EntryStarted(String),
    /// A chunk has been processed.
    Progress(ProgressInfo),
    /// The named entry is complete.
    EntryFinished(String),
    /// Something went wrong that does not end the operation.
    Warning(String),
    /// The operation is complete.
    Finished,
}

/// Mathematical value of an [`ArchiveEvent`].
pub ghost enum EventView {
    Started(OperationType),
    EntryStarted(Seq<char>),
    Progress(ProgressView),
    EntryFinished(Seq<char>),
    Warning(Seq<char>),
    Finished,
}

impl View for ArchiveEvent {
    type V = EventView;

    open spec fn view(&self) -> EventView {
        match self {
            ArchiveEvent::Started(op) => EventView::Started(*op),
            ArchiveEvent::EntryStarted(name) => EventView::EntryStarted(name@),
            ArchiveEvent::Progress(info) => EventView::Progress(info@),
            ArchiveEvent::EntryFinished(name) => EventView::EntryFinished(name@),
            ArchiveEvent::Warning(message) => EventView::Warning(message@),
            ArchiveEvent::Finished => EventView::Finished,
        }
    }
}

/// Receives the events of an operation. Every method answers `Continue` and leaves the
/// handler as it is unless it is overridden, so an implementation overrides only the
/// events it cares for.
pub trait ArchiveHandler: Send {
    /// The operation begins.
    fn on_started(&mut self, op_type: OperationType) -> (action: ControlAction)
        default_ensures
            action == ControlAction::Continue,
            &*final(self) == &*old(self),
    {
        ControlAction::Continue
    }

    /// Work on the named entry begins.
    fn on_entry_started(&mut self, name: &str) -> (action: ControlAction)
        default_ensures
            action == ControlAction::Continue,
            &*final(self) == &*old(self),
    {
        ControlAction::Continue
    }

    /// A chunk has been processed.
    fn on_progress(&mut self, info: &ProgressInfo) -> (action: ControlAction)
        default_ensures
            action == ControlAction::Continue,
            &*final(self) == &*old(self),
    {
        ControlAction::Continue
    }

    /// The named entry is complete.
    fn on_entry_finished(&mut self, name: &str) -> (action: ControlAction)
        default_ensures
            action == ControlAction::Continue,
            &*final(self) == &*old(self),
    {
        ControlAction::Continue
    }

    /// Something went wrong that does not end the operation.
    fn on_warning(&mut self, message: &str) -> (action: ControlAction)
        default_ensures
            action == ControlAction::Continue,
            &*final(self) == &*old(self),
    {
        ControlAction::Continue
    }

    /// The operation is complete. The answer is not looked at.
    fn on_finished(&mut self) -> (action: ControlAction)
        default_ensures
            action == ControlAction::Continue,
            &*final(self) == &*old(self),
    {
        ControlAction::Continue
    }

    /// Hands the event to the method that is there for its kind: the answer is the
    /// answer of that method to what the event holds, and the handler is left as that
    /// method leaves it.
    fn on_event(&mut self, event: &ArchiveEvent) -> (action: ControlAction)
        default_ensures
            match event {
                ArchiveEvent::Started(op_type) => exists|handler: &mut Self|
                    &*handler == &*old(self) && &*final(handler) == &*final(self)
                        && #[trigger] call_ensures(Self::on_started, (handler, *op_type), action),
                ArchiveEvent::EntryStarted(name) => exists|handler: &mut Self, text: &str|
                    &*handler == &*old(self) && &*final(handler) == &*final(self) && text@
                        == name@ && #[trigger] call_ensures(
                        Self::on_entry_started,
                        (handler, text),
                        action,
                    ),
                ArchiveEvent::Progress(info) => exists|handler: &mut Self|
                    &*handler == &*old(self) && &*final(handler) == &*final(self)
                        && #[trigger] call_ensures(Self::on_progress, (handler, info), action),
                ArchiveEvent::EntryFinished(name) => exists|handler: &mut Self, text: &str|
                    &*handler == &*old(self) && &*final(handler) == &*final(self) && text@
                        == name@ && #[trigger] call_ensures(
                        Self::on_entry_finished,
                        (handler, text),
                        action,
                    ),
                ArchiveEvent::Warning(message) => exists|handler: &mut Self, text: &str|
                    &*handler == &*old(self) && &*final(handler) == &*final(self) && text@
                        == message@ && #[trigger] call_ensures(
                        Self::on_warning,
                        (handler, text),
                        action,
                    ),
                ArchiveEvent::Finished => exists|handler: &mut Self|
                    &*handler == &*old(self) && &*final(handler) == &*final(self)
                        && #[trigger] call_ensures(Self::on_finished, (handler,), action),
            },
    {
        match event {
            ArchiveEvent::Started(op_type) => self.on_started(*op_type),
            ArchiveEvent::EntryStarted(name) => self.on_entry_started(name.as_str()),
            ArchiveEvent::Progress(info) => self.on_progress(info),
            ArchiveEvent::EntryFinished(name) => self.on_entry_finished(name.as_str()),
            ArchiveEvent::Warning(message) => self.on_warning(message.as_str()),
            ArchiveEvent::Finished => self.on_finished(),
        }
    }
}

/// Whether `action` is an answer that a handler of the type `H` gives to an event with
/// the given value.
pub open spec fn answered<H: ArchiveHandler>(event: EventView, action: ControlAction) -> bool {
    exists|handler: &mut H, told: &ArchiveEvent|
        told@ == event && #[trigger] call_ensures(H::on_event, (handler, told), action)
}

/// Whether a handler of the type `H` gave an answer to an event with the given value.
pub open spec fn told<H: ArchiveHandler>(event: EventView) -> bool {
    exists|action: ControlAction| #[trigger] answered::<H>(event, action)
}

/// Whether a handler of the type `H` lets every operation go on: `Continue` is the only
/// answer that its `on_event` gives, whatever the event and the state of the handler.
pub open spec fn always_continues<H: ArchiveHandler>() -> bool {
    forall|handler: &mut H, event: &ArchiveEvent, action: ControlAction|
        #[trigger] call_ensures(H::on_event, (handler, event), action) ==> action
            == ControlAction::Continue
}

/// A handler that lets every operation run to its end.
pub struct NoOpHandler;

impl ArchiveHandler for NoOpHandler {
    fn on_event(&mut self, event: &ArchiveEvent) -> (action: ControlAction)
        ensures
            action == ControlAction::Continue,
    {
        ControlAction::Continue
    }
}

/// The handler that does nothing lets every operation go on.
pub proof fn lemma_noop_always_continues()
    ensures
        always_continues::<NoOpHandler>(),
{
}

} // verus!
