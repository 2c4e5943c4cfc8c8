use pf8::callbacks::{
    ArchiveEvent, ArchiveHandler, ControlAction, NoOpHandler, OperationType, ProgressInfo,
};
use pf8::operation::{Operation, Phase, Step};

fn describe(step: &Step) -> String {
    match step {
        Step::Notify(ArchiveEvent::Started(op)) => format!("started {:?}", op),
        Step::Notify(ArchiveEvent::EntryStarted(name)) => format!("entry {}", name),
        Step::Notify(ArchiveEvent::Progress(info)) => format!(
            "progress {}/{} {}/{} {}",
            info.processed_bytes,
            info.total_bytes.unwrap(),
            info.processed_files,
            info.total_files.unwrap(),
            info.current_file
        ),
        Step::Notify(ArchiveEvent::EntryFinished(name)) => format!("done {}", name),
        Step::Notify(ArchiveEvent::Warning(m)) => format!("warning {}", m),
        Step::Notify(ArchiveEvent::Finished) => "finished".to_string(),
        Step::WriteHeader => "header".to_string(),
        Step::OpenEntry { index } => format!("open {}", index),
        Step::Transfer { index, local_offset, len } => {
            format!("transfer {} {}+{}", index, local_offset, len)
        }
        Step::Finalize => "finalize".to_string(),
        Step::Finish => "finish".to_string(),
        Step::Cancel => "cancel".to_string(),
    }
}

fn run(op: &mut Operation, abort_at: Option<usize>, limit: usize) -> Vec<String> {
    let mut steps = Vec::new();
    let mut answer = ControlAction::Continue;
    for _ in 0..limit {
        let step = op.next(answer);
        steps.push(describe(&step));
        answer = if Some(steps.len()) == abort_at {
            ControlAction::Abort
        } else {
            ControlAction::Continue
        };
        if matches!(step, Step::Finish | Step::Cancel) {
            break;
        }
    }
    steps
}

fn names() -> Vec<String> {
    vec!["a".to_string(), "b".to_string()]
}

#[test]
fn unpack_runs_through_all_steps() {
    let mut op = Operation::new(OperationType::Unpack, names(), vec![5, 0], 2);
    assert_eq!(op.phase(), Phase::Created);
    let steps = run(&mut op, None, 100);
    assert_eq!(
        steps,
        vec![
            "started Unpack",
            "entry a",
            "open 0",
            "transfer 0 0+2",
            "progress 2/5 1/2 a",
            "transfer 0 2+2",
            "progress 4/5 1/2 a",
            "transfer 0 4+1",
            "progress 5/5 1/2 a",
            "done a",
            "entry b",
            "open 1",
            "transfer 1 0+0",
            "progress 5/5 2/2 b",
            "done b",
            "finished",
            "finish",
        ]
    );
    assert_eq!(op.phase(), Phase::Done);
    assert!(matches!(op.next(ControlAction::Abort), Step::Finish));
}

#[test]
fn pack_asks_for_header_and_end() {
    let mut op = Operation::new(OperationType::Pack, names(), vec![5, 0], 4);
    let steps = run(&mut op, None, 100);
    assert_eq!(
        steps,
        vec![
            "started Pack",
            "header",
            "entry a",
            "open 0",
            "transfer 0 0+4",
            "transfer 0 4+1",
            "done a",
            "entry b",
            "open 1",
            "transfer 1 0+0",
            "done b",
            "finalize",
            "finished",
            "finish",
        ]
    );
}

#[test]
fn operation_without_entries() {
    let mut op = Operation::new(OperationType::Unpack, vec![], vec![], 1);
    assert_eq!(run(&mut op, None, 100), vec!["started Unpack", "finished", "finish"]);
    let mut op = Operation::new(OperationType::Pack, vec![], vec![], 1);
    assert_eq!(
        run(&mut op, None, 100),
        vec!["started Pack", "header", "finalize", "finished", "finish"]
    );
}

#[test]
fn abort_is_honoured_behind_every_event_but_the_last() {
    let all = {
        let mut op = Operation::new(OperationType::Unpack, names(), vec![5, 0], 2);
        run(&mut op, None, 100)
    };
    for at in 1..=all.len() {
        let mut op = Operation::new(OperationType::Unpack, names(), vec![5, 0], 2);
        let steps = run(&mut op, Some(at), 100);
        let event = &all[at - 1];
        let is_event = !(event.starts_with("open")
            || event.starts_with("transfer")
            || event == "finish"
            || event == "finished");
        if is_event {
            assert_eq!(steps.len(), at + 1, "abort behind {}", event);
            assert_eq!(steps[..at], all[..at]);
            assert_eq!(steps[at], "cancel");
            assert_eq!(op.phase(), Phase::Cancelled);
            assert!(matches!(op.next(ControlAction::Continue), Step::Cancel));
            assert!(matches!(op.next(ControlAction::Continue), Step::Cancel));
        } else {
            assert_eq!(steps, all, "abort behind {} is not looked at", event);
        }
    }
}

#[test]
fn abort_at_second_entry_started_cancels_before_it_is_opened() {
    let mut op = Operation::new(OperationType::Unpack, names(), vec![1, 1], 8);
    let steps = run(&mut op, Some(7), 100);
    assert_eq!(
        steps,
        vec![
            "started Unpack",
            "entry a",
            "open 0",
            "transfer 0 0+1",
            "progress 1/2 1/2 a",
            "done a",
            "entry b",
            "cancel",
        ]
    );
}

struct OnlyProgress {
    seen: u64,
}

impl ArchiveHandler for OnlyProgress {
    fn on_progress(&mut self, info: &ProgressInfo) -> ControlAction {
        self.seen = info.processed_bytes;
        ControlAction::Abort
    }
}

#[test]
fn handler_methods_default_to_continue() {
    let mut h = OnlyProgress { seen: 0 };
    assert_eq!(h.on_started(OperationType::Pack), ControlAction::Continue);
    assert_eq!(h.on_entry_started("x"), ControlAction::Continue);
    assert_eq!(h.on_entry_finished("x"), ControlAction::Continue);
    assert_eq!(h.on_warning("w"), ControlAction::Continue);
    assert_eq!(h.on_finished(), ControlAction::Continue);
    let info = ProgressInfo {
        processed_bytes: 7,
        total_bytes: None,
        processed_files: 1,
        total_files: None,
        current_file: "x".to_string(),
    };
    assert_eq!(h.on_event(&ArchiveEvent::Progress(info.clone())), ControlAction::Abort);
    assert_eq!(h.seen, 7);
    assert_eq!(h.on_event(&ArchiveEvent::Started(OperationType::Unpack)), ControlAction::Continue);
    assert_eq!(h.on_event(&ArchiveEvent::Finished), ControlAction::Continue);
    let mut noop = NoOpHandler;
    assert_eq!(noop.on_event(&ArchiveEvent::Progress(info)), ControlAction::Continue);
    assert_eq!(noop.on_event(&ArchiveEvent::Warning("w".to_string())), ControlAction::Continue);
}
