use pf8::builder::{PathKind, Pf8Builder};
use pf8::callbacks::{ArchiveHandler, ControlAction, NoOpHandler, OperationType, ProgressInfo};
use pf8::error::Error;
use pf8::reader::Pf8Reader;
use pf8::writer::{Pf8Writer, WriterState};

#[test]
fn test_empty_archive() {
    let builder = Pf8Builder::new();
    let result = builder.write_to_file(&[]);
    assert!(result.is_err());
    match result {
        Err(Error::InvalidFormat(m)) => assert_eq!(m, "No files to archive"),
        _ => panic!("expected InvalidFormat"),
    }
}

#[test]
fn empty_builder_writes_nothing() {
    let builder = Pf8Builder::new();
    let mut writer = Pf8Writer::create();
    assert!(matches!(builder.write_to_writer(&mut writer, &[]), Err(Error::InvalidFormat(_))));
    assert_eq!(writer.state(), WriterState::Created);
    assert!(writer.take_output().is_empty());
    let mut handler = NoOpHandler;
    assert!(matches!(
        builder.write_to_file_with_progress(&[], &mut handler),
        Err(Error::InvalidFormat(_))
    ));
}

#[test]
fn test_file_not_found_error() {
    let mut builder = Pf8Builder::new();
    let result = builder.add_file("/tmp/nonexistent.txt", PathKind::Missing);
    assert!(result.is_err());
    assert!(matches!(result, Err(Error::Io(_))));
    assert!(builder.is_empty());
}

#[test]
fn add_file_uses_file_name_without_base() {
    let mut builder = Pf8Builder::new();
    builder.add_file("/some/dir/file.txt", PathKind::File).unwrap();
    assert_eq!(builder.file_count(), 1);
    assert_eq!(
        builder.files(),
        &[("/some/dir/file.txt".to_string(), "file.txt".to_string())]
    );
}

#[test]
fn add_file_uses_path_below_base() {
    let mut builder = Pf8Builder::new();
    builder.base_path("/some");
    builder.add_file("/some/dir/file.txt", PathKind::File).unwrap();
    assert_eq!(builder.files()[0].1, "dir/file.txt");
    assert!(matches!(
        builder.add_file("/other/file.txt", PathKind::File),
        Err(Error::InvalidFormat(_))
    ));
    assert_eq!(builder.file_count(), 1);
}

#[test]
fn add_file_rejects_what_is_no_file() {
    let mut builder = Pf8Builder::new();
    assert!(matches!(builder.add_file("/d", PathKind::Directory), Err(Error::InvalidFormat(_))));
    assert!(matches!(builder.add_file("/d", PathKind::Other), Err(Error::InvalidFormat(_))));
    assert!(matches!(builder.add_file("/d/", PathKind::File), Err(Error::InvalidFormat(_))));
    assert!(matches!(
        builder.add_file_as("/d", "x", PathKind::Directory),
        Err(Error::InvalidFormat(_))
    ));
    assert!(matches!(builder.add_file_as("/d", "x", PathKind::Missing), Err(Error::Io(_))));
    assert!(builder.is_empty());
}

#[test]
fn add_dir_takes_paths_below_the_directory() {
    let mut builder = Pf8Builder::new();
    let files = vec!["/in/a.txt".to_string(), "/in/sub/b.txt".to_string()];
    builder.add_dir("/in", PathKind::Directory, &files).unwrap();
    assert_eq!(
        builder.files(),
        &[
            ("/in/a.txt".to_string(), "a.txt".to_string()),
            ("/in/sub/b.txt".to_string(), "sub/b.txt".to_string()),
        ]
    );
    builder.clear();
    assert!(builder.is_empty());
    builder.add_dir_as("/in", "game", PathKind::Directory, &files).unwrap();
    assert_eq!(builder.files()[0].1, "game/a.txt");
    assert_eq!(builder.files()[1].1, "game/sub/b.txt");
}

#[test]
fn add_dir_checks_the_directory() {
    let mut builder = Pf8Builder::new();
    assert!(matches!(builder.add_dir("/in", PathKind::Missing, &[]), Err(Error::Io(_))));
    assert!(matches!(builder.add_dir("/in", PathKind::File, &[]), Err(Error::InvalidFormat(_))));
    assert!(matches!(
        builder.add_dir_as("/in", "p", PathKind::Other, &[]),
        Err(Error::InvalidFormat(_))
    ));
    builder.add_dir("/in", PathKind::Directory, &[]).unwrap();
    assert!(builder.is_empty());
}

#[test]
fn add_dir_stops_at_file_outside() {
    let mut builder = Pf8Builder::new();
    let files =
        vec!["/in/a.txt".to_string(), "/out/b.txt".to_string(), "/in/c.txt".to_string()];
    assert!(matches!(
        builder.add_dir("/in", PathKind::Directory, &files),
        Err(Error::InvalidFormat(_))
    ));
    assert_eq!(builder.file_count(), 1);
    assert_eq!(builder.files()[0].1, "a.txt");
}

#[test]
fn sorted_indices_order_by_archive_path() {
    let mut builder = Pf8Builder::new();
    for name in ["b.txt", "a.txt", "a/z.txt", "a.b", "", "B.txt", "a.txt"] {
        builder.add_file_as("/src", name, PathKind::File).unwrap();
    }
    assert_eq!(builder.sorted_indices(), vec![4, 5, 3, 1, 6, 2, 0]);
}

#[test]
fn sorted_indices_order_by_code_point() {
    let mut builder = Pf8Builder::new();
    for name in ["é", "z", "日本", "~", "a"] {
        builder.add_file_as("/src", name, PathKind::File).unwrap();
    }
    let mut names: Vec<&str> = vec!["é", "z", "日本", "~", "a"];
    names.sort();
    let order = builder.sorted_indices();
    let sorted: Vec<&str> = order.iter().map(|&i| builder.files()[i].1.as_str()).collect();
    assert_eq!(sorted, names);
}

#[test]
fn archive_does_not_depend_on_the_order_of_adding() {
    let mut first = Pf8Builder::new();
    first.add_file_as("/src/b.txt", "b.txt", PathKind::File).unwrap();
    first.add_file_as("/src/a.txt", "a.txt", PathKind::File).unwrap();
    let one = first.write_to_file(&[b"content of b".to_vec(), b"content of a".to_vec()]).unwrap();

    let mut second = Pf8Builder::new();
    second.add_file_as("/src/a.txt", "a.txt", PathKind::File).unwrap();
    second.add_file_as("/src/b.txt", "b.txt", PathKind::File).unwrap();
    let two = second.write_to_file(&[b"content of a".to_vec(), b"content of b".to_vec()]).unwrap();

    assert_eq!(one, two);
    let reader = Pf8Reader::open(&one).unwrap();
    assert_eq!(reader.entries()[0].path(), "a.txt");
    assert_eq!(reader.entries()[1].path(), "b.txt");
    assert_eq!(reader.read_file("a.txt").unwrap(), b"content of a");
}

#[test]
fn build_entries_gives_running_offsets() {
    let mut builder = Pf8Builder::new();
    builder.unencrypted_extensions(&[".txt"]);
    builder.add_file_as("/s/2", "m.bin", PathKind::File).unwrap();
    builder.add_file_as("/s/1", "a.txt", PathKind::File).unwrap();
    builder.add_file_as("/s/3", "z.txt", PathKind::File).unwrap();
    let (entries, order) = builder.build_entries(&[20, 10, 30]).unwrap();
    assert_eq!(order, vec![1, 0, 2]);
    let got: Vec<(String, u32, u32, bool)> = entries
        .iter()
        .map(|e| (e.path().to_string(), e.offset(), e.size(), e.is_encrypted()))
        .collect();
    assert_eq!(
        got,
        vec![
            ("a.txt".to_string(), 0, 10, false),
            ("m.bin".to_string(), 10, 20, true),
            ("z.txt".to_string(), 30, 30, false),
        ]
    );
}

#[test]
fn build_entries_rejects_large_files() {
    let mut builder = Pf8Builder::new();
    builder.add_file_as("/s/1", "a", PathKind::File).unwrap();
    builder.add_file_as("/s/2", "b", PathKind::File).unwrap();
    assert!(matches!(
        builder.build_entries(&[u32::MAX as u64 + 1, 0]),
        Err(Error::InvalidFormat(_))
    ));
    assert!(matches!(
        builder.build_entries(&[u32::MAX as u64, 1]),
        Err(Error::InvalidFormat(_))
    ));
    assert!(matches!(builder.build_entries(&[1]), Err(Error::InvalidFormat(_))));
    assert!(builder.build_entries(&[u32::MAX as u64 - 1, 1]).is_ok());
}

#[test]
fn write_needs_one_source_for_each_file() {
    let mut builder = Pf8Builder::new();
    builder.add_file_as("/s/1", "a", PathKind::File).unwrap();
    assert!(matches!(builder.write_to_file(&[]), Err(Error::InvalidFormat(_))));
    assert!(matches!(
        builder.write_to_file(&[vec![1], vec![2]]),
        Err(Error::InvalidFormat(_))
    ));
}

#[test]
fn builder_refuses_a_writer_that_is_in_use() {
    let mut builder = Pf8Builder::new();
    builder.add_file_as("/s/1", "a", PathKind::File).unwrap();
    let mut writer = Pf8Writer::create();
    writer.write_header(&[]).unwrap();
    let before = writer.size();
    assert!(matches!(
        builder.write_to_writer(&mut writer, &[vec![1]]),
        Err(Error::InvalidFormat(_))
    ));
    assert_eq!(writer.size(), before);
    assert_eq!(writer.state(), WriterState::HeaderWritten);
}

struct Recorder {
    events: Vec<String>,
    abort_at: Option<usize>,
}

impl Recorder {
    fn note(&mut self, event: String) -> ControlAction {
        self.events.push(event);
        if Some(self.events.len()) == self.abort_at {
            ControlAction::Abort
        } else {
            ControlAction::Continue
        }
    }
}

impl ArchiveHandler for Recorder {
    fn on_started(&mut self, op: OperationType) -> ControlAction {
        self.note(format!("started {:?}", op))
    }

    fn on_entry_started(&mut self, name: &str) -> ControlAction {
        self.note(format!("entry {}", name))
    }

    fn on_progress(&mut self, info: &ProgressInfo) -> ControlAction {
        self.note(format!("progress {}", info.processed_bytes))
    }

    fn on_entry_finished(&mut self, name: &str) -> ControlAction {
        self.note(format!("done {}", name))
    }

    fn on_finished(&mut self) -> ControlAction {
        self.note("finished".to_string())
    }
}

fn two_files() -> (Pf8Builder, Vec<Vec<u8>>) {
    let mut builder = Pf8Builder::new();
    builder.add_file_as("/s/b", "b.bin", PathKind::File).unwrap();
    builder.add_file_as("/s/a", "a.bin", PathKind::File).unwrap();
    (builder, vec![vec![2u8; 700], vec![1u8; 3]])
}

#[test]
fn packing_with_progress_gives_the_same_archive() {
    let (builder, sources) = two_files();
    let plain = builder.write_to_file(&sources).unwrap();
    let mut handler = Recorder { events: Vec::new(), abort_at: None };
    let with_progress = builder.write_to_file_with_progress(&sources, &mut handler).unwrap();
    assert_eq!(with_progress, plain);
    assert_eq!(
        handler.events,
        vec!["started Pack", "entry a.bin", "done a.bin", "entry b.bin", "done b.bin", "finished"]
    );

    let mut writer = Pf8Writer::with_buffer_size(64);
    let mut handler = NoOpHandler;
    builder.write_to_writer_with_progress(&mut writer, &sources, &mut handler).unwrap();
    assert!(writer.is_finalized());
    assert_eq!(writer.take_output(), plain);
}

#[test]
fn abort_at_start_writes_nothing() {
    let (builder, sources) = two_files();
    let mut writer = Pf8Writer::create();
    let mut handler = Recorder { events: Vec::new(), abort_at: Some(1) };
    let res = builder.write_to_writer_with_progress(&mut writer, &sources, &mut handler);
    assert!(matches!(res, Err(Error::Cancelled)));
    assert_eq!(writer.state(), WriterState::Created);
    assert!(writer.take_output().is_empty());
    assert_eq!(handler.events, vec!["started Pack"]);
}

#[test]
fn abort_at_second_entry_keeps_what_is_written() {
    let (builder, sources) = two_files();
    let whole = builder.write_to_file(&sources).unwrap();
    let mut writer = Pf8Writer::create();
    let mut handler = Recorder { events: Vec::new(), abort_at: Some(4) };
    let res = builder.write_to_writer_with_progress(&mut writer, &sources, &mut handler);
    assert!(matches!(res, Err(Error::Cancelled)));
    assert_eq!(writer.state(), WriterState::WritingData);
    let written = writer.take_output();
    assert_eq!(written.len(), whole.len() - 700);
    assert_eq!(written[..], whole[..written.len()]);
    assert_eq!(handler.events, vec!["started Pack", "entry a.bin", "done a.bin", "entry b.bin"]);
}

#[test]
fn refused_pack_fails_before_the_handler_is_asked() {
    let mut handler = Recorder { events: Vec::new(), abort_at: Some(1) };
    let empty = Pf8Builder::new();
    let mut writer = Pf8Writer::create();
    assert!(matches!(
        empty.write_to_writer_with_progress(&mut writer, &[], &mut handler),
        Err(Error::InvalidFormat(_))
    ));
    assert!(matches!(
        empty.write_to_file_with_progress(&[], &mut handler),
        Err(Error::InvalidFormat(_))
    ));

    let (builder, mut sources) = two_files();
    sources.pop();
    assert!(matches!(
        builder.write_to_writer_with_progress(&mut writer, &sources, &mut handler),
        Err(Error::InvalidFormat(_))
    ));
    assert!(matches!(
        builder.write_to_file_with_progress(&sources, &mut handler),
        Err(Error::InvalidFormat(_))
    ));
    assert!(handler.events.is_empty());
    assert_eq!(writer.state(), WriterState::Created);
    assert!(writer.take_output().is_empty());
}

#[test]
fn abort_at_first_entry_leaves_the_header_alone() {
    let (builder, sources) = two_files();
    let whole = builder.write_to_file(&sources).unwrap();
    let mut writer = Pf8Writer::create();
    let mut handler = Recorder { events: Vec::new(), abort_at: Some(2) };
    let res = builder.write_to_writer_with_progress(&mut writer, &sources, &mut handler);
    assert!(matches!(res, Err(Error::Cancelled)));
    let written = writer.take_output();
    assert_eq!(written.len(), whole.len() - 703);
    assert_eq!(written[..], whole[..written.len()]);
    assert_eq!(handler.events, vec!["started Pack", "entry a.bin"]);

    let mut handler = Recorder { events: Vec::new(), abort_at: Some(2) };
    assert!(matches!(
        builder.write_to_file_with_progress(&sources, &mut handler),
        Err(Error::Cancelled)
    ));
}
