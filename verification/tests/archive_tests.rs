use pf8::archive::{
    create_from_dir, create_from_dir_with_patterns, extract, extract_with_patterns,
    extract_with_progress, Pf8Archive,
};
use pf8::builder::{PathKind, Pf8Builder};
use pf8::callbacks::{ArchiveHandler, ControlAction, NoOpHandler};
use pf8::crypto::generate_key;
use pf8::error::Error;
use pf8::extract::ExtractedFile;
use pf8::format::ArchiveFormat;
use pf8::reader::Pf8Reader;

/// A directory in memory: the paths of its regular files and their contents.
struct Tree {
    root: String,
    files: Vec<String>,
    contents: Vec<Vec<u8>>,
}

impl Tree {
    fn new(root: &str) -> Tree {
        Tree { root: root.to_string(), files: Vec::new(), contents: Vec::new() }
    }

    fn write(&mut self, relative: &str, content: &[u8]) {
        self.files.push(format!("{}/{}", self.root, relative));
        self.contents.push(content.to_vec());
    }

    fn pack(&self, patterns: &[&str]) -> Vec<u8> {
        let mut builder = Pf8Builder::new();
        builder.unencrypted_extensions(patterns);
        builder.add_dir(&self.root, PathKind::Directory, &self.files).unwrap();
        builder.write_to_file(&self.contents).unwrap()
    }
}

fn find<'a>(files: &'a [ExtractedFile], path: &str) -> &'a [u8] {
    for f in files {
        if f.path == path {
            return &f.data;
        }
    }
    panic!("no file {}", path);
}

#[test]
fn test_create_and_read_simple_archive() {
    let mut input = Tree::new("/tmp/input");
    input.write("file1.txt", b"Hello, World!");
    input.write("file2.bin", b"\x00\x01\x02\x03");
    input.write("subdir/file3.txt", b"Nested file content");

    let archive_bytes = input.pack(&[".txt"]);

    let archive = Pf8Archive::open_with_patterns(&archive_bytes, &[".txt"]).unwrap();
    let reader = archive.reader();

    assert_eq!(reader.len(), 3);
    assert!(reader.contains("file1.txt"));
    assert!(reader.contains("file2.bin"));
    assert!(reader.contains("subdir/file3.txt"));

    assert_eq!(reader.read_file("file1.txt").unwrap(), b"Hello, World!");
    assert_eq!(reader.read_file("file2.bin").unwrap(), b"\x00\x01\x02\x03");
    assert_eq!(reader.read_file("subdir/file3.txt").unwrap(), b"Nested file content");

    let mut output = Vec::new();
    reader.extract_all("/tmp/output", &mut output).unwrap();
    assert_eq!(output.len(), 3);
    assert_eq!(find(&output, "/tmp/output/file1.txt"), b"Hello, World!");
    assert_eq!(find(&output, "/tmp/output/file2.bin"), b"\x00\x01\x02\x03");
    assert_eq!(find(&output, "/tmp/output/subdir/file3.txt"), b"Nested file content");
}

#[test]
fn test_convenience_functions() {
    let files = vec!["/in/test.txt".to_string()];
    let contents = vec![b"Test content".to_vec()];
    let archive = create_from_dir("/in", PathKind::Directory, &files, &contents).unwrap();

    let mut output = Vec::new();
    extract(&archive, "/out", &mut output).unwrap();
    assert_eq!(output.len(), 1);
    assert_eq!(output[0].path, "/out/test.txt");
    assert_eq!(output[0].data, b"Test content");
}

#[test]
fn test_builder_add_file_as() {
    let mut builder = Pf8Builder::new();
    builder.add_file_as("/tmp/input.txt", "custom/path/file.txt", PathKind::File).unwrap();
    let archive_bytes = builder.write_to_file(&[b"File content".to_vec()]).unwrap();

    let archive = Pf8Archive::open(&archive_bytes).unwrap();
    assert!(archive.reader().contains("custom/path/file.txt"));
    assert_eq!(archive.reader().read_file("custom/path/file.txt").unwrap(), b"File content");
}

#[test]
fn test_encryption_patterns() {
    let mut input = Tree::new("/tmp/input");
    input.write("config.txt", b"Config data");
    input.write("data.bin", b"Binary data");
    let archive_bytes = input.pack(&[".txt"]);

    let archive = Pf8Archive::open_with_patterns(&archive_bytes, &[".txt"]).unwrap();
    assert_eq!(archive.reader().read_file("config.txt").unwrap(), b"Config data");
    assert_eq!(archive.reader().read_file("data.bin").unwrap(), b"Binary data");
}

#[test]
fn test_reader_low_level_api() {
    let files = vec!["/in/test.txt".to_string()];
    let contents = vec![b"Test content".to_vec()];
    let archive = create_from_dir("/in", PathKind::Directory, &files, &contents).unwrap();

    let reader = Pf8Reader::open(&archive).unwrap();
    assert_eq!(reader.len(), 1);
    assert!(!reader.is_empty());

    let entry = reader.get_entry("test.txt").unwrap();
    assert_eq!(entry.size(), 12);
    assert_eq!(entry.file_name().unwrap(), "test.txt");

    assert_eq!(reader.read_file("test.txt").unwrap(), b"Test content");
}

#[test]
fn test_pack_unpack_integrity() {
    let mut source = Tree::new("/orig");
    let readme = "This is a readme file\nwith multiple lines\nand UTF-8 content: 你好世界";
    source.write("readme.txt", readme.as_bytes());
    source.write("config.ini", b"[section]\nkey=value\nother_key=other_value");
    source.write("data.bin", &[0u8, 1, 2, 3, 255, 254, 253, 128, 127]);
    source.write("image.jpg", b"\xFF\xD8\xFF\xE0\x00\x10JFIF\x00\x01");
    source.write("empty.txt", b"");
    let large = "Lorem ipsum dolor sit amet, consectetur adipiscing elit. ".repeat(1000);
    source.write("large.txt", large.as_bytes());
    source.write("nested/deep/structure/nested_file.txt", b"Deep nested content");
    source.write("nested/deep/structure/binary.dat", &[42u8; 256]);
    source.write("special/file with spaces.txt", b"Content with spaces");
    source.write("special/file-with-dashes.txt", b"Content with dashes");
    source.write("special/file_with_underscores.txt", b"Content with underscores");

    let archive_bytes = source.pack(&[".txt", ".ini", ".md"]);

    let archive =
        Pf8Archive::open_with_patterns(&archive_bytes, &[".txt", ".ini", ".md"]).unwrap();
    let reader = archive.reader();
    let mut extracted = Vec::new();
    reader.extract_all("/orig", &mut extracted).unwrap();

    assert_eq!(extracted.len(), source.files.len());
    for (path, content) in source.files.iter().zip(source.contents.iter()) {
        assert_eq!(find(&extracted, path), &content[..], "File content mismatch: {}", path);
    }

    assert_eq!(reader.len(), 11);
    assert_eq!(reader.read_file("readme.txt").unwrap(), readme.as_bytes());
    assert_eq!(
        reader.read_file("data.bin").unwrap(),
        [0u8, 1, 2, 3, 255, 254, 253, 128, 127]
    );
    assert_eq!(reader.read_file("empty.txt").unwrap(), b"");
    assert_eq!(
        reader.read_file("nested/deep/structure/nested_file.txt").unwrap(),
        b"Deep nested content"
    );

    assert!(!reader.get_entry("readme.txt").unwrap().is_encrypted());
    assert!(reader.get_entry("data.bin").unwrap().is_encrypted());
    assert!(!reader.get_entry("config.ini").unwrap().is_encrypted());
}

#[test]
fn readme_and_data_scenario() {
    let mut dir = Tree::new("/d");
    dir.write("readme.txt", b"hello");
    dir.write("data.bin", &[0, 1, 2, 3]);
    let bytes = dir.pack(&[".txt"]);

    let reader = Pf8Reader::open_with_unencrypted_patterns(&bytes, &[".txt"]).unwrap();
    assert_eq!(reader.len(), 2);
    assert!(!reader.get_entry("readme.txt").unwrap().is_encrypted());
    assert!(reader.get_entry("data.bin").unwrap().is_encrypted());
    assert_eq!(reader.read_file("readme.txt").unwrap(), b"hello");
    assert_eq!(reader.read_file("data.bin").unwrap(), [0, 1, 2, 3]);

    // The readme lies in the archive as it is, the data does not.
    let readme = reader.get_entry("readme.txt").unwrap();
    let start = readme.offset() as usize;
    assert_eq!(&bytes[start..start + 5], b"hello");
    let data = reader.get_entry("data.bin").unwrap();
    let start = data.offset() as usize;
    let key = generate_key(&bytes, u32::from_le_bytes([bytes[3], bytes[4], bytes[5], bytes[6]]));
    let stored: Vec<u8> = [0u8, 1, 2, 3].iter().zip(key.iter()).map(|(b, k)| b ^ k).collect();
    assert_eq!(&bytes[start..start + 4], &stored[..]);
}

#[test]
fn archive_bytes_are_exact() {
    let mut builder = Pf8Builder::new();
    builder.unencrypted_extensions(&[".txt"]);
    builder.add_file_as("/src/a.txt", "a.txt", PathKind::File).unwrap();
    let bytes = builder.write_to_file(&[b"hello".to_vec()]).unwrap();

    let mut expected: Vec<u8> = Vec::new();
    expected.extend_from_slice(b"pf8");
    expected.extend_from_slice(&49u32.to_le_bytes());
    expected.extend_from_slice(&1u32.to_le_bytes());
    expected.extend_from_slice(&5u32.to_le_bytes());
    expected.extend_from_slice(b"a.txt");
    expected.extend_from_slice(&[0, 0, 0, 0]);
    expected.extend_from_slice(&56u32.to_le_bytes());
    expected.extend_from_slice(&5u32.to_le_bytes());
    expected.extend_from_slice(&2u32.to_le_bytes());
    expected.extend_from_slice(&17u64.to_le_bytes());
    expected.extend_from_slice(&0u64.to_le_bytes());
    expected.extend_from_slice(&25u32.to_le_bytes());
    expected.extend_from_slice(b"hello");
    assert_eq!(bytes, expected);
}

#[test]
fn archive_paths_are_written_with_backslashes() {
    let mut builder = Pf8Builder::new();
    builder.add_file_as("/src/x", "dir/sub/x.bin", PathKind::File).unwrap();
    let bytes = builder.write_to_file(&[vec![1, 2, 3]]).unwrap();
    let reader = Pf8Reader::open(&bytes).unwrap();
    assert_eq!(reader.entries()[0].pf8_path(), "dir\\sub\\x.bin");
    assert_eq!(reader.entries()[0].path(), "dir/sub/x.bin");
}

#[test]
fn keys_of_archives_with_equal_index_are_equal() {
    let mut a = Tree::new("/a");
    a.write("one.bin", b"AAAA");
    a.write("two.bin", b"BBBBBB");
    let mut b = Tree::new("/b");
    b.write("one.bin", b"zzzz");
    b.write("two.bin", b"yyyyyy");
    let bytes_a = a.pack(&[]);
    let bytes_b = b.pack(&[]);
    assert_ne!(bytes_a, bytes_b);
    let index_size = u32::from_le_bytes([bytes_a[3], bytes_a[4], bytes_a[5], bytes_a[6]]);
    assert_eq!(generate_key(&bytes_a, index_size), generate_key(&bytes_b, index_size));
    let end = 7 + index_size as usize;
    assert_eq!(bytes_a[..end], bytes_b[..end]);
}

#[test]
fn pf6_entries_are_never_encrypted() {
    let mut dir = Tree::new("/d");
    dir.write("data.bin", b"plain bytes");
    dir.write("movie.mp4", b"frames");
    let mut bytes = dir.pack(&[".bin", "mp4"]);
    bytes[2] = b'6';

    let reader = Pf8Reader::open_with_unencrypted_patterns(&bytes, &[]).unwrap();
    assert_eq!(reader.format(), ArchiveFormat::Pf6);
    assert!(!reader.is_encrypted());
    for entry in reader.entries() {
        assert!(!entry.is_encrypted());
    }
    assert_eq!(reader.read_file("data.bin").unwrap(), b"plain bytes");
    assert_eq!(reader.read_file("movie.mp4").unwrap(), b"frames");
}

#[test]
fn pf8_classification_follows_patterns() {
    let mut dir = Tree::new("/d");
    dir.write("a.txt", b"1");
    dir.write("b.txt.bak", b"2");
    dir.write("movies/c.bin", b"3");
    dir.write("d.bin", b"4");
    let bytes = dir.pack(&[".txt", "movies"]);
    let reader = Pf8Reader::open_with_unencrypted_patterns(&bytes, &[".txt", "movies"]).unwrap();
    assert_eq!(reader.format(), ArchiveFormat::Pf8);
    assert!(reader.is_encrypted());
    assert!(!reader.get_entry("a.txt").unwrap().is_encrypted());
    assert!(reader.get_entry("b.txt.bak").unwrap().is_encrypted());
    assert!(!reader.get_entry("movies/c.bin").unwrap().is_encrypted());
    assert!(reader.get_entry("d.bin").unwrap().is_encrypted());
}

#[test]
fn default_patterns_exempt_videos() {
    let mut dir = Tree::new("/d");
    dir.write("intro.mp4", b"video");
    dir.write("script.txt", b"text");
    let bytes = dir.pack(&[]);
    let reader = Pf8Reader::open(&bytes).unwrap();
    assert!(!reader.get_entry("intro.mp4").unwrap().is_encrypted());
    assert!(reader.get_entry("script.txt").unwrap().is_encrypted());
    let start = reader.get_entry("intro.mp4").unwrap().offset() as usize;
    assert_eq!(&bytes[start..start + 5], b"video");
}

#[test]
fn open_rejects_foreign_magic() {
    assert!(matches!(Pf8Reader::open(b"zip archive bytes"), Err(Error::InvalidFormat(_))));
    assert!(matches!(Pf8Reader::open(b""), Err(Error::InvalidFormat(_))));
    assert!(matches!(Pf8Reader::open(b"PF8\x00\x00\x00\x00\x00\x00\x00\x00"), Err(Error::InvalidFormat(_))));
    assert!(matches!(Pf8Archive::open(b"not an archive"), Err(Error::InvalidFormat(_))));
}

#[test]
fn open_rejects_truncated_index() {
    let mut dir = Tree::new("/d");
    dir.write("a.bin", b"abcdef");
    let bytes = dir.pack(&[]);
    assert!(matches!(Pf8Reader::open(&bytes[..5]), Err(Error::Io(_))));
    assert!(matches!(Pf8Reader::open(&bytes[..20]), Err(Error::Io(_))));
    let index_end = 7 + u32::from_le_bytes([bytes[3], bytes[4], bytes[5], bytes[6]]) as usize;
    assert!(matches!(Pf8Reader::open(&bytes[..index_end - 1]), Err(Error::Io(_))));
    assert!(Pf8Reader::open(&bytes[..index_end]).is_ok());
}

#[test]
fn open_rejects_index_that_lies_about_its_count() {
    let mut dir = Tree::new("/d");
    dir.write("a.bin", b"1");
    dir.write("b.bin", b"2");
    dir.write("c.bin", b"3");
    let mut bytes = dir.pack(&[]);
    bytes[7..11].copy_from_slice(&5u32.to_le_bytes());
    assert!(matches!(Pf8Reader::open(&bytes), Err(Error::Corrupted(_))));
}

#[test]
fn open_rejects_name_that_is_not_utf8() {
    let mut dir = Tree::new("/d");
    dir.write("ab.bin", b"1");
    let mut bytes = dir.pack(&[]);
    bytes[15] = 0xff;
    assert!(matches!(Pf8Reader::open(&bytes), Err(Error::InvalidUtf8)));
}

#[test]
fn open_rejects_index_without_room_for_its_count() {
    let bytes = [b'p', b'f', b'8', 3, 0, 0, 0, 0, 0, 0, 0];
    assert!(matches!(Pf8Reader::open(&bytes), Err(Error::InvalidFormat(_))));
}

#[test]
fn read_file_reports_missing_entry() {
    let mut dir = Tree::new("/d");
    dir.write("a.bin", b"abc");
    let bytes = dir.pack(&[]);
    let reader = Pf8Reader::open(&bytes).unwrap();
    match reader.read_file("missing.bin") {
        Err(Error::FileNotFound(name)) => assert_eq!(name, "missing.bin"),
        other => panic!("expected FileNotFound, got {:?}", other),
    }
    assert!(!reader.contains("missing.bin"));
    assert!(reader.get_entry("A.BIN").is_none());
}

#[test]
fn read_file_reports_payload_out_of_bounds() {
    let mut dir = Tree::new("/d");
    dir.write("a.bin", b"abcdef");
    dir.write("b.bin", b"ghi");
    let bytes = dir.pack(&[]);
    let truncated = &bytes[..bytes.len() - 2];
    let reader = Pf8Reader::open(truncated).unwrap();
    assert_eq!(reader.read_file("a.bin").unwrap(), b"abcdef");
    assert!(matches!(reader.read_file("b.bin"), Err(Error::Corrupted(_))));

    let mut output = Vec::new();
    assert!(matches!(reader.extract_all("out", &mut output), Err(Error::Corrupted(_))));
    assert_eq!(output.len(), 1);
    assert_eq!(output[0].path, "out/a.bin");
    assert_eq!(output[0].data, b"abcdef");
}

#[test]
fn last_entry_wins_on_duplicate_paths() {
    let mut builder = Pf8Builder::new();
    builder.add_file_as("/src/first", "same.bin", PathKind::File).unwrap();
    builder.add_file_as("/src/second", "same.bin", PathKind::File).unwrap();
    let bytes = builder.write_to_file(&[b"first".to_vec(), b"second!".to_vec()]).unwrap();
    let reader = Pf8Reader::open(&bytes).unwrap();
    assert_eq!(reader.len(), 2);
    assert_eq!(reader.read_file("same.bin").unwrap(), b"second!");
    assert_eq!(reader.get_entry("same.bin").unwrap().size(), 7);
}

#[test]
fn streaming_read_hands_out_chunks_in_order() {
    let content: Vec<u8> = (0..1000).map(|i| (i % 256) as u8).collect();
    let mut dir = Tree::new("/d");
    dir.write("big.bin", &content);
    dir.write("small.bin", b"xy");
    dir.write("empty.bin", b"");
    let bytes = dir.pack(&[]);
    let reader = Pf8Reader::open(&bytes).unwrap().with_buffer_size(300);
    assert_eq!(reader.buffer_size(), 300);

    let mut chunks: Vec<Vec<u8>> = Vec::new();
    reader
        .read_file_streaming("big.bin", |chunk| {
            chunks.push(chunk.to_vec());
            Ok(())
        })
        .unwrap();
    let sizes: Vec<usize> = chunks.iter().map(|c| c.len()).collect();
    assert_eq!(sizes, vec![300, 300, 300, 100]);
    assert_eq!(chunks.concat(), content);

    let mut chunks: Vec<Vec<u8>> = Vec::new();
    reader
        .read_file_streaming("small.bin", |chunk| {
            chunks.push(chunk.to_vec());
            Ok(())
        })
        .unwrap();
    assert_eq!(chunks, vec![b"xy".to_vec()]);

    let mut calls = 0;
    reader
        .read_file_streaming("empty.bin", |chunk| {
            assert!(chunk.is_empty());
            calls += 1;
            Ok(())
        })
        .unwrap();
    assert_eq!(calls, 1);
}

#[test]
fn streaming_read_stops_at_callback_error() {
    let content = vec![7u8; 1000];
    let mut dir = Tree::new("/d");
    dir.write("big.bin", &content);
    let bytes = dir.pack(&[]);
    let reader = Pf8Reader::open(&bytes).unwrap().with_buffer_size(100);
    let mut calls = 0;
    let res = reader.read_file_streaming("big.bin", |_| {
        calls += 1;
        if calls == 3 {
            Err(Error::Io("disk full".to_string()))
        } else {
            Ok(())
        }
    });
    assert!(matches!(res, Err(Error::Io(m)) if m == "disk full"));
    assert_eq!(calls, 3);
    let res = reader.read_file_streaming("nothing", |_| Ok(()));
    assert!(matches!(res, Err(Error::FileNotFound(_))));
}

#[test]
fn read_chunk_decrypts_at_entry_local_offset() {
    let content: Vec<u8> = (0..100).collect();
    let mut dir = Tree::new("/d");
    dir.write("first.bin", b"some bytes before");
    dir.write("second.bin", &content);
    let bytes = dir.pack(&[]);
    let reader = Pf8Reader::open(&bytes).unwrap();
    let entry = reader.get_entry("second.bin").unwrap();
    assert!(entry.is_encrypted());
    assert_eq!(reader.read_chunk(entry, 0, 100).unwrap(), content);
    assert_eq!(reader.read_chunk(entry, 33, 20).unwrap(), content[33..53]);
    assert_eq!(reader.read_chunk(entry, 90, 50).unwrap(), content[90..]);
    assert!(reader.read_chunk(entry, 100, 50).unwrap().is_empty());
    assert!(matches!(reader.read_chunk(entry, 101, 1), Err(Error::Corrupted(_))));
}

#[test]
fn extract_file_appends_one_file() {
    let mut dir = Tree::new("/d");
    dir.write("a.bin", b"abc");
    dir.write("b.bin", b"defg");
    let bytes = dir.pack(&[]);
    let archive = Pf8Archive::open(&bytes).unwrap();
    let mut output = Vec::new();
    archive.extract_file("b.bin", "/out/renamed.bin", &mut output).unwrap();
    assert_eq!(output.len(), 1);
    assert_eq!(output[0].path, "/out/renamed.bin");
    assert_eq!(output[0].data, b"defg");
    assert!(matches!(
        archive.extract_file("c.bin", "/out/c.bin", &mut output),
        Err(Error::FileNotFound(_))
    ));
    assert_eq!(output.len(), 1);
    let mut handler = NoOpHandler;
    archive
        .extract_file_with_progress("a.bin", "/out/a.bin", &mut output, &mut handler)
        .unwrap();
    assert_eq!(output.len(), 2);
    assert_eq!(output[1].data, b"abc");
}

#[test]
fn extract_with_patterns_must_match_the_patterns_of_packing() {
    let files = vec!["/in/a.dat".to_string()];
    let contents = vec![b"secret".to_vec()];
    let archive =
        create_from_dir_with_patterns("/in", PathKind::Directory, &files, &contents, &[".dat"])
            .unwrap();
    let mut output = Vec::new();
    extract_with_patterns(&archive, "", &[".dat"], &mut output).unwrap();
    assert_eq!(output[0].path, "a.dat");
    assert_eq!(output[0].data, b"secret");
    let mut output = Vec::new();
    extract(&archive, "", &mut output).unwrap();
    assert_ne!(output[0].data, b"secret");
}

#[test]
fn create_from_dir_checks_the_directory() {
    let files = vec!["/in/a".to_string()];
    let contents = vec![b"x".to_vec()];
    assert!(matches!(
        create_from_dir("/in", PathKind::Missing, &files, &contents),
        Err(Error::Io(_))
    ));
    assert!(matches!(
        create_from_dir("/in", PathKind::File, &files, &contents),
        Err(Error::InvalidFormat(_))
    ));
    assert!(matches!(
        create_from_dir("/elsewhere", PathKind::Directory, &files, &contents),
        Err(Error::InvalidFormat(_))
    ));
    assert!(matches!(
        create_from_dir("/in", PathKind::Directory, &[], &[]),
        Err(Error::InvalidFormat(_))
    ));
}

struct Counting {
    started: usize,
    entries_started: Vec<String>,
    entries_finished: Vec<String>,
    progress: Vec<(u64, Option<u64>, usize, Option<usize>, String)>,
    finished: usize,
    abort_at_entry: Option<usize>,
    abort_at_progress: Option<usize>,
}

impl Counting {
    fn new() -> Counting {
        Counting {
            started: 0,
            entries_started: Vec::new(),
            entries_finished: Vec::new(),
            progress: Vec::new(),
            finished: 0,
            abort_at_entry: None,
            abort_at_progress: None,
        }
    }
}

impl ArchiveHandler for Counting {
    fn on_started(&mut self, _op: pf8::callbacks::OperationType) -> ControlAction {
        self.started += 1;
        ControlAction::Continue
    }

    fn on_entry_started(&mut self, name: &str) -> ControlAction {
        self.entries_started.push(name.to_string());
        if Some(self.entries_started.len()) == self.abort_at_entry {
            ControlAction::Abort
        } else {
            ControlAction::Continue
        }
    }

    fn on_progress(&mut self, info: &pf8::callbacks::ProgressInfo) -> ControlAction {
        self.progress.push((
            info.processed_bytes,
            info.total_bytes,
            info.processed_files,
            info.total_files,
            info.current_file.clone(),
        ));
        if Some(self.progress.len()) == self.abort_at_progress {
            ControlAction::Abort
        } else {
            ControlAction::Continue
        }
    }

    fn on_entry_finished(&mut self, name: &str) -> ControlAction {
        self.entries_finished.push(name.to_string());
        ControlAction::Continue
    }

    fn on_finished(&mut self) -> ControlAction {
        self.finished += 1;
        ControlAction::Abort
    }
}

fn three_files() -> Vec<u8> {
    let mut dir = Tree::new("/d");
    dir.write("a.bin", b"aaaa");
    dir.write("b.bin", &[9u8; 25]);
    dir.write("c.bin", b"");
    dir.pack(&[])
}

#[test]
fn extraction_reports_every_step() {
    let bytes = three_files();
    let reader = Pf8Reader::open(&bytes).unwrap().with_buffer_size(10);
    let mut handler = Counting::new();
    let mut output = Vec::new();
    reader.extract_all_with_progress("out", &mut output, &mut handler).unwrap();

    assert_eq!(handler.started, 1);
    assert_eq!(handler.finished, 1);
    assert_eq!(handler.entries_started, vec!["a.bin", "b.bin", "c.bin"]);
    assert_eq!(handler.entries_finished, vec!["a.bin", "b.bin", "c.bin"]);
    assert_eq!(
        handler.progress,
        vec![
            (4, Some(29), 1, Some(3), "a.bin".to_string()),
            (14, Some(29), 2, Some(3), "b.bin".to_string()),
            (24, Some(29), 2, Some(3), "b.bin".to_string()),
            (29, Some(29), 2, Some(3), "b.bin".to_string()),
            (29, Some(29), 3, Some(3), "c.bin".to_string()),
        ]
    );
    assert_eq!(output.len(), 3);
    assert_eq!(output[0].path, "out/a.bin");
    assert_eq!(output[0].data, b"aaaa");
    assert_eq!(output[1].data, vec![9u8; 25]);
    assert_eq!(output[2].data, b"");
}

#[test]
fn abort_at_second_entry_cancels_extraction() {
    let bytes = three_files();
    let reader = Pf8Reader::open(&bytes).unwrap();
    let mut handler = Counting::new();
    handler.abort_at_entry = Some(2);
    let mut output = Vec::new();
    let res = reader.extract_all_with_progress("out", &mut output, &mut handler);
    assert!(matches!(res, Err(Error::Cancelled)));
    assert_eq!(output.len(), 1);
    assert_eq!(output[0].path, "out/a.bin");
    assert_eq!(output[0].data, b"aaaa");
    assert_eq!(handler.entries_started, vec!["a.bin", "b.bin"]);
    assert_eq!(handler.entries_finished, vec!["a.bin"]);
    assert_eq!(handler.finished, 0);
}

#[test]
fn abort_at_progress_keeps_the_chunk_that_was_written() {
    let bytes = three_files();
    let reader = Pf8Reader::open(&bytes).unwrap().with_buffer_size(10);
    let mut handler = Counting::new();
    handler.abort_at_progress = Some(3);
    let mut output = Vec::new();
    let res = reader.extract_all_with_progress("out", &mut output, &mut handler);
    assert!(matches!(res, Err(Error::Cancelled)));
    assert_eq!(output.len(), 2);
    assert_eq!(output[1].data, vec![9u8; 20]);
    assert_eq!(handler.entries_finished, vec!["a.bin"]);
}

#[test]
fn extract_with_progress_runs_to_the_end_with_noop_handler() {
    let bytes = three_files();
    let mut handler = NoOpHandler;
    let mut output = Vec::new();
    extract_with_progress(&bytes, "x", &mut output, &mut handler).unwrap();
    assert_eq!(output.len(), 3);
    let mut output = Vec::new();
    assert!(matches!(
        extract_with_progress(b"garbage", "x", &mut output, &mut handler),
        Err(Error::InvalidFormat(_))
    ));
}

fn truncated_two_files() -> Vec<u8> {
    let mut dir = Tree::new("/d");
    dir.write("a.bin", b"abcdef");
    dir.write("b.bin", b"ghi");
    let mut bytes = dir.pack(&[]);
    bytes.truncate(bytes.len() - 2);
    bytes
}

#[test]
fn payload_out_of_bounds_with_handler_leaves_an_empty_file() {
    let bytes = truncated_two_files();
    let reader = Pf8Reader::open(&bytes).unwrap();
    let mut handler = Counting::new();
    let mut output = vec![ExtractedFile { path: "kept".to_string(), data: vec![1, 2] }];
    let res = reader.extract_all_with_progress("out", &mut output, &mut handler);
    assert!(matches!(res, Err(Error::Corrupted(_))));
    assert_eq!(output.len(), 3);
    assert_eq!(output[0].path, "kept");
    assert_eq!(output[0].data, vec![1, 2]);
    assert_eq!(output[1].path, "out/a.bin");
    assert_eq!(output[1].data, b"abcdef");
    assert_eq!(output[2].path, "out/b.bin");
    assert!(output[2].data.is_empty());
    assert_eq!(handler.entries_started, vec!["a.bin", "b.bin"]);
    assert_eq!(handler.entries_finished, vec!["a.bin"]);
    assert_eq!(handler.finished, 0);
}

#[test]
fn streaming_read_fails_before_the_first_chunk() {
    let bytes = truncated_two_files();
    let reader = Pf8Reader::open(&bytes).unwrap();
    let mut calls = 0;
    let res = reader.read_file_streaming("b.bin", |_| {
        calls += 1;
        Err(Error::Io("never asked".to_string()))
    });
    assert!(matches!(res, Err(Error::Corrupted(_))));
    let res = reader.read_file_streaming("c.bin", |_| {
        calls += 1;
        Err(Error::Io("never asked".to_string()))
    });
    assert!(matches!(res, Err(Error::FileNotFound(name)) if name == "c.bin"));
    assert_eq!(calls, 0);
}

#[test]
fn extract_file_with_progress_keeps_earlier_files() {
    let bytes = three_files();
    let archive = Pf8Archive::open(&bytes).unwrap();
    let mut output = vec![ExtractedFile { path: "kept".to_string(), data: vec![5] }];

    let mut handler = Counting::new();
    handler.abort_at_entry = Some(1);
    let res = archive.extract_file_with_progress("b.bin", "/o/b.bin", &mut output, &mut handler);
    assert!(matches!(res, Err(Error::Cancelled)));
    assert_eq!(output.len(), 1);
    assert_eq!(output[0].path, "kept");
    assert_eq!(output[0].data, vec![5]);

    let mut handler = Counting::new();
    let res = archive.extract_file_with_progress("zz.bin", "/o/zz", &mut output, &mut handler);
    assert!(matches!(res, Err(Error::FileNotFound(name)) if name == "zz.bin"));
    assert_eq!(output.len(), 1);

    let mut handler = Counting::new();
    archive.extract_file_with_progress("b.bin", "/o/b.bin", &mut output, &mut handler).unwrap();
    assert_eq!(output.len(), 2);
    assert_eq!(output[0].path, "kept");
    assert_eq!(output[1].path, "/o/b.bin");
    assert_eq!(output[1].data, vec![9u8; 25]);
    assert_eq!(handler.entries_started, vec!["b.bin"]);
}

#[test]
fn handler_that_always_continues_is_never_cancelled() {
    let bytes = three_files();
    let reader = Pf8Reader::open(&bytes).unwrap().with_buffer_size(1);
    let mut handler = NoOpHandler;
    let mut output = Vec::new();
    reader.extract_all_with_progress("out", &mut output, &mut handler).unwrap();
    let mut plain = Vec::new();
    reader.extract_all("out", &mut plain).unwrap();
    assert_eq!(output.len(), plain.len());
    for i in 0..output.len() {
        assert_eq!(output[i].path, plain[i].path);
        assert_eq!(output[i].data, plain[i].data);
    }
}
