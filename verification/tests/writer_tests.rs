use pf8::crypto::{encrypt, generate_key};
use pf8::entry::Pf8Entry;
use pf8::error::Error;
use pf8::writer::{Pf8Writer, WriterState};

fn detail(res: Result<(), Error>) -> String {
    match res {
        Err(Error::InvalidFormat(m)) => m,
        other => panic!("expected InvalidFormat, got {:?}", other),
    }
}

fn entries() -> Vec<Pf8Entry> {
    vec![
        Pf8Entry::new("a.txt", 0, 5, &[".txt"]),
        Pf8Entry::new("dir/b.bin", 5, 10, &[".txt"]),
    ]
}

#[test]
fn writer_starts_created() {
    let writer = Pf8Writer::create();
    assert_eq!(writer.state(), WriterState::Created);
    assert!(!writer.is_finalized());
    assert_eq!(writer.size(), 0);
    assert_eq!(writer.buffer_size(), 4 * 1024 * 1024);
}

#[test]
fn write_file_data_before_header_fails() {
    let mut writer = Pf8Writer::create();
    let e = Pf8Entry::new("a.txt", 0, 5, &[]);
    assert_eq!(detail(writer.write_file_data(&e, b"hello")), "Header must be written first");
    assert_eq!(detail(writer.write_file_data_direct(&e, b"hello")), "Header must be written first");
    assert_eq!(detail(writer.write_file_chunk(&e, 0, b"hello")), "Header must be written first");
    assert_eq!(writer.state(), WriterState::Created);
    assert!(writer.take_output().is_empty());
}

#[test]
fn write_header_twice_fails() {
    let mut writer = Pf8Writer::create();
    writer.write_header(&entries()).unwrap();
    assert_eq!(writer.state(), WriterState::HeaderWritten);
    let size = writer.size();
    assert_eq!(detail(writer.write_header(&entries())), "Header already written");
    assert_eq!(writer.state(), WriterState::HeaderWritten);
    assert_eq!(writer.size(), size);
}

#[test]
fn write_header_after_payload_fails() {
    let mut writer = Pf8Writer::create();
    let list = entries();
    writer.write_header(&list).unwrap();
    writer.write_file_data(&list[0], b"hello").unwrap();
    assert_eq!(writer.state(), WriterState::WritingData);
    assert_eq!(detail(writer.write_header(&list)), "Header already written");
}

#[test]
fn finalize_twice_succeeds() {
    let mut writer = Pf8Writer::create();
    writer.write_header(&entries()).unwrap();
    writer.finalize().unwrap();
    assert!(writer.is_finalized());
    writer.finalize().unwrap();
    assert!(writer.is_finalized());
    assert_eq!(writer.state(), WriterState::Finalized);
}

#[test]
fn finalize_with_nothing_written_fails() {
    let mut writer = Pf8Writer::create();
    assert_eq!(detail(writer.finalize()), "No data written");
    assert_eq!(writer.state(), WriterState::Created);
    assert!(!writer.is_finalized());
}

#[test]
fn nothing_is_written_after_finalize() {
    let mut writer = Pf8Writer::create();
    let list = entries();
    writer.write_header(&list).unwrap();
    writer.write_file_data(&list[0], b"hello").unwrap();
    writer.finalize().unwrap();
    let size = writer.size();
    assert_eq!(detail(writer.write_file_data(&list[1], &[0u8; 10])), "Writer is finalized");
    assert_eq!(detail(writer.write_file_data_direct(&list[1], &[0u8; 10])), "Writer is finalized");
    assert_eq!(detail(writer.write_file_chunk(&list[1], 0, &[0u8; 10])), "Writer is finalized");
    assert_eq!(detail(writer.write_header(&list)), "Header already written");
    assert_eq!(writer.size(), size);
}

#[test]
fn direct_write_needs_exact_size() {
    let mut writer = Pf8Writer::create();
    let list = entries();
    writer.write_header(&list).unwrap();
    writer.take_output();
    assert_eq!(detail(writer.write_file_data_direct(&list[0], b"hell")), "Data size mismatch");
    assert_eq!(detail(writer.write_file_data_direct(&list[0], b"hello!")), "Data size mismatch");
    assert_eq!(writer.state(), WriterState::HeaderWritten);
    assert!(writer.take_output().is_empty());
    writer.write_file_data_direct(&list[0], b"hello").unwrap();
    assert_eq!(writer.take_output(), b"hello");
}

#[test]
fn source_shorter_than_entry_is_io_error() {
    let mut writer = Pf8Writer::create();
    let list = entries();
    writer.write_header(&list).unwrap();
    assert!(matches!(writer.write_file_data(&list[1], &[1, 2, 3]), Err(Error::Io(_))));
    assert_eq!(writer.state(), WriterState::HeaderWritten);
}

#[test]
fn source_longer_than_entry_is_cut() {
    let mut writer = Pf8Writer::create();
    let list = entries();
    writer.write_header(&list).unwrap();
    writer.take_output();
    writer.write_file_data(&list[0], b"hello world").unwrap();
    assert_eq!(writer.take_output(), b"hello");
}

#[test]
fn chunk_must_lie_inside_the_entry() {
    let mut writer = Pf8Writer::create();
    let list = entries();
    writer.write_header(&list).unwrap();
    assert_eq!(detail(writer.write_file_chunk(&list[0], 3, b"abc")), "Data size mismatch");
    assert_eq!(detail(writer.write_file_chunk(&list[0], 6, b"")), "Data size mismatch");
    writer.write_file_chunk(&list[0], 3, b"ab").unwrap();
    writer.write_file_chunk(&list[0], 5, b"").unwrap();
}

#[test]
fn encrypted_payload_is_masked_with_header_key() {
    let mut writer = Pf8Writer::create();
    let list = entries();
    writer.write_header(&list).unwrap();
    let header = writer.take_output();
    assert_eq!(writer.size(), header.len() as u64);
    let index_size = u32::from_le_bytes([header[3], header[4], header[5], header[6]]);
    assert_eq!(header.len(), index_size as usize + 7);
    let key = generate_key(&header, index_size);

    writer.write_file_data(&list[0], b"hello").unwrap();
    assert_eq!(writer.take_output(), b"hello");

    let payload: Vec<u8> = (100..110).collect();
    writer.write_file_data(&list[1], &payload).unwrap();
    let mut expected = payload.clone();
    encrypt(&mut expected, &key, 0);
    assert_eq!(writer.take_output(), expected);
    assert_eq!(writer.size(), header.len() as u64 + 15);
}

#[test]
fn chunked_writes_equal_one_write() {
    let content: Vec<u8> = (0..10 * 1024).map(|i| (i * 31 % 256) as u8).collect();
    let list = vec![Pf8Entry::new("big.bin", 0, content.len() as u32, &[])];

    let mut whole = Pf8Writer::create();
    whole.write_header(&list).unwrap();
    whole.write_file_data_direct(&list[0], &content).unwrap();
    whole.finalize().unwrap();
    let expected = whole.take_output();

    let mut streamed = Pf8Writer::with_buffer_size(1000);
    streamed.write_header(&list).unwrap();
    streamed.write_file_data(&list[0], &content).unwrap();
    streamed.finalize().unwrap();
    assert_eq!(streamed.take_output(), expected);

    let mut by_hand = Pf8Writer::create();
    by_hand.write_header(&list).unwrap();
    by_hand.write_file_chunk(&list[0], 0, &content[..3000]).unwrap();
    by_hand.write_file_chunk(&list[0], 3000, &content[3000..3001]).unwrap();
    by_hand.write_file_chunk(&list[0], 3001, &content[3001..]).unwrap();
    by_hand.finalize().unwrap();
    assert_eq!(by_hand.take_output(), expected);
}

#[test]
fn key_offset_restarts_with_each_entry() {
    let list = vec![
        Pf8Entry::new("one.bin", 0, 7, &[]),
        Pf8Entry::new("two.bin", 7, 7, &[]),
    ];
    let mut writer = Pf8Writer::create();
    writer.write_header(&list).unwrap();
    writer.take_output();
    writer.write_file_data(&list[0], &[0u8; 7]).unwrap();
    let first = writer.take_output();
    writer.write_file_data(&list[1], &[0u8; 7]).unwrap();
    let second = writer.take_output();
    assert_eq!(first, second);
}

#[test]
fn empty_payload_moves_to_writing_data() {
    let list = vec![Pf8Entry::new("empty", 0, 0, &[])];
    let mut writer = Pf8Writer::create();
    writer.write_header(&list).unwrap();
    writer.write_file_data(&list[0], b"").unwrap();
    assert_eq!(writer.state(), WriterState::WritingData);
}

#[test]
fn header_of_no_entries() {
    let mut writer = Pf8Writer::create();
    writer.write_header(&[]).unwrap();
    let header = writer.take_output();
    let mut expected = Vec::new();
    expected.extend_from_slice(b"pf8");
    expected.extend_from_slice(&20u32.to_le_bytes());
    expected.extend_from_slice(&0u32.to_le_bytes());
    expected.extend_from_slice(&1u32.to_le_bytes());
    expected.extend_from_slice(&0u64.to_le_bytes());
    expected.extend_from_slice(&4u32.to_le_bytes());
    assert_eq!(header, expected);
    writer.finalize().unwrap();
}

#[test]
fn header_that_does_not_fit_is_refused() {
    let list = vec![
        Pf8Entry::new("a", 0, u32::MAX, &[]),
        Pf8Entry::new("b", 0, 1, &[]),
    ];
    let mut writer = Pf8Writer::create();
    assert_eq!(detail(writer.write_header(&list)), "Archive too large");
    assert_eq!(writer.state(), WriterState::Created);
    assert!(writer.take_output().is_empty());
}

#[test]
fn offsets_in_header_follow_the_sizes() {
    let list = entries();
    let mut writer = Pf8Writer::create();
    writer.write_header(&list).unwrap();
    let header = writer.take_output();
    let (parsed, _) = pf8::format::parse_entries(&header).unwrap();
    assert_eq!(parsed.len(), 2);
    assert_eq!(parsed[0].name, "a.txt");
    assert_eq!(parsed[0].offset as usize, header.len());
    assert_eq!(parsed[0].size, 5);
    assert_eq!(parsed[1].name, "dir\\b.bin");
    assert_eq!(parsed[1].offset as usize, header.len() + 5);
    assert_eq!(parsed[1].size, 10);
}
