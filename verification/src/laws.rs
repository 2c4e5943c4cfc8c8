//! What holds of the format as a whole: a header that is written is read back as it
//! was written, the key depends on the index alone, and an archive that is packed is
//! unpacked to the files it was made of.

use vstd::prelude::*;
use vstd::utf8::{decode_utf8, encode_utf8, encode_utf8_decode_utf8, encode_utf8_valid_utf8};
use crate::builder::{
    handled_pack,
    pack_continued_before,
    pack_cut,
    pack_stopped_at,
    archive_paths,
    contents_len,
    effective_patterns,
    in_order,
    lemma_built_sizes,
    lemma_contents_len,
    lemma_entries_built,
    lemma_payloads_len,
    ordered_total,
    packable,
    sizes_of,
    spec_archive,
    spec_built,
    spec_items,
    spec_payloads,
    BuilderView,
};
use crate::crypto::{lemma_xor_involution, spec_key, spec_xor};
use crate::entry::{payload_in_bounds, spec_entry_of, spec_entry_path, stored_payload, Pf8EntryView};
use crate::callbacks::{
    answered,
    ArchiveEvent,
    ArchiveHandler,
    ControlAction,
    EventView,
    OperationType,
};
use crate::error::Error;
use crate::operation::entry_heard;
use crate::extract::{
    continued_before,
    cut_at,
    handled_extraction,
    stopped_at,
    first_out_of_bounds,
    lemma_all_in_bounds,
    spec_extracted,
    spec_output_paths,
    ExtractedView,
};
use crate::format::{decoded, names_valid};
use crate::entry::Pf8Entry;
use crate::layout::{item_of, items_of};
use crate::paths::spec_join;
use crate::reader::{
    can_open,
    index_complete,
    index_region,
    index_too_short,
    spec_archive_key,
    spec_entries,
    spec_entry_content,
    spec_reader,
    ReaderView,
};
use crate::sorting::{
    is_sorted_order,
    lemma_sorted_order_exists,
    lemma_sorted_order_unique,
    lists_position,
    spec_less,
    spec_sorted_order,
};
use crate::utils::{
    spec_matches_any,
    spec_pathbuf_to_pf8_path,
    spec_pf8_path_to_pathbuf,
    spec_trim_nul,
};
use crate::text::{contains_seq, is_suffix};
use crate::writer::{header_key, stored_bytes, WriterState, WriterView};
use crate::format::{
    record_at,
    record_end,
    record_fits,
    spec_index_end,
    spec_index_records,
    spec_magic,
    spec_records,
    spec_u32_le,
    ArchiveFormat,
    Record,
};
use crate::layout::{
    layout_fits,
    lemma_header_len,
    lemma_le_bytes_len,
    lemma_le_bytes_lens,
    lemma_records_len,
    lemma_sizes_monotone,
    lemma_sizes_nonnegative,
    lemma_table_len,
    payload_size,
    record_bytes,
    records_bytes,
    records_size,
    spec_data_start,
    spec_header,
    spec_index_size,
    table_bytes,
    u32_le_bytes,
    u64_le_bytes,
    IndexItem,
};

verus! {

/// Four bytes that are written for a number are read back as that number.
pub proof fn lemma_u32_round_trip(x: int)
    requires
        0 <= x <= u32::MAX,
    ensures
        u32_le_bytes(x).len() == 4,
        spec_u32_le(u32_le_bytes(x), 0) == x,
{
    reveal(u32_le_bytes);
}

/// A number that is written into a sequence at `at` is read back from there.
pub proof fn lemma_u32_at(s: Seq<u8>, at: int, x: int)
    requires
        0 <= x <= u32::MAX,
        0 <= at,
        at + 4 <= s.len(),
        s.subrange(at, at + 4) == u32_le_bytes(x),
    ensures
        spec_u32_le(s, at) == x,
{
    let part = s.subrange(at, at + 4);
    assert(part[0] == s[at]);
    assert(part[1] == s[at + 1]);
    assert(part[2] == s[at + 2]);
    assert(part[3] == s[at + 3]);
    lemma_u32_round_trip(x);
}

/// The record that is read at a place where a record was written is that record.
pub proof fn lemma_record_at(s: Seq<u8>, cursor: int, item: IndexItem, offset: int)
    requires
        0 <= cursor,
        item.name.len() <= u32::MAX,
        0 <= offset <= u32::MAX,
        cursor + item.name.len() + 16 <= s.len(),
        s.subrange(cursor, cursor + item.name.len() + 16) == record_bytes(item, offset),
    ensures
        record_fits(s, cursor),
        record_end(s, cursor) == cursor + item.name.len() + 16,
        record_at(s, cursor) == (Record {
            name: item.name,
            offset: offset as u32,
            size: item.size,
        }),
{
    let n = item.name.len() as int;
    let rec = record_bytes(item, offset);
    let part = s.subrange(cursor, cursor + n + 16);
    lemma_le_bytes_len(n);
    lemma_le_bytes_len(offset);
    lemma_le_bytes_len(item.size as int);
    assert(rec.len() == n + 16);
    assert(part.subrange(0, 4) =~= u32_le_bytes(n));
    assert(s.subrange(cursor, cursor + 4) =~= part.subrange(0, 4));
    lemma_u32_at(s, cursor, n);
    assert(part.subrange(4, 4 + n) =~= item.name);
    assert(s.subrange(cursor + 4, cursor + 4 + n) =~= part.subrange(4, 4 + n));
    assert(part.subrange(8 + n, 12 + n) =~= u32_le_bytes(offset));
    assert(s.subrange(cursor + 8 + n, cursor + 12 + n) =~= part.subrange(8 + n, 12 + n));
    lemma_u32_at(s, cursor + 8 + n, offset);
    assert(part.subrange(12 + n, 16 + n) =~= u32_le_bytes(item.size as int));
    assert(s.subrange(cursor + 12 + n, cursor + 16 + n) =~= part.subrange(12 + n, 16 + n));
    lemma_u32_at(s, cursor + 12 + n, item.size as int);
}

/// Where record `i` begins in a header.
pub open spec fn record_pos(items: Seq<IndexItem>, i: int) -> int {
    11 + records_size(items.take(i))
}

/// Where payload `i` begins in an archive.
pub open spec fn payload_pos(items: Seq<IndexItem>, i: int) -> int {
    spec_data_start(items) + payload_size(items.take(i))
}

/// Record `i` of the index that is written for the items.
pub open spec fn written_record(items: Seq<IndexItem>, i: int) -> Record {
    Record { name: items[i].name, offset: payload_pos(items, i) as u32, size: items[i].size }
}

/// The records of the index that is written for the items.
pub open spec fn written_records(items: Seq<IndexItem>) -> Seq<Record> {
    Seq::new(items.len(), |i: int| written_record(items, i))
}

/// Record `i` lies in the bytes of all records behind the records before it.
pub proof fn lemma_record_place(items: Seq<IndexItem>, base: int, i: int)
    requires
        0 <= i < items.len(),
    ensures
        0 <= records_size(items.take(i)),
        records_size(items.take(i + 1)) == records_size(items.take(i)) + items[i].name.len() + 16,
        records_size(items.take(i + 1)) <= records_size(items),
        records_bytes(items, base).subrange(
            records_size(items.take(i)),
            records_size(items.take(i + 1)),
        ) == record_bytes(items[i], base + payload_size(items.take(i))),
    decreases items.len(),
{
    let all = records_bytes(items, base);
    let front = records_bytes(items.drop_last(), base);
    lemma_records_len(items, base);
    lemma_records_len(items.drop_last(), base);
    lemma_sizes_nonnegative(items.take(i));
    lemma_sizes_monotone(items, i + 1);
    assert(items.take(i + 1).drop_last() =~= items.take(i));
    if i == items.len() - 1 {
        assert(items.take(i) =~= items.drop_last());
        assert(items.take(i + 1) =~= items);
        assert(all.subrange(front.len() as int, all.len() as int) =~= record_bytes(
            items.last(),
            base + payload_size(items.drop_last()),
        ));
    } else {
        lemma_record_place(items.drop_last(), base, i);
        assert(items.drop_last().take(i) =~= items.take(i));
        assert(items.drop_last().take(i + 1) =~= items.take(i + 1));
        assert(all.subrange(records_size(items.take(i)), records_size(items.take(i + 1)))
            =~= front.subrange(records_size(items.take(i)), records_size(items.take(i + 1))));
    }
}

/// The fixed fields of a header that is written are read back as they were written,
/// and each record lies at its place.
pub proof fn lemma_header_fields(items: Seq<IndexItem>)
    requires
        layout_fits(items),
    ensures
        spec_header(items).len() == spec_data_start(items),
        spec_magic(spec_header(items)) == Some(ArchiveFormat::Pf8),
        spec_u32_le(spec_header(items), 3) == spec_index_size(items),
        spec_u32_le(spec_header(items), 7) == items.len(),
        items.len() <= u32::MAX,
        forall|i: int|
            0 <= i < items.len() ==> #[trigger] spec_header(items).subrange(
                record_pos(items, i),
                record_pos(items, i + 1),
            ) == record_bytes(items[i], payload_pos(items, i)),
{
    reveal(spec_header);
    let h = spec_header(items);
    let records = records_bytes(items, spec_data_start(items));
    lemma_header_len(items);
    lemma_le_bytes_lens();
    lemma_sizes_nonnegative(items);
    assert(h.subrange(3, 7) =~= u32_le_bytes(spec_index_size(items)));
    lemma_u32_at(h, 3, spec_index_size(items));
    assert(h.subrange(7, 11) =~= u32_le_bytes(items.len() as int));
    lemma_u32_at(h, 7, items.len() as int);
    assert(h.subrange(11, 11 + records.len() as int) =~= records);
    assert forall|i: int| 0 <= i < items.len() implies #[trigger] h.subrange(
        record_pos(items, i),
        record_pos(items, i + 1),
    ) == record_bytes(items[i], payload_pos(items, i)) by {
        lemma_record_place(items, spec_data_start(items), i);
        let a = records_size(items.take(i));
        let b = records_size(items.take(i + 1));
        assert(h.subrange(11 + a, 11 + b) =~= h.subrange(11, 11 + records.len() as int).subrange(a, b));
    }
}

/// The records that are read from a header from record `k` on are those that were
/// written.
pub proof fn lemma_records_from(items: Seq<IndexItem>, k: int)
    requires
        layout_fits(items),
        0 <= k <= items.len(),
    ensures
        spec_records(
            spec_header(items),
            record_pos(items, k),
            spec_header(items).len() as int,
            (items.len() - k) as nat,
        ) == Seq::new((items.len() - k) as nat, |j: int| written_record(items, k + j)),
    decreases items.len() - k,
{
    let h = spec_header(items);
    let end = h.len() as int;
    let rest = spec_records(h, record_pos(items, k), end, (items.len() - k) as nat);
    let wanted = Seq::new((items.len() - k) as nat, |j: int| written_record(items, k + j));
    if k == items.len() {
        assert(rest =~= wanted);
    } else {
        lemma_header_fields(items);
        lemma_record_place(items, spec_data_start(items), k);
        lemma_sizes_nonnegative(items);
        lemma_sizes_nonnegative(items.take(k));
        lemma_sizes_monotone(items, k);
        lemma_sizes_monotone(items, k + 1);
        let cursor = record_pos(items, k);
        assert(h.subrange(record_pos(items, k), record_pos(items, k + 1)) == record_bytes(
            items[k],
            payload_pos(items, k),
        ));
        lemma_record_at(h, cursor, items[k], payload_pos(items, k));
        lemma_records_from(items, k + 1);
        let tail = Seq::new(
            (items.len() - k - 1) as nat,
            |j: int| written_record(items, k + 1 + j),
        );
        assert(rest == seq![written_record(items, k)] + tail);
        assert(seq![written_record(items, k)] + tail =~= wanted);
    }
}

/// The index of a header that is written is read back as it was written.
pub proof fn lemma_index_round_trip(items: Seq<IndexItem>)
    requires
        layout_fits(items),
    ensures
        spec_index_records(spec_header(items)) == written_records(items),
{
    let h = spec_header(items);
    lemma_header_fields(items);
    lemma_sizes_nonnegative(items);
    assert(items.take(0) =~= Seq::<IndexItem>::empty());
    assert(spec_index_end(h) == h.len());
    lemma_records_from(items, 0);
    assert(Seq::new(items.len(), |j: int| written_record(items, 0 + j)) =~= written_records(
        items,
    ));
}

/// Whether an archive path comes back from an archive as it went in: it holds no
/// backslash and does not end with a NUL character.
pub open spec fn clean_path(p: Seq<char>) -> bool {
    &&& forall|i: int| 0 <= i < p.len() ==> p[i] != '\\'
    &&& p.len() > 0 ==> p.last() != '\0'
}

/// A clean path that is written as an archive name is read back as the same path.
pub proof fn lemma_clean_path_survives(p: Seq<char>)
    requires
        clean_path(p),
    ensures
        spec_entry_path(spec_pathbuf_to_pf8_path(p)) == p,
{
    let name = spec_pathbuf_to_pf8_path(p);
    assert(spec_trim_nul(name) == name);
    assert(spec_pf8_path_to_pathbuf(name) =~= p);
}

/// The payloads of a part of the items take as many bytes as their contents.
pub proof fn lemma_payload_sizes(items: Seq<IndexItem>, contents: Seq<Seq<u8>>, k: int)
    requires
        0 <= k <= items.len(),
        contents.len() == items.len(),
        forall|i: int| 0 <= i < items.len() ==> (#[trigger] items[i]).size == contents[i].len(),
    ensures
        payload_size(items.take(k)) == contents_len(contents, k),
    decreases k,
{
    if k > 0 {
        lemma_payload_sizes(items, contents, k - 1);
        assert(items.take(k).drop_last() =~= items.take(k - 1));
    } else {
        assert(items.take(0) =~= Seq::<IndexItem>::empty());
    }
}

/// The stored bytes of entry `i` lie in the payloads behind those of the entries
/// before it.
pub proof fn lemma_payload_place(
    entries: Seq<Pf8EntryView>,
    contents: Seq<Seq<u8>>,
    key: Seq<u8>,
    n: int,
    i: int,
)
    requires
        0 <= i < n,
    ensures
        0 <= contents_len(contents, i),
        contents_len(contents, i + 1) == contents_len(contents, i) + contents[i].len(),
        contents_len(contents, i + 1) <= spec_payloads(entries, contents, key, n).len(),
        spec_payloads(entries, contents, key, n).subrange(
            contents_len(contents, i),
            contents_len(contents, i + 1),
        ) == stored_bytes(entries[i], contents[i], key, 0),
    decreases n,
{
    let all = spec_payloads(entries, contents, key, n);
    let front = spec_payloads(entries, contents, key, n - 1);
    lemma_payloads_len(entries, contents, key, n);
    lemma_payloads_len(entries, contents, key, n - 1);
    lemma_contents_len(contents, i, n);
    lemma_contents_len(contents, i + 1, n);
    if i == n - 1 {
        assert(all.subrange(front.len() as int, all.len() as int) =~= stored_bytes(
            entries[i],
            contents[i],
            key,
            0,
        ));
    } else {
        lemma_payload_place(entries, contents, key, n - 1, i);
        assert(all.subrange(contents_len(contents, i), contents_len(contents, i + 1))
            =~= front.subrange(contents_len(contents, i), contents_len(contents, i + 1)));
    }
}

/// An archive that is written can be opened, and its index region is its header.
pub proof fn lemma_archive_opens(items: Seq<IndexItem>, payloads: Seq<u8>)
    requires
        layout_fits(items),
        forall|i: int|
            0 <= i < items.len() ==> vstd::utf8::valid_utf8(#[trigger] items[i].name),
    ensures
        can_open(spec_header(items) + payloads),
        spec_magic(spec_header(items) + payloads) == Some(ArchiveFormat::Pf8),
        index_region(spec_header(items) + payloads) == spec_header(items),
        spec_u32_le(spec_header(items) + payloads, 3) == spec_index_size(items),
        spec_index_records(index_region(spec_header(items) + payloads)) == written_records(items),
{
    let h = spec_header(items);
    let a = h + payloads;
    lemma_header_fields(items);
    lemma_sizes_nonnegative(items);
    lemma_index_round_trip(items);
    assert(spec_u32_le(a, 3) == spec_u32_le(h, 3));
    assert(spec_u32_le(a, 7) == spec_u32_le(h, 7));
    assert(a.take(h.len() as int) =~= h);
    assert(names_valid(written_records(items)));
}

/// The key that a reader derives from an archive is the key that the writer derived
/// from its header. It depends on the names and sizes of the entries and their order,
/// and on nothing else: the payloads play no part.
pub proof fn lemma_key_of_archive(items: Seq<IndexItem>, payloads: Seq<u8>)
    requires
        layout_fits(items),
    ensures
        spec_archive_key(spec_header(items) + payloads, ArchiveFormat::Pf8) == Some(
            header_key(items),
        ),
{
    let h = spec_header(items);
    let a = h + payloads;
    lemma_header_fields(items);
    lemma_sizes_nonnegative(items);
    assert(spec_u32_le(a, 3) == spec_u32_le(h, 3));
    assert(a.take(h.len() as int) =~= h);
}

/// Two archives whose entries have the same names and sizes in the same order have the
/// same key, whatever their payloads are.
pub proof fn lemma_key_determinism(items: Seq<IndexItem>, payloads1: Seq<u8>, payloads2: Seq<u8>)
    requires
        layout_fits(items),
    ensures
        spec_archive_key(spec_header(items) + payloads1, ArchiveFormat::Pf8) == spec_archive_key(
            spec_header(items) + payloads2,
            ArchiveFormat::Pf8,
        ),
{
    lemma_key_of_archive(items, payloads1);
    lemma_key_of_archive(items, payloads2);
}

/// The files of an archive that can be made are few enough to be sorted.
pub proof fn lemma_packable_sorted(b: BuilderView, contents: Seq<Seq<u8>>)
    requires
        packable(b, contents),
    ensures
        b.files.len() <= u32::MAX,
        is_sorted_order(archive_paths(b.files), spec_sorted_order(archive_paths(b.files))),
{
    lemma_sizes_nonnegative(spec_items(b, contents));
    lemma_sorted_order_exists(archive_paths(b.files));
}

/// The files that the archive of a builder holds, in the order in which they are
/// written: each with its archive path below `output_dir` and its content.
pub open spec fn packed_files(b: BuilderView, contents: Seq<Seq<u8>>, output_dir: Seq<char>) -> Seq<
    ExtractedView,
> {
    let order = spec_sorted_order(archive_paths(b.files));
    Seq::new(
        b.files.len(),
        |i: int|
            ExtractedView {
                path: spec_join(output_dir, b.files[order[i] as int].1),
                data: contents[order[i] as int],
            },
    )
}

/// Round trip: an archive that is packed from files with clean archive paths, opened
/// with the patterns it was packed with, and extracted, gives back every file with its
/// path and its content, in the order of the archive paths.
pub proof fn lemma_round_trip(b: BuilderView, contents: Seq<Seq<u8>>, output_dir: Seq<char>)
    requires
        packable(b, contents),
        forall|i: int| 0 <= i < b.files.len() ==> clean_path(#[trigger] b.files[i].1),
    ensures
        ({
            let archive = spec_archive(b, contents);
            let r = spec_reader(archive, effective_patterns(b.patterns));
            &&& can_open(archive)
            &&& r.entries.len() == b.files.len()
            &&& first_out_of_bounds(r, r.entries, 0) == r.entries.len()
            &&& spec_extracted(
                r,
                r.entries,
                spec_output_paths(output_dir, r.entries),
                r.entries.len() as int,
            ) == packed_files(b, contents, output_dir)
        }),
{
    let n = b.files.len() as int;
    let order = spec_sorted_order(archive_paths(b.files));
    let sizes = sizes_of(contents);
    let views = spec_built(b, sizes);
    let items = spec_items(b, contents);
    let ordered = in_order(contents, order);
    let key = header_key(items);
    let payloads = spec_payloads(views, ordered, key, n);
    let archive = spec_archive(b, contents);
    let patterns = effective_patterns(b.patterns);
    let r = spec_reader(archive, patterns);
    lemma_packable_sorted(b, contents);
    lemma_entries_built(b, contents, views);
    assert forall|i: int| 0 <= i < items.len() implies vstd::utf8::valid_utf8(
        #[trigger] items[i].name,
    ) by {
        encode_utf8_valid_utf8(views[i].name);
    }
    assert(archive == spec_header(items) + payloads);
    lemma_archive_opens(items, payloads);
    lemma_key_of_archive(items, payloads);
    lemma_header_fields(items);
    lemma_payloads_len(views, ordered, key, n);
    assert(r.entries.len() == n);
    assert forall|i: int| 0 <= i < n implies {
        &&& payload_in_bounds(#[trigger] r.entries[i], archive.len() as int)
        &&& r.entries[i].path == b.files[order[i] as int].1
        &&& spec_entry_content(r, r.entries[i]) == contents[order[i] as int]
    } by {
        lemma_entry_round_trip(b, contents, i);
    }
    lemma_all_in_bounds(r, r.entries, 0);
    assert(spec_extracted(r, r.entries, spec_output_paths(output_dir, r.entries), n)
        =~= packed_files(b, contents, output_dir));
}

/// Entry `i` of an archive that is packed and opened again has the path and the
/// content of the file it was made of.
pub proof fn lemma_entry_round_trip(b: BuilderView, contents: Seq<Seq<u8>>, i: int)
    requires
        packable(b, contents),
        forall|j: int| 0 <= j < b.files.len() ==> clean_path(#[trigger] b.files[j].1),
        0 <= i < b.files.len(),
    ensures
        ({
            let archive = spec_archive(b, contents);
            let r = spec_reader(archive, effective_patterns(b.patterns));
            let order = spec_sorted_order(archive_paths(b.files));
            &&& r.entries.len() == b.files.len()
            &&& payload_in_bounds(r.entries[i], archive.len() as int)
            &&& r.entries[i].path == b.files[order[i] as int].1
            &&& spec_entry_content(r, r.entries[i]) == contents[order[i] as int]
        }),
{
    let n = b.files.len() as int;
    let order = spec_sorted_order(archive_paths(b.files));
    let sizes = sizes_of(contents);
    let views = spec_built(b, sizes);
    let items = spec_items(b, contents);
    let ordered = in_order(contents, order);
    let key = header_key(items);
    let payloads = spec_payloads(views, ordered, key, n);
    let archive = spec_archive(b, contents);
    let patterns = effective_patterns(b.patterns);
    let r = spec_reader(archive, patterns);
    let h = spec_header(items);
    lemma_packable_sorted(b, contents);
    lemma_entries_built(b, contents, views);
    assert forall|j: int| 0 <= j < items.len() implies vstd::utf8::valid_utf8(
        #[trigger] items[j].name,
    ) by {
        encode_utf8_valid_utf8(views[j].name);
    }
    assert(archive == h + payloads);
    lemma_archive_opens(items, payloads);
    lemma_key_of_archive(items, payloads);
    lemma_header_fields(items);
    lemma_payloads_len(views, ordered, key, n);
    let e = r.entries[i];
    let v = views[i];
    let record = written_record(items, i);
    assert(e == spec_entry_of(decoded(record), ArchiveFormat::Pf8, patterns));
    encode_utf8_decode_utf8(v.name);
    assert(e.name == v.name);
    assert(e.size == v.size);
    assert(e.encrypted == v.encrypted);
    lemma_clean_path_survives(b.files[order[i] as int].1);
    assert(e.path == b.files[order[i] as int].1);
    // Where the payload lies.
    assert forall|j: int| 0 <= j < items.len() implies (#[trigger] items[j]).size
        == ordered[j].len() by {
        assert(items[j] == item_of(views[j]));
    }
    lemma_payload_sizes(items, ordered, i);
    lemma_payload_place(views, ordered, key, n, i);
    lemma_sizes_nonnegative(items);
    let start = payload_pos(items, i);
    lemma_sizes_monotone(items, i);
    lemma_sizes_nonnegative(items.take(i));
    assert(start == h.len() + contents_len(ordered, i));
    assert(e.offset == start);
    assert(stored_payload(e, archive) =~= payloads.subrange(
        contents_len(ordered, i),
        contents_len(ordered, i + 1),
    ));
    assert(stored_payload(e, archive) == stored_bytes(v, ordered[i], key, 0));
    assert(r.key == Some(key));
    if e.encrypted {
        lemma_xor_involution(ordered[i], key, 0);
    }
}

/// Whether `sigma` lists the positions `0 .. n`, each once.
pub open spec fn is_permutation(sigma: Seq<usize>, n: int) -> bool {
    &&& sigma.len() == n
    &&& forall|j: int| 0 <= j < n ==> (#[trigger] sigma[j]) < n
    &&& forall|i: int, j: int| 0 <= i < j < n ==> (#[trigger] sigma[i]) != (#[trigger] sigma[j])
    &&& forall|p: int| 0 <= p < n ==> #[trigger] lists_position(sigma, p)
}

/// Whether the files and contents of the second builder are those of the first in
/// another order: file `j` of the second is file `sigma[j]` of the first.
pub open spec fn same_files_reordered(
    b1: BuilderView,
    contents1: Seq<Seq<u8>>,
    b2: BuilderView,
    contents2: Seq<Seq<u8>>,
    sigma: Seq<usize>,
) -> bool {
    &&& b1.patterns == b2.patterns
    &&& b1.files.len() == b2.files.len()
    &&& contents1.len() == b1.files.len()
    &&& contents2.len() == b2.files.len()
    &&& is_permutation(sigma, b1.files.len() as int)
    &&& forall|j: int|
        0 <= j < b2.files.len() ==> (#[trigger] b2.files[j]).1 == b1.files[sigma[j] as int].1
    &&& forall|j: int|
        0 <= j < b2.files.len() ==> #[trigger] contents2[j] == contents1[sigma[j] as int]
}

/// The sorted order of files does not depend on the order in which they were added:
/// sorting the reordered files and going back to the positions they had before gives
/// the sorted order of the files as they were.
pub proof fn lemma_sorted_order_of_reordered(
    paths1: Seq<Seq<char>>,
    paths2: Seq<Seq<char>>,
    sigma: Seq<usize>,
)
    requires
        paths1.len() == paths2.len(),
        paths1.len() <= usize::MAX,
        is_permutation(sigma, paths1.len() as int),
        forall|j: int| 0 <= j < paths2.len() ==> #[trigger] paths2[j] == paths1[sigma[j] as int],
        forall|i: int, j: int|
            0 <= i < j < paths1.len() ==> #[trigger] paths1[i] != #[trigger] paths1[j],
    ensures
        spec_sorted_order(paths1).len() == paths1.len(),
        spec_sorted_order(paths2).len() == paths1.len(),
        forall|i: int|
            0 <= i < paths1.len() ==> 0 <= (#[trigger] spec_sorted_order(paths2)[i])
                < paths1.len() && spec_sorted_order(paths1)[i] == sigma[spec_sorted_order(
                paths2,
            )[i] as int],
{
    let n = paths1.len() as int;
    lemma_sorted_order_exists(paths1);
    lemma_sorted_order_exists(paths2);
    let order1 = spec_sorted_order(paths1);
    let order2 = spec_sorted_order(paths2);
    let o = Seq::new(n as nat, |i: int| sigma[order2[i] as int]);
    assert forall|p: int| 0 <= p < n implies #[trigger] lists_position(o, p) by {
        assert(lists_position(sigma, p));
        let j = choose|j: int| 0 <= j < sigma.len() && #[trigger] sigma[j] == p;
        assert(lists_position(order2, j));
        let i = choose|i: int| 0 <= i < order2.len() && #[trigger] order2[i] == j;
        assert(o[i] == p);
    }
    assert forall|i: int, j: int| 0 <= i < j < n implies {
        &&& (#[trigger] o[i]) != (#[trigger] o[j])
        &&& !spec_less(paths1[o[j] as int], paths1[o[i] as int])
        &&& paths1[o[i] as int] == paths1[o[j] as int] ==> o[i] < o[j]
    } by {
        let a = order2[i];
        let b = order2[j];
        assert(a != b);
        assert(paths2[a as int] == paths1[sigma[a as int] as int]);
        assert(paths2[b as int] == paths1[sigma[b as int] as int]);
        if a < b {
            assert(sigma[a as int] != sigma[b as int]);
        } else {
            assert(sigma[b as int] != sigma[a as int]);
        }
        let x = o[i];
        let y = o[j];
        if x < y {
            assert(paths1[x as int] != paths1[y as int]);
        } else {
            assert(paths1[y as int] != paths1[x as int]);
        }
    }
    assert(is_sorted_order(paths1, o));
    lemma_sorted_order_unique(paths1, o, order1);
    assert forall|i: int| 0 <= i < n implies 0 <= (#[trigger] order2[i]) < n && order1[i]
        == sigma[order2[i] as int] by {
        assert(o[i] == sigma[order2[i] as int]);
    }
}

/// Builder determinism: the archive of a builder does not depend on the order in which
/// its files were added, as long as no two of them have the same archive path.
pub proof fn lemma_builder_determinism(
    b1: BuilderView,
    contents1: Seq<Seq<u8>>,
    b2: BuilderView,
    contents2: Seq<Seq<u8>>,
    sigma: Seq<usize>,
)
    requires
        same_files_reordered(b1, contents1, b2, contents2, sigma),
        b1.files.len() <= usize::MAX,
        forall|i: int, j: int|
            0 <= i < j < b1.files.len() ==> (#[trigger] b1.files[i]).1 != (#[trigger] b1.files[j]).1,
    ensures
        spec_archive(b1, contents1) == spec_archive(b2, contents2),
        packable(b1, contents1) == packable(b2, contents2),
{
    let n = b1.files.len() as int;
    let paths1 = archive_paths(b1.files);
    let paths2 = archive_paths(b2.files);
    let order1 = spec_sorted_order(paths1);
    let order2 = spec_sorted_order(paths2);
    let sizes1 = sizes_of(contents1);
    let sizes2 = sizes_of(contents2);
    assert forall|i: int, j: int| 0 <= i < j < paths1.len() implies #[trigger] paths1[i]
        != #[trigger] paths1[j] by {
        assert(b1.files[i].1 != b1.files[j].1);
    }
    lemma_sorted_order_of_reordered(paths1, paths2, sigma);
    assert forall|k: int| 0 <= k <= n implies #[trigger] ordered_total(sizes1, order1, k)
        == ordered_total(sizes2, order2, k) by {
        lemma_same_totals(sizes1, order1, sizes2, order2, sigma, k);
    }
    assert(spec_built(b1, sizes1) =~= spec_built(b2, sizes2));
    assert(in_order(contents1, order1) =~= in_order(contents2, order2));
    assert(spec_items(b1, contents1) == spec_items(b2, contents2));
    lemma_same_bounds(contents1, contents2, sigma);
}

proof fn lemma_same_totals(
    sizes1: Seq<u64>,
    order1: Seq<usize>,
    sizes2: Seq<u64>,
    order2: Seq<usize>,
    sigma: Seq<usize>,
    k: int,
)
    requires
        0 <= k <= order1.len(),
        order1.len() == order2.len(),
        sizes1.len() == order1.len(),
        sizes2.len() == order1.len(),
        sigma.len() == order1.len(),
        forall|i: int|
            0 <= i < order1.len() ==> 0 <= (#[trigger] order2[i]) < order1.len() && order1[i]
                == sigma[order2[i] as int],
        forall|j: int| 0 <= j < sigma.len() ==> (#[trigger] sigma[j]) < sizes1.len(),
        forall|j: int| 0 <= j < sizes2.len() ==> #[trigger] sizes2[j] == sizes1[sigma[j] as int],
    ensures
        ordered_total(sizes1, order1, k) == ordered_total(sizes2, order2, k),
    decreases k,
{
    if k > 0 {
        lemma_same_totals(sizes1, order1, sizes2, order2, sigma, k - 1);
        assert(order1[k - 1] == sigma[order2[k - 1] as int]);
    }
}

/// Contents that are reordered are within bounds if and only if they were before.
proof fn lemma_same_bounds(contents1: Seq<Seq<u8>>, contents2: Seq<Seq<u8>>, sigma: Seq<usize>)
    requires
        contents1.len() == contents2.len(),
        is_permutation(sigma, contents1.len() as int),
        forall|j: int|
            0 <= j < contents2.len() ==> #[trigger] contents2[j] == contents1[sigma[j] as int],
    ensures
        (forall|i: int| 0 <= i < contents1.len() ==> (#[trigger] contents1[i]).len() <= u64::MAX)
            == (forall|i: int|
            0 <= i < contents2.len() ==> (#[trigger] contents2[i]).len() <= u64::MAX),
{
    if forall|i: int| 0 <= i < contents1.len() ==> (#[trigger] contents1[i]).len() <= u64::MAX {
        assert forall|i: int| 0 <= i < contents2.len() implies (#[trigger] contents2[i]).len()
            <= u64::MAX by {
            assert(contents2[i] == contents1[sigma[i] as int]);
        }
    }
    if forall|i: int| 0 <= i < contents2.len() ==> (#[trigger] contents2[i]).len() <= u64::MAX {
        assert forall|i: int| 0 <= i < contents1.len() implies (#[trigger] contents1[i]).len()
            <= u64::MAX by {
            assert(lists_position(sigma, i));
            let j = choose|j: int| 0 <= j < sigma.len() && #[trigger] sigma[j] == i;
            assert(contents2[j] == contents1[i]);
        }
    }
}

/// Classification: no entry of a PF6 archive is encrypted, whatever the patterns are.
/// An entry of a PF8 archive is unencrypted if the name that the index holds for it
/// ends with a pattern that begins with a dot, or is or holds a pattern that does not;
/// every other entry is encrypted.
pub proof fn lemma_classification(data: Seq<u8>, patterns: Seq<Seq<char>>, i: int)
    requires
        can_open(data),
        0 <= i < spec_reader(data, patterns).entries.len(),
    ensures
        ({
            let r = spec_reader(data, patterns);
            let e = r.entries[i];
            &&& r.format == ArchiveFormat::Pf6 ==> !e.encrypted
            &&& r.format == ArchiveFormat::Pf8 ==> (e.encrypted <==> !spec_matches_any(
                e.name,
                patterns,
            ))
            &&& r.format == ArchiveFormat::Pf8 ==> forall|k: int|
                0 <= k < patterns.len() && (#[trigger] patterns[k]).len() > 0 && patterns[k][0]
                    == '.' && is_suffix(e.name, patterns[k]) ==> !e.encrypted
            &&& r.format == ArchiveFormat::Pf8 ==> forall|k: int|
                0 <= k < patterns.len() && !((#[trigger] patterns[k]).len() > 0 && patterns[k][0]
                    == '.') && (e.name == patterns[k] || contains_seq(e.name, patterns[k]))
                    ==> !e.encrypted
        }),
{
}

/// Key determinism: archives that are made of the same files with contents of the same
/// sizes have the same key, whatever the contents are.
pub proof fn lemma_key_ignores_contents(
    b: BuilderView,
    contents1: Seq<Seq<u8>>,
    contents2: Seq<Seq<u8>>,
)
    requires
        packable(b, contents1),
        packable(b, contents2),
        forall|i: int|
            0 <= i < b.files.len() ==> (#[trigger] contents1[i]).len() == contents2[i].len(),
    ensures
        spec_items(b, contents1) == spec_items(b, contents2),
        spec_archive_key(spec_archive(b, contents1), ArchiveFormat::Pf8) == spec_archive_key(
            spec_archive(b, contents2),
            ArchiveFormat::Pf8,
        ),
{
    assert(sizes_of(contents1) =~= sizes_of(contents2));
    let items = spec_items(b, contents1);
    let order = spec_sorted_order(archive_paths(b.files));
    lemma_key_of_archive(
        items,
        spec_payloads(
            spec_built(b, sizes_of(contents1)),
            in_order(contents1, order),
            header_key(items),
            b.files.len() as int,
        ),
    );
    lemma_key_of_archive(
        items,
        spec_payloads(
            spec_built(b, sizes_of(contents2)),
            in_order(contents2, order),
            header_key(items),
            b.files.len() as int,
        ),
    );
}

/// If all entries from `from` up to entry `k` lie inside the archive, the first that
/// lies out of bounds is no entry before entry `k`.
pub proof fn lemma_first_out_of_bounds_behind(
    r: ReaderView,
    entries: Seq<Pf8EntryView>,
    from: int,
    k: int,
)
    requires
        0 <= from <= k <= entries.len(),
        forall|j: int|
            from <= j < k ==> payload_in_bounds(#[trigger] entries[j], r.data.len() as int),
    ensures
        first_out_of_bounds(r, entries, from) >= k,
    decreases entries.len() - from,
{
    if from < k {
        lemma_first_out_of_bounds_behind(r, entries, from + 1, k);
    } else if from < entries.len() && payload_in_bounds(entries[from], r.data.len() as int) {
        lemma_first_out_of_bounds_behind(r, entries, from + 1, from + 1);
    }
}

/// Cancellation: a handler that answers `Abort` to the begin of entry `k`, and to
/// nothing else, has an extraction end with `Cancelled` when the entries before entry
/// `k` are extracted whole and before the file of entry `k` is created. The path of
/// entry `k` must be the path of no other entry, and the payloads of the entries
/// before it must lie inside the archive.
pub proof fn lemma_abort_at_entry<H: ArchiveHandler>(
    before: Seq<ExtractedView>,
    after: Seq<ExtractedView>,
    r: ReaderView,
    entries: Seq<Pf8EntryView>,
    paths: Seq<Seq<char>>,
    res: Result<(), Error>,
    k: int,
)
    requires
        handled_extraction::<H>(before, after, r, entries, paths, res),
        0 <= k < entries.len(),
        forall|j: int|
            0 <= j < entries.len() && j != k ==> (#[trigger] entries[j]).path != entries[k].path,
        forall|j: int| 0 <= j < k ==> payload_in_bounds(#[trigger] entries[j], r.data.len() as int),
        forall|handler: &mut H, told: &ArchiveEvent, action: ControlAction|
            #[trigger] call_ensures(H::on_event, (handler, told), action) ==> (action
                == ControlAction::Abort <==> told@ == EventView::EntryStarted(entries[k].path)),
    ensures
        res matches Err(Error::Cancelled),
        after == before + spec_extracted(r, entries, paths, k),
{
    let begin = EventView::EntryStarted(entries[k].path);
    // The handler cannot have answered `Continue` to the begin of entry `k`.
    assert(!answered::<H>(begin, ControlAction::Continue));
    match res {
        Ok(()) => {
            assert(entry_heard::<H>(entries[k].path));
        },
        Err(Error::Corrupted(_)) => {
            let first = first_out_of_bounds(r, entries, 0);
            lemma_first_out_of_bounds_behind(r, entries, 0, k);
            if first > k {
                assert(entry_heard::<H>(entries[k].path));
            }
        },
        Err(Error::Cancelled) => {
            let (at, part, event) = choose|at: int, part: Option<int>, event: EventView|
                {
                    &&& #[trigger] stopped_at(entries, at, part, event)
                    &&& cut_at(before, after, r, entries, paths, at, part)
                    &&& answered::<H>(event, ControlAction::Abort)
                    &&& event is Started || continued_before::<H>(entries, at, part is Some)
                };
            assert(event == begin);
            assert(at == k);
        },
        Err(_) => {},
    }
}

/// Cancellation of packing: a handler that answers `Abort` to the begin of entry `k`,
/// and to nothing else, has a pack operation on a new writer end with `Cancelled` when
/// the header and the payloads of the entries before entry `k` are written, and nothing
/// of entry `k`. The path of entry `k` must be the path of no other entry.
pub proof fn lemma_pack_abort_at_entry<H: ArchiveHandler>(
    before: WriterView,
    w: WriterView,
    items: Seq<IndexItem>,
    entries: Seq<Pf8EntryView>,
    contents: Seq<Seq<u8>>,
    res: Result<(), Error>,
    k: int,
)
    requires
        handled_pack::<H>(before, w, items, entries, contents, res),
        before.state == WriterState::Created,
        layout_fits(items),
        0 <= k < entries.len(),
        forall|j: int|
            0 <= j < entries.len() && j != k ==> (#[trigger] entries[j]).path != entries[k].path,
        forall|handler: &mut H, told: &ArchiveEvent, action: ControlAction|
            #[trigger] call_ensures(H::on_event, (handler, told), action) ==> (action
                == ControlAction::Abort <==> told@ == EventView::EntryStarted(entries[k].path)),
    ensures
        res matches Err(Error::Cancelled),
        w.pending == before.pending + spec_header(items) + spec_payloads(
            entries,
            contents,
            header_key(items),
            k,
        ),
{
    let begin = EventView::EntryStarted(entries[k].path);
    assert(!answered::<H>(begin, ControlAction::Continue));
    match res {
        Ok(()) => {
            assert(entry_heard::<H>(entries[k].path));
        },
        Err(Error::Cancelled) => {
            assert(!answered::<H>(
                EventView::Started(OperationType::Pack),
                ControlAction::Abort,
            ));
            let (at, n, event) = choose|at: int, n: int, event: EventView|
                {
                    &&& #[trigger] pack_stopped_at(entries, at, n, event)
                    &&& pack_cut(before, w, items, entries, contents, at, n)
                    &&& answered::<H>(event, ControlAction::Abort)
                    &&& pack_continued_before::<H>(entries, at, event is EntryFinished)
                };
            assert(event == begin);
            assert(at == k);
            assert(contents[k].take(0) =~= Seq::<u8>::empty());
            assert(stored_bytes(entries[k], contents[k].take(0), header_key(items), 0)
                =~= Seq::<u8>::empty());
            assert(w.pending =~= before.pending + spec_header(items) + spec_payloads(
                entries,
                contents,
                header_key(items),
                k,
            ));
        },
        Err(_) => {},
    }
}

/// Key determinism at the writer: entries with the same names and sizes, in the same
/// order, give the same header and the same key, whatever else they hold.
pub proof fn lemma_header_of_names_and_sizes(first: Seq<Pf8Entry>, second: Seq<Pf8Entry>)
    requires
        first.len() == second.len(),
        forall|i: int|
            0 <= i < first.len() ==> (#[trigger] first[i])@.name == second[i]@.name && first[i]@.size
                == second[i]@.size,
    ensures
        items_of(first) == items_of(second),
        spec_header(items_of(first)) == spec_header(items_of(second)),
        header_key(items_of(first)) == header_key(items_of(second)),
{
    assert(items_of(first) =~= items_of(second));
}

} // verus!
