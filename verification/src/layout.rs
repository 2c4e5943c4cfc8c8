//! The bytes of a header and index, as a function of the names and sizes of the entries.

use vstd::prelude::*;
use vstd::utf8::encode_utf8;
use crate::entry::{Pf8Entry, Pf8EntryView};
use crate::format::offsets::{FILESIZE_OFFSETS_START, INDEX_DATA_START};

verus! {

/// What the index says of one entry: the bytes of its name and the size of its payload.
pub ghost struct IndexItem {
    pub name: Seq<u8>,
    pub size: u32,
}

/// The index items of a list of entries. The offsets that the entries hold play no part:
/// the header gives each payload the place that the sizes before it leave.
pub open spec fn items_of(entries: Seq<Pf8Entry>) -> Seq<IndexItem> {
    entries.map_values(|e: Pf8Entry| item_of(e@))
}

/// The index item of one entry.
pub open spec fn item_of(e: Pf8EntryView) -> IndexItem {
    IndexItem { name: encode_utf8(e.name), size: e.size }
}

/// The four bytes of `x`, least significant first.
#[verifier::opaque]
pub open spec fn u32_le_bytes(x: int) -> Seq<u8> {
    seq![
        (x % 0x100) as u8,
        (x / 0x100 % 0x100) as u8,
        (x / 0x1_0000 % 0x100) as u8,
        (x / 0x100_0000 % 0x100) as u8,
    ]
}

/// The eight bytes of `x`, least significant first.
#[verifier::opaque]
pub open spec fn u64_le_bytes(x: int) -> Seq<u8> {
    u32_le_bytes(x % 0x1_0000_0000) + u32_le_bytes(x / 0x1_0000_0000)
}

/// The length of all records together: each takes its name and 16 bytes more.
pub open spec fn records_size(items: Seq<IndexItem>) -> int
    decreases items.len(),
{
    if items.len() == 0 {
        0
    } else {
        records_size(items.drop_last()) + items.last().name.len() + 16
    }
}

/// The length of all payloads together.
pub open spec fn payload_size(items: Seq<IndexItem>) -> int
    decreases items.len(),
{
    if items.len() == 0 {
        0
    } else {
        payload_size(items.drop_last()) + items.last().size
    }
}

/// The value of the `index_size` field: the count, the records, the count of the offset
/// table, the table with its closing zero, and the pointer behind it.
pub open spec fn spec_index_size(items: Seq<IndexItem>) -> int {
    4 + records_size(items) + 4 + 8 * (items.len() + 1) + 4
}

/// The position of the first payload byte.
pub open spec fn spec_data_start(items: Seq<IndexItem>) -> int {
    spec_index_size(items) + 7
}

/// Whether the archive can be written: every field of the index, and the archive as a
/// whole, must fit into 32 bits.
pub open spec fn layout_fits(items: Seq<IndexItem>) -> bool {
    spec_data_start(items) + payload_size(items) <= u32::MAX
}

/// One record whose payload lies at `offset`.
pub open spec fn record_bytes(item: IndexItem, offset: int) -> Seq<u8> {
    u32_le_bytes(item.name.len() as int) + item.name + seq![0u8, 0u8, 0u8, 0u8] + u32_le_bytes(
        offset,
    ) + u32_le_bytes(item.size as int)
}

/// All records, the first payload lying at `base` and each following one behind the one
/// before.
pub open spec fn records_bytes(items: Seq<IndexItem>, base: int) -> Seq<u8>
    decreases items.len(),
{
    if items.len() == 0 {
        Seq::empty()
    } else {
        records_bytes(items.drop_last(), base) + record_bytes(
            items.last(),
            base + payload_size(items.drop_last()),
        )
    }
}

/// The offset table without its closing zero: for each record, how far its size field
/// lies behind the start of the records.
pub open spec fn table_bytes(items: Seq<IndexItem>) -> Seq<u8>
    decreases items.len(),
{
    if items.len() == 0 {
        Seq::empty()
    } else {
        table_bytes(items.drop_last()) + u64_le_bytes(
            records_size(items.drop_last()) + items.last().name.len() + 12,
        )
    }
}

/// The header and index of a PF8 archive with the given entries.
#[verifier::opaque]
pub open spec fn spec_header(items: Seq<IndexItem>) -> Seq<u8> {
    seq![0x70u8, 0x66u8, 0x38u8] + u32_le_bytes(spec_index_size(items)) + u32_le_bytes(
        items.len() as int,
    ) + records_bytes(items, spec_data_start(items)) + u32_le_bytes(items.len() as int + 1)
        + table_bytes(items) + u64_le_bytes(0) + u32_le_bytes(4 + records_size(items))
}

/// A number takes four bytes, or eight.
pub proof fn lemma_le_bytes_len(x: int)
    ensures
        u32_le_bytes(x).len() == 4,
        u64_le_bytes(x).len() == 8,
{
    reveal(u32_le_bytes);
    reveal(u64_le_bytes);
}

/// Every number takes four bytes, or eight.
pub proof fn lemma_le_bytes_lens()
    ensures
        forall|x: int| #[trigger] u32_le_bytes(x).len() == 4,
        forall|x: int| #[trigger] u64_le_bytes(x).len() == 8,
{
    assert forall|x: int| #[trigger] u32_le_bytes(x).len() == 4 by {
        lemma_le_bytes_len(x);
    }
    assert forall|x: int| #[trigger] u64_le_bytes(x).len() == 8 by {
        lemma_le_bytes_len(x);
    }
}

/// The sizes are never negative.
pub proof fn lemma_sizes_nonnegative(items: Seq<IndexItem>)
    ensures
        records_size(items) >= 16 * items.len(),
        payload_size(items) >= 0,
    decreases items.len(),
{
    if items.len() > 0 {
        lemma_sizes_nonnegative(items.drop_last());
    }
}

/// Appends the four bytes of `x`.
pub fn push_u32_le(out: &mut Vec<u8>, x: u32)
    ensures
        final(out)@ == old(out)@ + u32_le_bytes(x as int),
        final(out)@.len() == old(out)@.len() + 4,
{
    out.push((x % 0x100) as u8);
    out.push((x / 0x100 % 0x100) as u8);
    out.push((x / 0x1_0000 % 0x100) as u8);
    out.push((x / 0x100_0000 % 0x100) as u8);
    reveal(u32_le_bytes);
    assert(out@ =~= old(out)@ + u32_le_bytes(x as int));
}

/// Appends the eight bytes of `x`.
pub fn push_u64_le(out: &mut Vec<u8>, x: u64)
    ensures
        final(out)@ == old(out)@ + u64_le_bytes(x as int),
        final(out)@.len() == old(out)@.len() + 8,
{
    let low: u32 = (x % 0x1_0000_0000) as u32;
    let high: u32 = (x / 0x1_0000_0000) as u32;
    push_u32_le(out, low);
    push_u32_le(out, high);
    reveal(u64_le_bytes);
    assert(out@ =~= old(out)@ + u64_le_bytes(x as int));
}

/// Appends the record of an entry whose payload lies at `offset`.
pub fn push_record(out: &mut Vec<u8>, name: &[u8], offset: u32, size: u32)
    requires
        name@.len() <= u32::MAX,
    ensures
        final(out)@ == old(out)@ + record_bytes(IndexItem { name: name@, size }, offset as int),
        final(out)@.len() == old(out)@.len() + name@.len() + 16,
{
    push_u32_le(out, name.len() as u32);
    out.extend_from_slice(name);
    out.push(0);
    out.push(0);
    out.push(0);
    out.push(0);
    push_u32_le(out, offset);
    push_u32_le(out, size);
    assert(out@ =~= old(out)@ + record_bytes(IndexItem { name: name@, size }, offset as int));
}

/// Computes `records_size` and `payload_size` of the entries, or nothing if the archive
/// would not fit into 32 bits.
pub fn measure(entries: &[Pf8Entry]) -> (res: Option<(u32, u32)>)
    ensures
        match res {
            Some((records, payload)) => {
                &&& layout_fits(items_of(entries@))
                &&& records == records_size(items_of(entries@))
                &&& payload == payload_size(items_of(entries@))
            },
            None => !layout_fits(items_of(entries@)),
        },
{
    let ghost items = items_of(entries@);
    let limit: u64 = 0xFFFF_FFFF;
    let mut records: u64 = 0;
    let mut payload: u64 = 0;
    let mut i: usize = 0;
    while i < entries.len()
        invariant
            i <= entries.len(),
            limit == u32::MAX,
            items == items_of(entries@),
            records == records_size(items.take(i as int)),
            payload == payload_size(items.take(i as int)),
            19 + records + 8 * (i + 1) + payload <= limit,
        decreases entries.len() - i,
    {
        let name_len = entries[i].pf8_path().as_bytes().len();
        let size = entries[i].size();
        proof {
            assert(items.take(i + 1).drop_last() =~= items.take(i as int));
            assert(items.take(i + 1).last() == items[i as int]);
            assert(items[i as int].name.len() == name_len);
            assert(items[i as int].size == size);
            lemma_sizes_monotone(items, i + 1);
        }
        if name_len as u64 > limit {
            return None;
        }
        records = records + name_len as u64 + 16;
        payload = payload + size as u64;
        i = i + 1;
        if 19 + records + 8 * (i as u64 + 1) + payload > limit {
            return None;
        }
    }
    proof {
        assert(items.take(entries.len() as int) =~= items);
    }
    Some((records as u32, payload as u32))
}

/// A longer list of entries never needs less room.
pub proof fn lemma_sizes_monotone(items: Seq<IndexItem>, k: int)
    requires
        0 <= k <= items.len(),
    ensures
        records_size(items.take(k)) + 16 * (items.len() - k) <= records_size(items),
        payload_size(items.take(k)) <= payload_size(items),
    decreases items.len() - k,
{
    if k == items.len() {
        assert(items.take(k) =~= items);
    } else {
        lemma_sizes_monotone(items, k + 1);
        assert(items.take(k + 1).drop_last() =~= items.take(k));
    }
}

/// Builds the header and index of a PF8 archive for the entries, in their order, or
/// nothing if the archive would not fit into 32 bits.
pub fn encode_header(entries: &[Pf8Entry]) -> (res: Option<Vec<u8>>)
    ensures
        match res {
            Some(header) => {
                &&& layout_fits(items_of(entries@))
                &&& header@ == spec_header(items_of(entries@))
                &&& header@.len() == spec_data_start(items_of(entries@))
                &&& 27 <= header@.len() <= u32::MAX
            },
            None => !layout_fits(items_of(entries@)),
        },
{
    let ghost items = items_of(entries@);
    let (records, payload) = match measure(entries) {
        Some(m) => m,
        None => {
            return None;
        },
    };
    let count: u32 = entries.len() as u32;
    let index_size: u32 = 4 + records + 4 + (count + 1) * 8 + 4;
    let base: u32 = index_size + INDEX_DATA_START as u32;
    let mut out: Vec<u8> = Vec::new();
    out.push(0x70);
    out.push(0x66);
    out.push(0x38);
    push_u32_le(&mut out, index_size);
    push_u32_le(&mut out, count);
    let ghost prefix = out@;
    assert(prefix =~= seq![0x70u8, 0x66u8, 0x38u8] + u32_le_bytes(spec_index_size(items))
        + u32_le_bytes(items.len() as int));
    let mut file_offset: u32 = base;
    let mut size_fields: Vec<u64> = Vec::new();
    let mut i: usize = 0;
    while i < entries.len()
        invariant
            i <= entries.len(),
            items == items_of(entries@),
            layout_fits(items),
            base == spec_data_start(items),
            file_offset == base + payload_size(items.take(i as int)),
            out@ == prefix + records_bytes(items.take(i as int), base as int),
            out@.len() == 11 + records_size(items.take(i as int)),
            size_fields.len() == i,
            forall|j: int|
                0 <= j < i ==> #[trigger] size_fields[j] == records_size(items.take(j))
                    + items[j].name.len() + 12,
        decreases entries.len() - i,
    {
        let name = entries[i].pf8_path().as_bytes();
        let size = entries[i].size();
        proof {
            assert(items.take(i + 1).drop_last() =~= items.take(i as int));
            assert(items.take(i + 1).last() == items[i as int]);
            assert(items[i as int].name == name@);
            assert(items[i as int].size == size);
            lemma_sizes_monotone(items, i + 1);
            lemma_sizes_nonnegative(items.take(i as int));
        }
        size_fields.push((out.len() - FILESIZE_OFFSETS_START + name.len() + 12) as u64);
        push_record(&mut out, name, file_offset, size);
        assert(items[i as int] == (IndexItem { name: name@, size }));
        file_offset = file_offset + size;
        i = i + 1;
    }
    proof {
        assert(items.take(entries.len() as int) =~= items);
    }
    push_u32_le(&mut out, count + 1);
    let ghost before_table = out@;
    let mut j: usize = 0;
    while j < size_fields.len()
        invariant
            j <= size_fields.len(),
            size_fields.len() == items.len(),
            forall|k: int|
                0 <= k < size_fields.len() ==> #[trigger] size_fields[k] == records_size(
                    items.take(k),
                ) + items[k].name.len() + 12,
            out@ == before_table + table_bytes(items.take(j as int)),
        decreases size_fields.len() - j,
    {
        proof {
            assert(items.take(j + 1).drop_last() =~= items.take(j as int));
            assert(items.take(j + 1).last() == items[j as int]);
        }
        push_u64_le(&mut out, size_fields[j]);
        j = j + 1;
    }
    proof {
        assert(items.take(items.len() as int) =~= items);
    }
    push_u64_le(&mut out, 0);
    push_u32_le(&mut out, 4 + records);
    reveal(spec_header);
    assert(out@ =~= spec_header(items));
    proof {
        lemma_header_len(items);
        lemma_sizes_nonnegative(items);
    }
    Some(out)
}

/// The header ends where the first payload begins.
pub proof fn lemma_header_len(items: Seq<IndexItem>)
    ensures
        spec_header(items).len() == spec_data_start(items),
        records_bytes(items, spec_data_start(items)).len() == records_size(items),
        table_bytes(items).len() == 8 * items.len(),
{
    reveal(spec_header);
    lemma_le_bytes_lens();
    lemma_records_len(items, spec_data_start(items));
    lemma_table_len(items);
}

/// The records take `records_size` bytes.
pub proof fn lemma_records_len(items: Seq<IndexItem>, base: int)
    ensures
        records_bytes(items, base).len() == records_size(items),
    decreases items.len(),
{
    if items.len() > 0 {
        lemma_le_bytes_lens();
        lemma_records_len(items.drop_last(), base);
    }
}

/// The offset table takes eight bytes for each entry.
pub proof fn lemma_table_len(items: Seq<IndexItem>)
    ensures
        table_bytes(items).len() == 8 * items.len(),
    decreases items.len(),
{
    if items.len() > 0 {
        lemma_le_bytes_lens();
        lemma_table_len(items.drop_last());
    }
}

} // verus!
