//! Reading what was built: an archive built from a catalogue and contents
//! reads back as that catalogue, in the order of the ids, with those contents.

use crate::bytes::lemma_le_u32_of_u32_le;
use crate::bytes::spec_u32_le;
use crate::bytes::zeros;
use crate::error::PacError;
use crate::pac::lemma_max_name_len;
use crate::pac::parser::is_first_nul;
use crate::pac::parser::spec_data_len;
use crate::pac::parser::spec_files_of;
use crate::pac::parser::spec_meta_of;
use crate::pac::parser::spec_parse;
use crate::pac::parser::spec_parse_entries;
use crate::pac::parser::spec_parse_entry;
use crate::pac::parser::spec_parse_header;
use crate::pac::parser::spec_parse_name;
use crate::pac::parser::spec_sizes;
use crate::pac::parser::spec_split_data;
use crate::pac::parser::FileModel;
use crate::pac::parser::RecordModel;
use crate::pac::spec_entry_bytes;
use crate::pac::spec_header_bytes;
use crate::pac::spec_magic;
use crate::pac::spec_max_name_len;
use crate::pac::spec_record_len;
use crate::pac::writer::lemma_data_section_len;
use crate::pac::writer::lemma_sorted_order;
use crate::pac::writer::spec_contents;
use crate::pac::writer::spec_data_section;
use crate::pac::writer::spec_encode;
use crate::pac::writer::spec_entry_table;
use crate::pac::writer::spec_header_of;
use crate::pac::writer::spec_ids;
use crate::pac::writer::spec_sorted_entries;
use crate::pac::writer::spec_sorted_order;
use crate::pac::writer::spec_too_large;
use crate::pac::EntryModel;
use crate::pac::MetaModel;
use crate::pac::PacHeader;
use crate::utils::lemma_round_up_is_multiple;
use crate::utils::spec_to_fixed_length;
use vstd::prelude::*;
use vstd::utf8::encode_utf8;
use vstd::utf8::encode_utf8_decode_utf8;
use vstd::utf8::encode_utf8_valid_utf8;

verus! {

/// A header that announces at least one entry is read back from its bytes,
/// whatever follows them.
pub proof fn lemma_parse_header_of_bytes(header: PacHeader, rest: Seq<u8>)
    requires
        header.file_count != 0,
    ensures
        spec_header_bytes(header).len() == 32,
        spec_parse_header(spec_header_bytes(header) + rest) == Ok::<PacHeader, PacError>(header),
{
    reveal(spec_header_bytes);
    let input = spec_header_bytes(header) + rest;
    lemma_le_u32_of_u32_le(header.data_start);
    lemma_le_u32_of_u32_le(header.total_size);
    lemma_le_u32_of_u32_le(header.file_count);
    lemma_le_u32_of_u32_le(header.unknown);
    lemma_le_u32_of_u32_le(header.string_size);
    assert(input.subrange(0, 4) =~= spec_magic());
    assert(input.subrange(4, 8) =~= spec_u32_le(header.data_start));
    assert(input.subrange(8, 12) =~= spec_u32_le(header.total_size));
    assert(input.subrange(12, 16) =~= spec_u32_le(header.file_count));
    assert(input.subrange(16, 20) =~= spec_u32_le(header.unknown));
    assert(input.subrange(20, 24) =~= spec_u32_le(header.string_size));
}

/// A name without a zero byte is read back from a field that is wider than it.
pub proof fn lemma_parse_name_of_field(name: Seq<char>, size: nat)
    requires
        !encode_utf8(name).contains(0u8),
        encode_utf8(name).len() < size,
    ensures
        spec_parse_name(spec_to_fixed_length(encode_utf8(name), size)) == Some(name),
{
    let bytes = encode_utf8(name);
    let field = spec_to_fixed_length(bytes, size);
    let at = bytes.len() as int;
    assert forall|j: int| 0 <= j < at implies field[j] != 0 by {
        if bytes[j] == 0 {
            assert(bytes.contains(0u8));
        }
    }
    assert(is_first_nul(field, at));
    let chosen = choose|p: int| is_first_nul(field, p);
    assert(is_first_nul(field, chosen));
    if chosen < at {
        assert(field[chosen] != 0);
    } else if at < chosen {
        assert(field[at] != 0);
    }
    assert(field.subrange(0, at) =~= bytes);
    encode_utf8_valid_utf8(name);
    encode_utf8_decode_utf8(name);
}

/// An entry record is read back from its bytes, whatever follows them.
pub proof fn lemma_parse_entry_of_bytes(
    entry: EntryModel,
    offset: u32,
    size: u32,
    string_size: nat,
    rest: Seq<u8>,
    index: usize,
)
    requires
        !entry.name_bytes().contains(0u8),
        entry.name_bytes().len() < string_size,
    ensures
        spec_entry_bytes(entry.name_bytes(), entry.id, offset, size, string_size).len()
            == spec_record_len(string_size),
        spec_parse_entry(
            spec_entry_bytes(entry.name_bytes(), entry.id, offset, size, string_size) + rest,
            string_size,
            index,
        ) == Ok::<RecordModel, PacError>(
            RecordModel { name: entry.name, id: entry.id, offset, size },
        ),
{
    let width = string_size as int;
    let field = spec_to_fixed_length(entry.name_bytes(), string_size);
    let record = spec_entry_bytes(entry.name_bytes(), entry.id, offset, size, string_size) + rest;
    lemma_round_up_is_multiple(width + 12, 16);
    lemma_parse_name_of_field(entry.name, string_size);
    lemma_le_u32_of_u32_le(entry.id);
    lemma_le_u32_of_u32_le(offset);
    lemma_le_u32_of_u32_le(size);
    assert(record.subrange(0, width) =~= field);
    assert(record.subrange(width, width + 4) =~= spec_u32_le(entry.id));
    assert(record.subrange(width + 4, width + 8) =~= spec_u32_le(offset));
    assert(record.subrange(width + 8, width + 12) =~= spec_u32_le(size));
}

/// The record that the entry at `k` is written as.
pub open spec fn spec_record_of(sorted: Seq<EntryModel>, contents: Seq<Seq<u8>>, k: int) -> RecordModel {
    RecordModel {
        name: sorted[k].name,
        id: sorted[k].id,
        offset: spec_data_section(contents, k as nat).len() as u32,
        size: contents[k].len() as u32,
    }
}

/// The first `count` records of a built entry table are read back from it,
/// whatever follows them.
pub proof fn lemma_parse_entries_of_table(
    sorted: Seq<EntryModel>,
    contents: Seq<Seq<u8>>,
    string_size: nat,
    count: nat,
    rest: Seq<u8>,
)
    requires
        count <= sorted.len(),
        count <= usize::MAX,
        forall|k: int|
            0 <= k < sorted.len() ==> !(#[trigger] sorted[k]).name_bytes().contains(0u8)
                && sorted[k].name_bytes().len() < string_size,
    ensures
        spec_entry_table(sorted, contents, string_size, count).len() == count * spec_record_len(
            string_size,
        ),
        spec_parse_entries(
            spec_entry_table(sorted, contents, string_size, count) + rest,
            count,
            string_size,
        ) == Ok::<Seq<RecordModel>, PacError>(
            Seq::new(count, |k: int| spec_record_of(sorted, contents, k)),
        ),
    decreases count,
{
    let record_len = spec_record_len(string_size);
    if count == 0 {
        assert(Seq::new(0, |k: int| spec_record_of(sorted, contents, k)) =~= Seq::<
            RecordModel,
        >::empty());
    } else {
        let before = (count - 1) as nat;
        let last = spec_entry_bytes(
            sorted[count - 1].name_bytes(),
            sorted[count - 1].id,
            spec_data_section(contents, before).len() as u32,
            contents[count - 1].len() as u32,
            string_size,
        );
        let front = spec_entry_table(sorted, contents, string_size, before);
        let table = spec_entry_table(sorted, contents, string_size, count);
        lemma_parse_entries_of_table(sorted, contents, string_size, before, last + rest);
        lemma_parse_entry_of_bytes(
            sorted[count - 1],
            spec_data_section(contents, before).len() as u32,
            contents[count - 1].len() as u32,
            string_size,
            rest,
            (count - 1) as usize,
        );
        assert(count * record_len == before * record_len + record_len) by (nonlinear_arith)
            requires
                before == count - 1,
        ;
        assert(table + rest =~= front + (last + rest));
        assert((table + rest).skip((count - 1) * record_len) =~= last + rest);
        assert(Seq::new(before, |k: int| spec_record_of(sorted, contents, k)).push(
            spec_record_of(sorted, contents, count - 1),
        ) =~= Seq::new(count, |k: int| spec_record_of(sorted, contents, k)));
    }
}

/// The sizes of the first `count` contents as the records hold them.
pub open spec fn spec_sizes_of(contents: Seq<Seq<u8>>, count: nat) -> Seq<u32> {
    Seq::new(count, |k: int| contents[k].len() as u32)
}

/// The first `count` contents are found again in a built data section,
/// whatever follows it.
pub proof fn lemma_split_of_data_section(contents: Seq<Seq<u8>>, count: nat, rest: Seq<u8>)
    requires
        count <= contents.len(),
        forall|k: int| 0 <= k < count ==> (#[trigger] contents[k]).len() <= u32::MAX,
    ensures
        spec_data_len(spec_sizes_of(contents, count)) == spec_data_section(contents, count).len(),
        spec_split_data(spec_data_section(contents, count) + rest, spec_sizes_of(contents, count))
            == Some(contents.take(count as int)),
    decreases count,
{
    if count == 0 {
        assert(contents.take(0) =~= Seq::<Seq<u8>>::empty());
    } else {
        let before = (count - 1) as nat;
        let last = contents[count - 1];
        let padding = zeros(
            crate::utils::spec_needed_to_align(last.len() as int, 16) as nat,
        );
        let sizes = spec_sizes_of(contents, count);
        let front = spec_data_section(contents, before);
        let data = spec_data_section(contents, count);
        lemma_round_up_is_multiple(last.len() as int, 16);
        lemma_split_of_data_section(contents, before, last + padding + rest);
        assert(sizes.drop_last() =~= spec_sizes_of(contents, before));
        assert(data + rest =~= front + (last + padding + rest));
        assert((data + rest).subrange(front.len() as int, front.len() as int + last.len() as int) =~= last);
        assert(contents.take(before as int).push(last) =~= contents.take(count as int));
    }
}

/// An archive that is built reads back as its catalogue, in the order of the
/// ids, with the contents it was built from, where no name holds a zero byte
/// and the name fields, with the twelve bytes of numbers that follow, do not
/// end on a multiple of 16. (Where they do, the header's data start leaves the
/// entry table out, and the contents are looked for in the wrong place.)
pub proof fn theorem_parse_of_encode(meta: MetaModel, files: Seq<FileModel>)
    requires
        spec_encode(meta, files) is Ok,
        forall|i: int|
            0 <= i < meta.entries.len() ==> !(#[trigger] meta.entries[i]).name_bytes().contains(
                0u8,
            ),
        (meta.string_size().unwrap() + 12) % 16 != 0,
    ensures
        spec_parse(spec_encode(meta, files).unwrap()) == Ok::<
            (MetaModel, Seq<FileModel>),
            PacError,
        >(
            (
                MetaModel { unknown: meta.unknown, entries: spec_sorted_entries(meta.entries) },
                Seq::new(
                    meta.entries.len(),
                    |k: int|
                        FileModel {
                            name: spec_sorted_entries(meta.entries)[k].name,
                            contents: spec_contents(spec_sorted_entries(meta.entries), files)[k],
                        },
                ),
            ),
        ),
{
    let n = meta.entries.len();
    let order = spec_sorted_order(spec_ids(meta.entries));
    let sorted = spec_sorted_entries(meta.entries);
    let contents = spec_contents(sorted, files);
    let width = meta.string_size().unwrap();
    let string_size = width as nat;
    let record_len = spec_record_len(string_size);
    let header = spec_header_of(meta, contents);
    let head = spec_header_bytes(header);
    let table = spec_entry_table(sorted, contents, string_size, n);
    let data = spec_data_section(contents, n);
    let archive = spec_encode(meta, files).unwrap();
    assert(n > 0);
    assert(!spec_too_large(meta, contents));
    assert(archive == head + table + data);

    lemma_sorted_order(spec_ids(meta.entries));
    lemma_max_name_len(meta.entries);
    lemma_round_up_is_multiple(spec_max_name_len(meta.entries) as int, 4);
    lemma_round_up_is_multiple(width + 12, 16);
    assert forall|k: int| 0 <= k < sorted.len() implies !(#[trigger] sorted[k]).name_bytes().contains(
        0u8,
    ) && sorted[k].name_bytes().len() < string_size by {
        assert(0 <= order[k] < n);
        assert(sorted[k] == meta.entries[order[k]]);
    }
    assert(meta.entry_size().unwrap() == record_len * n);
    assert(record_len * n == n * record_len) by (nonlinear_arith);
    assert(0 <= n * record_len) by (nonlinear_arith)
        requires
            0 <= n,
            0 <= record_len,
    ;

    lemma_parse_header_of_bytes(header, table + data);
    assert(archive =~= head + (table + data));
    assert(archive.skip(32) =~= table + data);
    lemma_parse_entries_of_table(sorted, contents, string_size, n, data);
    let records = Seq::new(n, |k: int| spec_record_of(sorted, contents, k));

    assert(header.data_start == 32 + n * record_len);
    assert(archive.skip(header.data_start as int) =~= data);
    assert forall|k: int| 0 <= k < n implies (#[trigger] contents[k]).len() <= u32::MAX by {
        lemma_data_section_len(contents, k as nat, n);
    }
    lemma_split_of_data_section(contents, n, Seq::empty());
    assert(data + Seq::<u8>::empty() =~= data);
    assert(spec_sizes(records) =~= spec_sizes_of(contents, n));
    assert(contents.take(n as int) =~= contents);
    assert(spec_meta_of(header.unknown, records).entries =~= sorted);
    assert(spec_files_of(records, contents) =~= Seq::new(
        n,
        |k: int| FileModel { name: sorted[k].name, contents: contents[k] },
    ));
}

} // verus!
