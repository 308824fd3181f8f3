//! Reading an archive.
//!
//! The header and the entry records are read in their order. The offsets and
//! sizes that the records hold are not used to find the contents: a cursor
//! starts at the header's data start and takes, for each record in turn, as
//! many bytes as the record's size says, and then the zero bytes up to the next
//! multiple of 16.

use crate::bytes::read_u32_le;
use crate::bytes::spec_le_u32;
use crate::error::PacError;
use crate::error::Section;
use crate::pac::spec_magic;
use crate::pac::spec_record_len;
use crate::pac::EntryModel;
use crate::pac::MetaModel;
use crate::pac::PacHeader;
use crate::pac::PacMeta;
use crate::pac::HEADER_MAGIC;
use crate::pac::HEADER_SIZE;
use crate::utils;
use crate::utils::spec_needed_to_align;
use vstd::prelude::*;
use vstd::slice::slice_subrange;
use vstd::slice::slice_to_vec;
use vstd::string::StringSliceAdditionalSpecFns;
use vstd::utf8::decode_utf8;
use vstd::utf8::encode_utf8_decode_utf8;
use vstd::utf8::valid_utf8;

verus! {

/// One file of an archive: its name and what it holds.
#[derive(Debug, Clone, PartialEq, Eq)]
pub struct NamedFile {
    pub name: String,
    pub contents: Vec<u8>,
}

/// What a [`NamedFile`] stands for.
pub struct FileModel {
    pub name: Seq<char>,
    pub contents: Seq<u8>,
}

impl View for NamedFile {
    type V = FileModel;

    open spec fn view(&self) -> FileModel {
        FileModel { name: self.name@, contents: self.contents@ }
    }
}

/// The views of the files of `files`, in their order.
pub open spec fn spec_files(files: Seq<NamedFile>) -> Seq<FileModel> {
    Seq::new(files.len(), |i: int| files[i]@)
}

/// One entry record as it was read.
#[derive(Debug, Clone, PartialEq, Eq)]
pub struct FileEntry {
    pub name: String,
    pub id: u32,
    pub offset: u32,
    pub size: u32,
}

/// What a [`FileEntry`] stands for.
pub struct RecordModel {
    pub name: Seq<char>,
    pub id: u32,
    pub offset: u32,
    pub size: u32,
}

impl View for FileEntry {
    type V = RecordModel;

    open spec fn view(&self) -> RecordModel {
        RecordModel { name: self.name@, id: self.id, offset: self.offset, size: self.size }
    }
}

/// The views of the records of `entries`, in their order.
pub open spec fn spec_records(entries: Seq<FileEntry>) -> Seq<RecordModel> {
    Seq::new(entries.len(), |i: int| entries[i]@)
}

/// What an archive holds: its catalogue, and its files in the order of the catalogue.
#[derive(Debug, Clone, PartialEq, Eq)]
pub struct ParsedPac {
    pub meta: PacMeta,
    pub files: Vec<NamedFile>,
}

/// The header that `input` begins with, or why it has none.
pub open spec fn spec_parse_header(input: Seq<u8>) -> Result<PacHeader, PacError> {
    if input.len() < 4 || input.subrange(0, 4) != spec_magic() {
        Err(PacError::BadMagic)
    } else if input.len() < 16 {
        Err(PacError::Truncated(Section::Header))
    } else if spec_le_u32(input.subrange(12, 16)) == 0 {
        Err(PacError::ZeroEntries)
    } else if input.len() < 32 {
        Err(PacError::Truncated(Section::Header))
    } else {
        Ok(
            PacHeader {
                data_start: spec_le_u32(input.subrange(4, 8)),
                total_size: spec_le_u32(input.subrange(8, 12)),
                file_count: spec_le_u32(input.subrange(12, 16)),
                unknown: spec_le_u32(input.subrange(16, 20)),
                string_size: spec_le_u32(input.subrange(20, 24)),
            },
        )
    }
}

/// Reads the header at the start of `input`. The eight bytes after the five
/// numbers are passed over unread.
pub fn parse_header(input: &[u8]) -> (header: Result<PacHeader, PacError>)
    ensures
        header == spec_parse_header(input@),
{
    if input.len() < 4 || input[0] != HEADER_MAGIC[0] || input[1] != HEADER_MAGIC[1] || input[2]
        != HEADER_MAGIC[2] || input[3] != HEADER_MAGIC[3] {
        proof {
            if input@.len() >= 4 {
                let head = input@.subrange(0, 4);
                assert(head[0] == input@[0] && head[1] == input@[1] && head[2] == input@[2]
                    && head[3] == input@[3]);
            }
        }
        return Err(PacError::BadMagic);
    }
    assert(input@.subrange(0, 4) =~= spec_magic());
    if input.len() < 16 {
        return Err(PacError::Truncated(Section::Header));
    }
    let data_start: u32 = read_u32_le(input, 4);
    let total_size: u32 = read_u32_le(input, 8);
    let file_count: u32 = read_u32_le(input, 12);
    if file_count == 0 {
        return Err(PacError::ZeroEntries);
    }
    if input.len() < HEADER_SIZE {
        return Err(PacError::Truncated(Section::Header));
    }
    let unknown: u32 = read_u32_le(input, 16);
    let string_size: u32 = read_u32_le(input, 20);
    Ok(PacHeader { data_start, total_size, file_count, unknown, string_size })
}

/// Whether the byte at `at` is the first zero byte of `field`.
pub open spec fn is_first_nul(field: Seq<u8>, at: int) -> bool {
    &&& 0 <= at < field.len()
    &&& field[at] == 0
    &&& forall|j: int| 0 <= j < at ==> field[j] != 0
}

/// The name that a name field holds: the text that its bytes before the first
/// zero byte encode. A field without a zero byte holds none, nor does one whose
/// bytes before it are not UTF-8.
pub open spec fn spec_parse_name(field: Seq<u8>) -> Option<Seq<char>> {
    if exists|at: int| is_first_nul(field, at) {
        let at = choose|at: int| is_first_nul(field, at);
        let text = field.subrange(0, at);
        if valid_utf8(text) {
            Some(decode_utf8(text))
        } else {
            None
        }
    } else {
        None
    }
}

/// The record that `record` begins with, where name fields have `string_size`
/// bytes and the record is the one with number `index` of its table.
pub open spec fn spec_parse_entry(record: Seq<u8>, string_size: nat, index: usize) -> Result<
    RecordModel,
    PacError,
> {
    if record.len() < string_size {
        Err(PacError::Truncated(Section::EntryTable))
    } else {
        match spec_parse_name(record.subrange(0, string_size as int)) {
            None => Err(PacError::FileEntry(index)),
            Some(name) => if record.len() < spec_record_len(string_size) {
                Err(PacError::Truncated(Section::EntryTable))
            } else {
                Ok(
                    RecordModel {
                        name,
                        id: spec_le_u32(record.subrange(string_size as int, string_size as int + 4)),
                        offset: spec_le_u32(
                            record.subrange(string_size as int + 4, string_size as int + 8),
                        ),
                        size: spec_le_u32(
                            record.subrange(string_size as int + 8, string_size as int + 12),
                        ),
                    },
                )
            },
        }
    }
}

/// Checks that `bytes` are UTF-8 and hands them back as text.
///
/// Trusted: calls `core::str::from_utf8`, which returns the bytes as a string
/// slice where they are valid UTF-8 and an error where they are not.
#[verifier::external_body]
fn str_from_utf8(bytes: &[u8]) -> (text: Option<&str>)
    ensures
        text is Some <==> valid_utf8(bytes@),
        text matches Some(s) ==> s.spec_bytes() == bytes@,
{
    core::str::from_utf8(bytes).ok()
}

/// Reads the name in the field of `size` bytes that `input` begins with.
fn take_str_of_size(input: &[u8], size: u32) -> (name: Option<String>)
    requires
        size <= input@.len(),
    ensures
        match name {
            Some(s) => spec_parse_name(input@.subrange(0, size as int)) == Some(s@),
            None => spec_parse_name(input@.subrange(0, size as int)) is None,
        },
{
    let ghost field = input@.subrange(0, size as int);
    let mut at: usize = 0;
    while at < size as usize && input[at] != 0
        invariant
            at <= size,
            size <= input@.len(),
            field == input@.subrange(0, size as int),
            forall|j: int| 0 <= j < at ==> field[j] != 0,
        decreases size - at,
    {
        at = at + 1;
    }
    if at == size as usize {
        assert(forall|p: int| !is_first_nul(field, p));
        return None;
    }
    assert(is_first_nul(field, at as int));
    proof {
        let chosen = choose|p: int| is_first_nul(field, p);
        assert(is_first_nul(field, chosen));
        assert(chosen == at) by {
            if chosen < at {
                assert(field[chosen] != 0);
            } else if at < chosen {
                assert(field[at as int] != 0);
            }
        }
    }
    let text: &[u8] = slice_subrange(input, 0, at);
    assert(text@ =~= field.subrange(0, at as int));
    match str_from_utf8(text) {
        Some(s) => {
            proof {
                encode_utf8_decode_utf8(s@);
            }
            Some(s.to_owned())
        },
        None => None,
    }
}

/// Reads the entry record that `input` begins with: the name, the id, the
/// offset and the size, and the padding after them. `index` is the number of
/// the record in its table, for the error.
pub fn parse_entry(input: &[u8], string_size: u32, index: usize) -> (entry: Result<
    FileEntry,
    PacError,
>)
    ensures
        match entry {
            Ok(e) => spec_parse_entry(input@, string_size as nat, index) == Ok::<
                RecordModel,
                PacError,
            >(e@),
            Err(err) => spec_parse_entry(input@, string_size as nat, index) == Err::<
                RecordModel,
                PacError,
            >(err),
        },
{
    let width: usize = string_size as usize;
    if input.len() < width {
        return Err(PacError::Truncated(Section::EntryTable));
    }
    let file_name: String = match take_str_of_size(input, string_size) {
        Some(name) => name,
        None => {
            return Err(PacError::FileEntry(index));
        },
    };
    if input.len() - width < 0xC {
        return Err(PacError::Truncated(Section::EntryTable));
    }
    let needed_padding: usize = utils::needed_to_align_with_excess(width + 0xC, 0x10);
    if input.len() - width - 0xC < needed_padding {
        return Err(PacError::Truncated(Section::EntryTable));
    }
    let id: u32 = read_u32_le(input, width);
    let offset: u32 = read_u32_le(input, width + 4);
    let size: u32 = read_u32_le(input, width + 8);

    let file_entry = FileEntry { name: file_name, id, offset, size };
    Ok(file_entry)
}

/// The first `count` records of `table`, where name fields have `string_size`
/// bytes, or what is wrong with the first record that cannot be read.
pub open spec fn spec_parse_entries(table: Seq<u8>, count: nat, string_size: nat) -> Result<
    Seq<RecordModel>,
    PacError,
>
    decreases count,
{
    if count == 0 {
        Ok(Seq::empty())
    } else {
        match spec_parse_entries(table, (count - 1) as nat, string_size) {
            Err(err) => Err(err),
            Ok(before) => match spec_parse_entry(
                table.skip((count - 1) * spec_record_len(string_size)),
                string_size,
                (count - 1) as usize,
            ) {
                Err(err) => Err(err),
                Ok(record) => Ok(before.push(record)),
            },
        }
    }
}

/// An error among the first records is the error of the whole table.
pub proof fn lemma_parse_entries_error(table: Seq<u8>, done: nat, count: nat, string_size: nat)
    requires
        done <= count,
        spec_parse_entries(table, done, string_size) is Err,
    ensures
        spec_parse_entries(table, count, string_size) == spec_parse_entries(
            table,
            done,
            string_size,
        ),
    decreases count - done,
{
    if done < count {
        lemma_parse_entries_error(table, done, (count - 1) as nat, string_size);
    }
}

/// A table that can be read holds all its records, and as many are read as
/// were asked for.
pub proof fn lemma_parse_entries_len(table: Seq<u8>, count: nat, string_size: nat)
    requires
        spec_parse_entries(table, count, string_size) is Ok,
    ensures
        count * spec_record_len(string_size) <= table.len(),
        spec_parse_entries(table, count, string_size).unwrap().len() == count,
    decreases count,
{
    if count > 0 {
        let before = (count - 1) as nat;
        let record_len = spec_record_len(string_size);
        lemma_parse_entries_len(table, before, string_size);
        assert(count * record_len == before * record_len + record_len) by (nonlinear_arith)
            requires
                before == count - 1,
        ;
        let rest = table.skip((count - 1) * spec_record_len(string_size));
        assert(spec_parse_entry(rest, string_size, (count - 1) as usize) is Ok);
        assert(rest.len() == table.len() - before * record_len);
    }
}

/// Number of bytes that files of these sizes take in a data section, each
/// followed by zero bytes up to the next multiple of 16.
pub open spec fn spec_data_len(sizes: Seq<u32>) -> nat
    decreases sizes.len(),
{
    if sizes.len() == 0 {
        0
    } else {
        (spec_data_len(sizes.drop_last()) + sizes.last() + spec_needed_to_align(
            sizes.last() as int,
            16,
        )) as nat
    }
}

/// The contents of files of these sizes that lie one after the other in
/// `data`, each with its padding; none where `data` ends before the padding of
/// the last one does.
pub open spec fn spec_split_data(data: Seq<u8>, sizes: Seq<u32>) -> Option<Seq<Seq<u8>>>
    decreases sizes.len(),
{
    if sizes.len() == 0 {
        Some(Seq::empty())
    } else {
        match spec_split_data(data, sizes.drop_last()) {
            None => None,
            Some(before) => {
                let at = spec_data_len(sizes.drop_last()) as int;
                if spec_data_len(sizes) > data.len() {
                    None
                } else {
                    Some(before.push(data.subrange(at, at + sizes.last())))
                }
            },
        }
    }
}

/// Where the first files do not fit in `data`, all of them do not.
pub proof fn lemma_split_data_none(data: Seq<u8>, sizes: Seq<u32>, done: int)
    requires
        0 <= done <= sizes.len(),
        spec_split_data(data, sizes.take(done)) is None,
    ensures
        spec_split_data(data, sizes) is None,
    decreases sizes.len() - done,
{
    if done < sizes.len() {
        assert(sizes.take(done + 1).drop_last() =~= sizes.take(done));
        lemma_split_data_none(data, sizes, done + 1);
    } else {
        assert(sizes.take(done) =~= sizes);
    }
}

/// The sizes that the records give, in their order.
pub open spec fn spec_sizes(records: Seq<RecordModel>) -> Seq<u32> {
    Seq::new(records.len(), |i: int| records[i].size)
}

/// The catalogue that the records make with the header's flag.
pub open spec fn spec_meta_of(unknown: u32, records: Seq<RecordModel>) -> MetaModel {
    MetaModel {
        unknown,
        entries: Seq::new(
            records.len(),
            |i: int| EntryModel { name: records[i].name, id: records[i].id },
        ),
    }
}

/// The files that the records name, with the contents found for them.
pub open spec fn spec_files_of(records: Seq<RecordModel>, contents: Seq<Seq<u8>>) -> Seq<
    FileModel,
> {
    Seq::new(records.len(), |i: int| FileModel { name: records[i].name, contents: contents[i] })
}

/// What the archive `input` holds, or why it cannot be read: the first of
/// what is wrong with the header, with an entry record, with the data section.
pub open spec fn spec_parse(input: Seq<u8>) -> Result<(MetaModel, Seq<FileModel>), PacError> {
    match spec_parse_header(input) {
        Err(err) => Err(err),
        Ok(header) => match spec_parse_entries(
            input.skip(32),
            header.file_count as nat,
            header.string_size as nat,
        ) {
            Err(err) => Err(err),
            Ok(records) => if header.data_start > input.len() {
                Err(PacError::Truncated(Section::DataSection))
            } else {
                match spec_split_data(input.skip(header.data_start as int), spec_sizes(records)) {
                    None => Err(PacError::Truncated(Section::DataSection)),
                    Some(contents) => Ok(
                        (spec_meta_of(header.unknown, records), spec_files_of(records, contents)),
                    ),
                }
            },
        },
    }
}

/// Reads `count` entry records from the start of `table`.
pub fn parse_entries(table: &[u8], count: u32, string_size: u32) -> (entries: Result<
    Vec<FileEntry>,
    PacError,
>)
    ensures
        match entries {
            Ok(list) => spec_parse_entries(table@, count as nat, string_size as nat) == Ok::<
                Seq<RecordModel>,
                PacError,
            >(spec_records(list@)),
            Err(err) => spec_parse_entries(table@, count as nat, string_size as nat) == Err::<
                Seq<RecordModel>,
                PacError,
            >(err),
        },
{
    let mut entries: Vec<FileEntry> = Vec::new();
    let mut at: usize = 0;
    let mut done: u32 = 0;
    assert(spec_records(entries@) =~= Seq::empty());
    while done < count
        invariant
            done <= count,
            at <= table@.len(),
            at == done * spec_record_len(string_size as nat),
            spec_parse_entries(table@, done as nat, string_size as nat) == Ok::<
                Seq<RecordModel>,
                PacError,
            >(spec_records(entries@)),
        decreases count - done,
    {
        let rest: &[u8] = slice_subrange(table, at, table.len());
        assert(rest@ =~= table@.skip(at as int));
        match parse_entry(rest, string_size, done as usize) {
            Ok(entry) => {
                let ghost record_len = spec_record_len(string_size as nat);
                assert((done + 1) * record_len == done * record_len + record_len)
                    by (nonlinear_arith);
                let width: usize = string_size as usize;
                let step: usize = width + 0xC + utils::needed_to_align_with_excess(
                    width + 0xC,
                    0x10,
                );
                let ghost before = spec_records(entries@);
                entries.push(entry);
                assert(spec_records(entries@) =~= before.push(entry@));
                at = at + step;
                done = done + 1;
            },
            Err(err) => {
                proof {
                    lemma_parse_entries_error(
                        table@,
                        (done + 1) as nat,
                        count as nat,
                        string_size as nat,
                    );
                }
                return Err(err);
            },
        }
    }
    Ok(entries)
}

/// Reads an archive: its header, its entry records in their order, and for
/// each record the contents that come next in the data section.
pub fn parse(i: &[u8]) -> (parsed: Result<ParsedPac, PacError>)
    ensures
        match parsed {
            Ok(pac) => spec_parse(i@) == Ok::<(MetaModel, Seq<FileModel>), PacError>(
                (pac.meta@, spec_files(pac.files@)),
            ),
            Err(err) => spec_parse(i@) == Err::<(MetaModel, Seq<FileModel>), PacError>(err),
        },
        i@.len() < 4 || i@.subrange(0, 4) != spec_magic() ==> parsed == Err::<
            ParsedPac,
            PacError,
        >(PacError::BadMagic),
        ({
            &&& spec_parse_header(i@) matches Ok(header)
            &&& spec_parse_entries(
                i@.skip(32),
                header.file_count as nat,
                header.string_size as nat,
            ) is Ok
            &&& i@.len() < header.data_start
        }) ==> parsed == Err::<ParsedPac, PacError>(PacError::Truncated(Section::DataSection)),
{
    let header: PacHeader = match parse_header(i) {
        Ok(header) => header,
        Err(err) => {
            return Err(err);
        },
    };
    let table: &[u8] = slice_subrange(i, HEADER_SIZE, i.len());
    assert(table@ =~= i@.skip(32));
    let entries: Vec<FileEntry> = match parse_entries(
        table,
        header.file_count,
        header.string_size,
    ) {
        Ok(entries) => entries,
        Err(err) => {
            return Err(err);
        },
    };
    if header.data_start as usize > i.len() {
        return Err(PacError::Truncated(Section::DataSection));
    }
    let data: &[u8] = slice_subrange(i, header.data_start as usize, i.len());
    assert(data@ =~= i@.skip(header.data_start as int));

    let ghost records = spec_records(entries@);
    let ghost sizes = spec_sizes(records);
    let ghost mut contents: Seq<Seq<u8>> = Seq::empty();
    let mut pac_meta = PacMeta::new(header.unknown);
    let mut file_contents: Vec<NamedFile> = Vec::new();
    let mut cursor: usize = 0;
    let mut k: usize = 0;
    assert(sizes.take(0) =~= Seq::empty());
    assert(spec_files(file_contents@) =~= spec_files_of(records.take(0), contents));
    assert(pac_meta@.entries =~= spec_meta_of(header.unknown, records.take(0)).entries);
    while k < entries.len()
        invariant
            k <= entries@.len(),
            spec_parse_header(i@) == Ok::<PacHeader, PacError>(header),
            spec_parse_entries(
                i@.skip(32),
                header.file_count as nat,
                header.string_size as nat,
            ) == Ok::<Seq<RecordModel>, PacError>(records),
            header.data_start <= i@.len(),
            data@ == i@.skip(header.data_start as int),
            records == spec_records(entries@),
            sizes == spec_sizes(records),
            cursor <= data@.len(),
            cursor == spec_data_len(sizes.take(k as int)),
            spec_split_data(data@, sizes.take(k as int)) == Some(contents),
            contents.len() == k,
            file_contents@.len() == k,
            pac_meta@ == spec_meta_of(header.unknown, records.take(k as int)),
            spec_files(file_contents@) == spec_files_of(records.take(k as int), contents),
        decreases entries@.len() - k,
    {
        let size: usize = entries[k].size as usize;
        assert(sizes.take(k + 1).drop_last() =~= sizes.take(k as int));
        assert(sizes.take(k + 1).last() == entries@[k as int].size);
        if data.len() - cursor < size {
            proof {
                lemma_split_data_none(data@, sizes, k + 1);
            }
            return Err(PacError::Truncated(Section::DataSection));
        }
        let padding: usize = utils::needed_to_align(size, 0x10);
        if data.len() - cursor - size < padding {
            proof {
                lemma_split_data_none(data@, sizes, k + 1);
            }
            return Err(PacError::Truncated(Section::DataSection));
        }
        let file_data: &[u8] = slice_subrange(data, cursor, cursor + size);
        let entry_name: String = entries[k].name.clone();

        let ghost old_files = file_contents@;
        let ghost old_contents = contents;
        pac_meta.add_file_entry(entry_name.clone(), entries[k].id);
        file_contents.push(NamedFile { name: entry_name, contents: slice_to_vec(file_data) });
        proof {
            contents = contents.push(file_data@);
            assert(pac_meta@.entries =~= spec_meta_of(
                header.unknown,
                records.take(k + 1),
            ).entries);
            let now = spec_files(file_contents@);
            let want = spec_files_of(records.take(k + 1), contents);
            assert forall|j: int| 0 <= j < now.len() implies now[j] == want[j] by {
                if j < k {
                    assert(file_contents@[j] == old_files[j]);
                    assert(spec_files(old_files)[j] == spec_files_of(
                        records.take(k as int),
                        old_contents,
                    )[j]);
                }
            }
            assert(now =~= want);
        }
        cursor = cursor + size + padding;
        k = k + 1;
    }
    assert(sizes.take(k as int) =~= sizes);
    assert(records.take(k as int) =~= records);

    Ok(ParsedPac { meta: pac_meta, files: file_contents })
}

} // verus!
