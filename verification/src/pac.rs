//! The catalogue of an archive and the bytes it is written as.

pub mod parser;
pub mod roundtrip;
pub mod writer;

use crate::bytes::spec_u32_le;
use crate::bytes::append_zeros;
use crate::bytes::write_u32_le;
use crate::bytes::zeros;
use crate::utils;
use crate::utils::spec_needed_to_align_with_excess;
use crate::utils::spec_pad_to_nearest;
use crate::utils::spec_pad_to_nearest_with_excess;
use crate::utils::spec_to_fixed_length;
use vstd::prelude::*;
use vstd::utf8::encode_utf8;

verus! {

/// Number of bytes of the archive header.
pub const HEADER_SIZE: usize = 0x20;

/// The four bytes `FPAC` that every archive begins with.
pub const HEADER_MAGIC: [u8; 4] = [0x46, 0x50, 0x41, 0x43];

/// The bytes of [`HEADER_MAGIC`].
pub open spec fn spec_magic() -> Seq<u8> {
    seq![0x46u8, 0x50u8, 0x41u8, 0x43u8]
}

/// What a [`PacMetaEntry`] stands for: a name and the id of the file.
pub struct EntryModel {
    pub name: Seq<char>,
    pub id: u32,
}

impl EntryModel {
    /// The name as it is stored: its UTF-8 encoding.
    pub open spec fn name_bytes(self) -> Seq<u8> {
        encode_utf8(self.name)
    }
}

/// What a [`PacMeta`] stands for: the flag and the entries in their order.
pub struct MetaModel {
    pub unknown: u32,
    pub entries: Seq<EntryModel>,
}

/// The greatest number of bytes that a name among `entries` takes, 0 for none.
pub open spec fn spec_max_name_len(entries: Seq<EntryModel>) -> nat
    decreases entries.len(),
{
    if entries.len() == 0 {
        0
    } else {
        let before = spec_max_name_len(entries.drop_last());
        let last = entries.last().name_bytes().len();
        if last > before {
            last
        } else {
            before
        }
    }
}

/// No name is longer than the greatest length, and some name has it.
pub proof fn lemma_max_name_len(entries: Seq<EntryModel>)
    ensures
        forall|i: int|
            0 <= i < entries.len() ==> (#[trigger] entries[i]).name_bytes().len()
                <= spec_max_name_len(entries),
        entries.len() > 0 ==> exists|i: int|
            0 <= i < entries.len() && (#[trigger] entries[i]).name_bytes().len()
                == spec_max_name_len(entries),
    decreases entries.len(),
{
    if entries.len() > 0 {
        let front = entries.drop_last();
        lemma_max_name_len(front);
        assert forall|i: int| 0 <= i < entries.len() implies (#[trigger] entries[i]).name_bytes().len()
            <= spec_max_name_len(entries) by {
            if i < front.len() {
                assert(front[i] == entries[i]);
            }
        }
        if entries.last().name_bytes().len() > spec_max_name_len(front) || front.len() == 0 {
            assert(entries[entries.len() - 1].name_bytes().len() == spec_max_name_len(entries));
        } else {
            let i = choose|i: int|
                0 <= i < front.len() && (#[trigger] front[i]).name_bytes().len()
                    == spec_max_name_len(front);
            assert(entries[i] == front[i]);
        }
    }
}

impl MetaModel {
    /// Width of the name field of every entry record: the longest name, rounded
    /// up to the next multiple of 4 above it. Undefined without entries.
    pub open spec fn string_size(self) -> Option<int> {
        if self.entries.len() == 0 {
            None
        } else {
            Some(spec_pad_to_nearest_with_excess(spec_max_name_len(self.entries) as int, 4))
        }
    }

    /// Size of the entry table as the header's data start accounts for it:
    /// as many times the length of a record as there are entries, but zero
    /// where the name field and the twelve bytes of numbers end on a multiple
    /// of 16. Undefined without entries.
    pub open spec fn entry_size(self) -> Option<int> {
        match self.string_size() {
            Some(string_size) => Some(
                spec_pad_to_nearest(string_size + 12, 16) * self.entries.len(),
            ),
            None => None,
        }
    }
}

/// The bytes of one entry record: the name in a field of `string_size` bytes,
/// three little-endian numbers, and zero bytes up to the next multiple of 16
/// above, at least one.
pub open spec fn spec_entry_bytes(
    name: Seq<u8>,
    id: u32,
    offset: u32,
    size: u32,
    string_size: nat,
) -> Seq<u8> {
    spec_to_fixed_length(name, string_size) + spec_u32_le(id) + spec_u32_le(offset) + spec_u32_le(
        size,
    ) + zeros(spec_needed_to_align_with_excess(string_size as int + 12, 16) as nat)
}

/// Number of bytes of one entry record whose name field has `string_size` bytes.
pub open spec fn spec_record_len(string_size: nat) -> nat {
    spec_pad_to_nearest_with_excess(string_size as int + 12, 16) as nat
}

/// The five numbers of an archive header.
#[derive(Debug, Clone, Copy, PartialEq, Eq, Structural)]
pub struct PacHeader {
    /// Offset of the data section from the start of the archive.
    pub data_start: u32,
    /// Number of bytes of the whole archive.
    pub total_size: u32,
    /// Number of entry records, never 0 in an archive that can be read.
    pub file_count: u32,
    /// A number of unknown meaning that is kept as it is.
    pub unknown: u32,
    /// Width of the name field of every entry record.
    pub string_size: u32,
}

/// The 32 bytes of a header: the magic, the five numbers, eight zero bytes.
#[verifier::opaque]
pub open spec fn spec_header_bytes(header: PacHeader) -> Seq<u8> {
    spec_magic() + spec_u32_le(header.data_start) + spec_u32_le(header.total_size) + spec_u32_le(
        header.file_count,
    ) + spec_u32_le(header.unknown) + spec_u32_le(header.string_size) + zeros(8)
}

impl PacHeader {
    /// The header as it stands at the start of an archive.
    pub fn to_bytes(&self) -> (bytes: Vec<u8>)
        ensures
            bytes@ == spec_header_bytes(*self),
            bytes@.len() == HEADER_SIZE,
    {
        reveal(spec_header_bytes);
        let mut bytes: Vec<u8> = Vec::new();
        bytes.push(HEADER_MAGIC[0]);
        bytes.push(HEADER_MAGIC[1]);
        bytes.push(HEADER_MAGIC[2]);
        bytes.push(HEADER_MAGIC[3]);
        assert(bytes@ =~= spec_magic());
        write_u32_le(&mut bytes, self.data_start);
        write_u32_le(&mut bytes, self.total_size);
        write_u32_le(&mut bytes, self.file_count);
        write_u32_le(&mut bytes, self.unknown);
        write_u32_le(&mut bytes, self.string_size);
        append_zeros(&mut bytes, 8);
        bytes
    }
}

/// The catalogue of an archive: what is kept beside the extracted files to
/// build the archive again.
#[derive(Debug, Clone, PartialEq, Eq)]
pub struct PacMeta {
    pub unknown: u32,
    pub file_entries: Vec<PacMetaEntry>,
}

/// One file of the catalogue.
#[derive(Debug, Clone, PartialEq, Eq)]
pub struct PacMetaEntry {
    pub file_name: String,
    pub file_id: u32,
}

impl View for PacMetaEntry {
    type V = EntryModel;

    open spec fn view(&self) -> EntryModel {
        EntryModel { name: self.file_name@, id: self.file_id }
    }
}

impl View for PacMeta {
    type V = MetaModel;

    open spec fn view(&self) -> MetaModel {
        MetaModel {
            unknown: self.unknown,
            entries: Seq::new(self.file_entries@.len(), |i: int| self.file_entries@[i]@),
        }
    }
}

impl PacMeta {
    /// A catalogue without entries.
    pub fn new(unknown: u32) -> (meta: Self)
        ensures
            meta@ == (MetaModel { unknown, entries: Seq::empty() }),
    {
        let meta = Self { unknown, file_entries: Vec::new() };
        assert(meta@.entries =~= Seq::empty());
        meta
    }

    /// Adds an entry behind those that are there.
    pub fn add_file_entry(&mut self, file_name: String, file_id: u32)
        ensures
            final(self)@ == (MetaModel {
                unknown: old(self)@.unknown,
                entries: old(self)@.entries.push(EntryModel { name: file_name@, id: file_id }),
            }),
    {
        let entry = PacMetaEntry { file_name, file_id };

        self.file_entries.push(entry);
        assert(self@.entries =~= old(self)@.entries.push(
            EntryModel { name: file_name@, id: file_id },
        ));
    }

    /// Number of bytes of the longest name, 0 without entries.
    pub fn max_name_len(&self) -> (max: usize)
        ensures
            max == spec_max_name_len(self@.entries),
    {
        let mut max: usize = 0;
        let mut i: usize = 0;
        while i < self.file_entries.len()
            invariant
                i <= self.file_entries@.len(),
                max == spec_max_name_len(self@.entries.take(i as int)),
            decreases self.file_entries@.len() - i,
        {
            let len: usize = self.file_entries[i].file_name.as_str().as_bytes().len();
            assert(self@.entries.take(i + 1).drop_last() =~= self@.entries.take(i as int));
            assert(self@.entries.take(i + 1).last() == self.file_entries@[i as int]@);
            if len > max {
                max = len;
            }
            i = i + 1;
        }
        assert(self@.entries.take(i as int) =~= self@.entries);
        max
    }

    /// Width of the name field that the entries need: `None` without entries.
    pub fn string_size(&self) -> (size: Option<usize>)
        requires
            spec_max_name_len(self@.entries) + 4 <= usize::MAX,
        ensures
            size is None <==> self@.entries.len() == 0,
            size matches Some(n) ==> self@.string_size() == Some(n as int),
    {
        if self.file_entries.len() == 0 {
            return None;
        }
        let max_unaligned: usize = self.max_name_len();
        let string_size: usize = utils::pad_to_nearest_with_excess(max_unaligned, 0x4);

        Some(string_size)
    }

    /// Size of the entry table as the header's data start accounts for it,
    /// which is zero where records end on a multiple of 16 without their
    /// padding: `None` without entries.
    pub fn entry_size(&self) -> (size: Option<usize>)
        requires
            spec_max_name_len(self@.entries) + 32 <= usize::MAX,
            self@.entries.len() > 0 ==> self@.entry_size().unwrap() <= usize::MAX,
        ensures
            size is None <==> self@.entries.len() == 0,
            size matches Some(n) ==> self@.entry_size() == Some(n as int),
    {
        if let Some(string_size) = self.string_size() {
            let size_unaligned: usize = string_size + 0xC;
            let single_entry_size: usize = utils::pad_to_nearest(size_unaligned, 0x10);
            assert(single_entry_size * self.file_entries@.len() == self@.entry_size().unwrap());

            return Some(single_entry_size * self.file_entries.len());
        }
        None
    }
}

impl PacMetaEntry {
    /// The entry record of this file in a table whose name fields have
    /// `string_size` bytes.
    pub fn to_entry_bytes(&self, offset: u32, file_size: u32, string_size: usize) -> (entry: Vec<u8>)
        requires
            string_size + 28 <= usize::MAX,
        ensures
            entry@ == spec_entry_bytes(
                self@.name_bytes(),
                self.file_id,
                offset,
                file_size,
                string_size as nat,
            ),
            entry@.len() == spec_record_len(string_size as nat),
    {
        let mut entry: Vec<u8> = utils::to_fixed_length(self.file_name.as_str(), string_size);
        write_u32_le(&mut entry, self.file_id);
        write_u32_le(&mut entry, offset);
        write_u32_le(&mut entry, file_size);

        let leftover_nulls: usize = utils::needed_to_align_with_excess(entry.len(), 0x10);
        append_zeros(&mut entry, leftover_nulls);

        entry
    }
}

} // verus!
