//! Building an archive from a catalogue and the contents of its files.
//!
//! The entries are written in the order of their ids, entries with one id in
//! the order of the catalogue. Offsets and sizes are computed from the contents
//! handed in, never taken from an archive read before.

use crate::bytes::append_bytes;
use crate::bytes::append_zeros;
use crate::bytes::zeros;
use crate::error::PacError;
use crate::pac::parser::spec_files;
use crate::pac::parser::FileModel;
use crate::pac::parser::NamedFile;
use crate::pac::spec_entry_bytes;
use crate::pac::spec_header_bytes;
use crate::pac::spec_record_len;
use crate::pac::EntryModel;
use crate::pac::MetaModel;
use crate::pac::PacHeader;
use crate::pac::PacMeta;
use crate::pac::HEADER_SIZE;
use crate::utils;
use crate::utils::spec_needed_to_align;
use vstd::prelude::*;

verus! {

/// The ids of the entries, in their order.
pub open spec fn spec_ids(entries: Seq<EntryModel>) -> Seq<u32> {
    Seq::new(entries.len(), |i: int| entries[i].id)
}

/// `order` with the index `k` put behind the last index whose id is not
/// greater than that of `k`.
pub open spec fn spec_insert_by_id(ids: Seq<u32>, order: Seq<int>, k: int) -> Seq<int>
    decreases order.len(),
{
    if order.len() == 0 {
        seq![k]
    } else if ids[order.last()] <= ids[k] {
        order.push(k)
    } else {
        spec_insert_by_id(ids, order.drop_last(), k).push(order.last())
    }
}

/// The indices of `ids` in the order of a stable sort: by id, and by index
/// where the ids are equal.
pub open spec fn spec_sorted_order(ids: Seq<u32>) -> Seq<int>
    decreases ids.len(),
{
    if ids.len() == 0 {
        Seq::empty()
    } else {
        spec_insert_by_id(ids, spec_sorted_order(ids.drop_last()), ids.len() - 1)
    }
}

/// Whether `order` lists indices of `ids` so that ids never fall, and indices
/// rise where the ids are equal.
pub open spec fn is_stable_order(ids: Seq<u32>, order: Seq<int>) -> bool {
    &&& forall|a: int| 0 <= a < order.len() ==> 0 <= #[trigger] order[a] < ids.len()
    &&& forall|a: int, b: int|
        0 <= a < b < order.len() ==> ids[#[trigger] order[a]] < ids[#[trigger] order[b]] || (
        ids[order[a]] == ids[order[b]] && order[a] < order[b])
}

/// Putting an index at the place that a scan from the end finds is what
/// [`spec_insert_by_id`] does.
pub proof fn lemma_insert_by_id_at(ids: Seq<u32>, order: Seq<int>, k: int, at: int)
    requires
        0 <= at <= order.len(),
        at > 0 ==> ids[order[at - 1]] <= ids[k],
        forall|j: int| at <= j < order.len() ==> ids[#[trigger] order[j]] > ids[k],
    ensures
        spec_insert_by_id(ids, order, k) == order.insert(at, k),
    decreases order.len(),
{
    if order.len() == 0 {
        assert(order.insert(at, k) =~= seq![k]);
    } else if at == order.len() {
        assert(order.insert(at, k) =~= order.push(k));
    } else {
        assert(ids[order[order.len() - 1]] > ids[k]);
        let front = order.drop_last();
        assert forall|j: int| at <= j < front.len() implies ids[#[trigger] front[j]] > ids[k] by {
            assert(front[j] == order[j]);
        }
        lemma_insert_by_id_at(ids, front, k, at);
        assert(front.insert(at, k).push(order.last()) =~= order.insert(at, k));
    }
}

/// Inserting a new greatest index keeps a stable order stable, adds that
/// index once and loses none.
pub proof fn lemma_insert_by_id_stable(ids: Seq<u32>, order: Seq<int>, k: int)
    requires
        0 <= k < ids.len(),
        is_stable_order(ids, order),
        forall|a: int| 0 <= a < order.len() ==> #[trigger] order[a] < k,
    ensures
        is_stable_order(ids, spec_insert_by_id(ids, order, k)),
        spec_insert_by_id(ids, order, k).len() == order.len() + 1,
        forall|a: int|
            0 <= a < order.len() + 1 ==> #[trigger] spec_insert_by_id(ids, order, k)[a] <= k,
        forall|x: int|
            #![trigger order.contains(x)]
            #![trigger spec_insert_by_id(ids, order, k).contains(x)]
            order.contains(x) || x == k <==> spec_insert_by_id(ids, order, k).contains(x),
    decreases order.len(),
{
    let out = spec_insert_by_id(ids, order, k);
    if order.len() == 0 {
        assert(out[0] == k);
        assert forall|x: int| order.contains(x) || x == k <==> out.contains(x) by {
            if x == k {
                assert(out[0] == x);
            }
        }
    } else if ids[order.last()] <= ids[k] {
        assert forall|a: int, b: int| 0 <= a < b < out.len() implies ids[#[trigger] out[a]]
            < ids[#[trigger] out[b]] || (ids[out[a]] == ids[out[b]] && out[a] < out[b]) by {
            if b == order.len() {
                assert(out[a] == order[a]);
                if a < order.len() - 1 {
                    assert(ids[order[a]] <= ids[order[order.len() - 1]]);
                }
            } else {
                assert(out[a] == order[a] && out[b] == order[b]);
            }
        }
        assert forall|x: int| order.contains(x) || x == k <==> out.contains(x) by {
            if order.contains(x) {
                let a = choose|a: int| 0 <= a < order.len() && order[a] == x;
                assert(out[a] == x);
            }
            if x == k {
                assert(out[order.len() as int] == x);
            }
            if out.contains(x) {
                let a = choose|a: int| 0 <= a < out.len() && out[a] == x;
                if a < order.len() {
                    assert(order[a] == x);
                }
            }
        }
    } else {
        let front = order.drop_last();
        let last = order.last();
        assert forall|a: int| 0 <= a < front.len() implies 0 <= #[trigger] front[a]
            < ids.len() by {
            assert(front[a] == order[a]);
        }
        assert forall|a: int, b: int| 0 <= a < b < front.len() implies ids[#[trigger] front[a]]
            < ids[#[trigger] front[b]] || (ids[front[a]] == ids[front[b]] && front[a]
            < front[b]) by {
            assert(front[a] == order[a] && front[b] == order[b]);
        }
        assert forall|a: int| 0 <= a < front.len() implies #[trigger] front[a] < k by {
            assert(front[a] == order[a]);
        }
        lemma_insert_by_id_stable(ids, front, k);
        let mid = spec_insert_by_id(ids, front, k);
        assert(out == mid.push(last));
        assert(last == order[order.len() - 1]);
        assert forall|a: int, b: int| 0 <= a < b < out.len() implies ids[#[trigger] out[a]]
            < ids[#[trigger] out[b]] || (ids[out[a]] == ids[out[b]] && out[a] < out[b]) by {
            if b == mid.len() {
                assert(out[a] == mid[a]);
                assert(mid.contains(mid[a]));
                if mid[a] == k {
                } else {
                    assert(front.contains(mid[a]));
                    let c = choose|c: int| 0 <= c < front.len() && front[c] == mid[a];
                    assert(order[c] == mid[a]);
                }
            } else {
                assert(out[a] == mid[a] && out[b] == mid[b]);
            }
        }
        assert forall|a: int| 0 <= a < out.len() implies 0 <= #[trigger] out[a] < ids.len() by {
            if a < mid.len() {
                assert(out[a] == mid[a]);
            }
        }
        assert forall|a: int| 0 <= a < order.len() + 1 implies #[trigger] out[a] <= k by {
            if a < mid.len() {
                assert(out[a] == mid[a]);
            }
        }
        assert forall|x: int| order.contains(x) || x == k <==> out.contains(x) by {
            if order.contains(x) {
                let a = choose|a: int| 0 <= a < order.len() && order[a] == x;
                if a < front.len() {
                    assert(front[a] == x);
                    assert(front.contains(x));
                    assert(mid.contains(x));
                    let c = choose|c: int| 0 <= c < mid.len() && mid[c] == x;
                    assert(out[c] == x);
                } else {
                    assert(out[mid.len() as int] == x);
                }
            }
            if x == k {
                assert(mid.contains(x));
                let c = choose|c: int| 0 <= c < mid.len() && mid[c] == x;
                assert(out[c] == x);
            }
            if out.contains(x) {
                let a = choose|a: int| 0 <= a < out.len() && out[a] == x;
                if a < mid.len() {
                    assert(mid[a] == x);
                    assert(mid.contains(x));
                    if x != k {
                        assert(front.contains(x));
                        let c = choose|c: int| 0 <= c < front.len() && front[c] == x;
                        assert(order[c] == x);
                    }
                } else {
                    assert(order[order.len() - 1] == x);
                }
            }
        }
    }
}

/// The sorted order is stable, as long as the ids, and holds every index.
pub proof fn lemma_sorted_order(ids: Seq<u32>)
    ensures
        is_stable_order(ids, spec_sorted_order(ids)),
        spec_sorted_order(ids).len() == ids.len(),
        forall|x: int| 0 <= x < ids.len() <==> #[trigger] spec_sorted_order(ids).contains(x),
    decreases ids.len(),
{
    if ids.len() > 0 {
        let front = ids.drop_last();
        let order = spec_sorted_order(front);
        let k = ids.len() - 1;
        lemma_sorted_order(front);
        assert forall|a: int, b: int| 0 <= a < b < order.len() implies ids[#[trigger] order[a]]
            < ids[#[trigger] order[b]] || (ids[order[a]] == ids[order[b]] && order[a]
            < order[b]) by {
            assert(front[order[a]] == ids[order[a]] && front[order[b]] == ids[order[b]]);
        }
        lemma_insert_by_id_stable(ids, order, k);
        let out = spec_sorted_order(ids);
        assert forall|x: int| 0 <= x < ids.len() <==> out.contains(x) by {
            if 0 <= x < k {
                assert(order.contains(x));
            }
            if out.contains(x) && x != k {
                assert(order.contains(x));
            }
        }
    }
}

/// The entries in the order in which an archive holds them.
pub open spec fn spec_sorted_entries(entries: Seq<EntryModel>) -> Seq<EntryModel> {
    Seq::new(entries.len(), |k: int| entries[spec_sorted_order(spec_ids(entries))[k]])
}

/// Whether the file at `at` is the first of `files` with the name `name`.
pub open spec fn is_first_named(files: Seq<FileModel>, name: Seq<char>, at: int) -> bool {
    &&& 0 <= at < files.len()
    &&& files[at].name == name
    &&& forall|j: int| 0 <= j < at ==> (#[trigger] files[j]).name != name
}

/// The contents of the first of `files` with the name `name`.
pub open spec fn spec_lookup(files: Seq<FileModel>, name: Seq<char>) -> Option<Seq<u8>> {
    if exists|at: int| is_first_named(files, name, at) {
        Some(files[choose|at: int| is_first_named(files, name, at)].contents)
    } else {
        None
    }
}

/// The first file with a name is the one that [`spec_lookup`] gives.
pub proof fn lemma_lookup_first(files: Seq<FileModel>, name: Seq<char>, at: int)
    requires
        is_first_named(files, name, at),
    ensures
        spec_lookup(files, name) == Some(files[at].contents),
{
    let chosen = choose|at: int| is_first_named(files, name, at);
    assert(is_first_named(files, name, chosen));
    if chosen < at {
        assert(files[chosen].name != name);
    } else if at < chosen {
        assert(files[at].name != name);
    }
}

/// The contents found for each of the entries, in their order.
pub open spec fn spec_contents(sorted: Seq<EntryModel>, files: Seq<FileModel>) -> Seq<Seq<u8>> {
    Seq::new(sorted.len(), |k: int| spec_lookup(files, sorted[k].name).unwrap())
}

/// Whether the entry at `at` is the first one for which `files` has no contents.
pub open spec fn is_first_missing(sorted: Seq<EntryModel>, files: Seq<FileModel>, at: int) -> bool {
    &&& 0 <= at < sorted.len()
    &&& spec_lookup(files, sorted[at].name) is None
    &&& forall|j: int| 0 <= j < at ==> spec_lookup(files, (#[trigger] sorted[j]).name) is Some
}

/// The data section of the first `count` of these contents: each followed by
/// zero bytes up to the next multiple of 16.
pub open spec fn spec_data_section(contents: Seq<Seq<u8>>, count: nat) -> Seq<u8>
    decreases count,
{
    if count == 0 {
        Seq::empty()
    } else {
        spec_data_section(contents, (count - 1) as nat) + contents[count - 1] + zeros(
            spec_needed_to_align(contents[count - 1].len() as int, 16) as nat,
        )
    }
}

/// The first `count` records of the entry table: each entry with the offset
/// of its contents in the data section and their length.
pub open spec fn spec_entry_table(
    sorted: Seq<EntryModel>,
    contents: Seq<Seq<u8>>,
    string_size: nat,
    count: nat,
) -> Seq<u8>
    decreases count,
{
    if count == 0 {
        Seq::empty()
    } else {
        spec_entry_table(sorted, contents, string_size, (count - 1) as nat) + spec_entry_bytes(
            sorted[count - 1].name_bytes(),
            sorted[count - 1].id,
            spec_data_section(contents, (count - 1) as nat).len() as u32,
            contents[count - 1].len() as u32,
            string_size,
        )
    }
}

/// The header of the archive built from `meta` with these contents.
pub open spec fn spec_header_of(meta: MetaModel, contents: Seq<Seq<u8>>) -> PacHeader {
    let data_start = 32 + meta.entry_size().unwrap();
    PacHeader {
        data_start: data_start as u32,
        total_size: (data_start + spec_data_section(contents, contents.len()).len()) as u32,
        file_count: meta.entries.len() as u32,
        unknown: meta.unknown,
        string_size: meta.string_size().unwrap() as u32,
    }
}

/// Whether the archive built from `meta` with these contents has a number
/// that does not fit in 32 bits: the number of entries, the length of an entry
/// record, or the size of the whole.
pub open spec fn spec_too_large(meta: MetaModel, contents: Seq<Seq<u8>>) -> bool {
    ||| meta.entries.len() > u32::MAX
    ||| spec_record_len(meta.string_size().unwrap() as nat) > u32::MAX
    ||| 32 + meta.entry_size().unwrap() + spec_data_section(contents, contents.len()).len()
        > u32::MAX
}

/// The archive built from `meta`, with the contents that `files` holds for
/// each name, or why there is none.
pub open spec fn spec_encode(meta: MetaModel, files: Seq<FileModel>) -> Result<Seq<u8>, PacError> {
    let sorted = spec_sorted_entries(meta.entries);
    let contents = spec_contents(sorted, files);
    if meta.entries.len() == 0 {
        Err(PacError::EmptyMeta)
    } else if exists|at: int| is_first_missing(sorted, files, at) {
        let at = choose|at: int| is_first_missing(sorted, files, at);
        Err(PacError::MissingFile(spec_sorted_order(spec_ids(meta.entries))[at] as usize))
    } else if spec_too_large(meta, contents) {
        Err(PacError::TooLarge)
    } else {
        Ok(
            spec_header_bytes(spec_header_of(meta, contents)) + spec_entry_table(
                sorted,
                contents,
                meta.string_size().unwrap() as nat,
                sorted.len(),
            ) + spec_data_section(contents, contents.len()),
        )
    }
}

/// The numbers of `order` as integers.
pub open spec fn spec_indices(order: Seq<usize>) -> Seq<int> {
    Seq::new(order.len(), |i: int| order[i] as int)
}

/// Index of the first of `files` whose name is `name`.
pub fn find_file(files: &Vec<NamedFile>, name: &String) -> (found: Option<usize>)
    ensures
        match found {
            Some(at) => is_first_named(spec_files(files@), name@, at as int),
            None => spec_lookup(spec_files(files@), name@) is None,
        },
        found matches Some(at) ==> spec_lookup(spec_files(files@), name@) == Some(
            files@[at as int].contents@,
        ),
{
    let mut at: usize = 0;
    while at < files.len()
        invariant
            at <= files@.len(),
            forall|j: int| 0 <= j < at ==> (#[trigger] spec_files(files@)[j]).name != name@,
        decreases files@.len() - at,
    {
        if files[at].name == *name {
            proof {
                lemma_lookup_first(spec_files(files@), name@, at as int);
            }
            return Some(at);
        }
        at = at + 1;
    }
    assert(forall|p: int| !is_first_named(spec_files(files@), name@, p));
    None
}

impl PacMeta {
    /// The indices of the entries in the order in which an archive holds
    /// them: by id, entries with one id in the order they have here.
    pub fn sorted_order(&self) -> (order: Vec<usize>)
        ensures
            spec_indices(order@) == spec_sorted_order(spec_ids(self@.entries)),
            order@.len() == self@.entries.len(),
            forall|a: int| 0 <= a < order@.len() ==> #[trigger] order@[a] < self@.entries.len(),
            is_stable_order(spec_ids(self@.entries), spec_indices(order@)),
    {
        let ghost ids = spec_ids(self@.entries);
        let n: usize = self.file_entries.len();
        let mut order: Vec<usize> = Vec::new();
        let mut k: usize = 0;
        assert(spec_indices(order@) =~= spec_sorted_order(ids.take(0)));
        while k < n
            invariant
                k <= n,
                n == self.file_entries@.len(),
                ids == spec_ids(self@.entries),
                order@.len() == k,
                forall|a: int| 0 <= a < order@.len() ==> #[trigger] order@[a] < k,
                spec_indices(order@) == spec_sorted_order(ids.take(k as int)),
            decreases n - k,
        {
            let id: u32 = self.file_entries[k].file_id;
            let mut at: usize = order.len();
            while at > 0 && self.file_entries[order[at - 1]].file_id > id
                invariant
                    at <= order@.len(),
                    k < n,
                    n == self.file_entries@.len(),
                    ids == spec_ids(self@.entries),
                    id == ids[k as int],
                    forall|a: int| 0 <= a < order@.len() ==> #[trigger] order@[a] < k,
                    forall|j: int|
                        at <= j < order@.len() ==> ids[#[trigger] spec_indices(order@)[j]] > id,
                decreases at,
            {
                at = at - 1;
            }
            proof {
                let upto = ids.take(k + 1);
                let before = spec_indices(order@);
                assert(upto.drop_last() =~= ids.take(k as int));
                assert forall|j: int| at <= j < before.len() implies upto[#[trigger] before[j]]
                    > upto[k as int] by {
                    assert(ids[spec_indices(order@)[j]] > id);
                }
                if at > 0 {
                    assert(before[at - 1] == order@[at - 1]);
                    assert(upto[before[at - 1]] == ids[order@[at - 1] as int]);
                }
                lemma_insert_by_id_at(upto, before, k as int, at as int);
            }
            let ghost before = spec_indices(order@);
            order.insert(at, k);
            assert(spec_indices(order@) =~= before.insert(at as int, k as int));
            k = k + 1;
        }
        proof {
            assert(ids.take(k as int) =~= ids);
            lemma_sorted_order(ids);
        }
        order
    }
}

/// The data section grows with every file, and holds each of them whole.
pub proof fn lemma_data_section_len(contents: Seq<Seq<u8>>, done: nat, count: nat)
    requires
        done <= count,
    ensures
        spec_data_section(contents, done).len() <= spec_data_section(contents, count).len(),
        done < count ==> spec_data_section(contents, done).len() + contents[done as int].len()
            <= spec_data_section(contents, count).len(),
    decreases count - done,
{
    if done < count {
        lemma_data_section_len(contents, done, (count - 1) as nat);
    }
}

/// What `files` holds for the entries in the order `order`: the data section,
/// and for each entry the index of its file and the offset of its contents.
pub(crate) struct Gathered {
    pub(crate) data: Vec<u8>,
    pub(crate) found: Vec<usize>,
    pub(crate) offsets: Vec<usize>,
}

impl Gathered {
    /// Whether this is what `files` holds for the entries `sorted`.
    pub(crate) open spec fn matches_files(self, sorted: Seq<EntryModel>, files: Seq<NamedFile>) -> bool {
        let contents = spec_contents(sorted, spec_files(files));
        &&& self.found@.len() == sorted.len()
        &&& self.offsets@.len() == sorted.len()
        &&& self.data@ == spec_data_section(contents, sorted.len())
        &&& forall|j: int|
            0 <= j < sorted.len() ==> (#[trigger] self.found@[j]) < files.len()
                && files[self.found@[j] as int].contents@ == contents[j]
        &&& forall|j: int|
            0 <= j < sorted.len() ==> (#[trigger] self.offsets@[j]) == spec_data_section(
                contents,
                j as nat,
            ).len()
    }
}

impl PacMeta {
    /// Looks up the contents of every entry, in the order `order`, and lays
    /// them out as a data section. Fails with the place in `order` of the first
    /// entry that `files` holds nothing for.
    pub(crate) fn gather(&self, files: &Vec<NamedFile>, order: &Vec<usize>) -> (gathered: Result<
        Gathered,
        usize,
    >)
        requires
            spec_indices(order@) == spec_sorted_order(spec_ids(self@.entries)),
            order@.len() == self@.entries.len(),
            forall|a: int| 0 <= a < order@.len() ==> #[trigger] order@[a] < self@.entries.len(),
        ensures
            match gathered {
                Ok(g) => g.matches_files(spec_sorted_entries(self@.entries), files@) && forall|
                    p: int,
                |
                    !is_first_missing(spec_sorted_entries(self@.entries), spec_files(files@), p),
                Err(at) => is_first_missing(
                    spec_sorted_entries(self@.entries),
                    spec_files(files@),
                    at as int,
                ),
            },
    {
        let n: usize = self.file_entries.len();
        let ghost sorted = spec_sorted_entries(self@.entries);
        let ghost all = spec_files(files@);
        let ghost contents = spec_contents(sorted, all);

        let mut data: Vec<u8> = Vec::new();
        let mut found: Vec<usize> = Vec::new();
        let mut offsets: Vec<usize> = Vec::new();
        let mut k: usize = 0;
        while k < n
            invariant
                k <= n,
                n == self.file_entries@.len(),
                order@.len() == n,
                forall|a: int| 0 <= a < order@.len() ==> #[trigger] order@[a] < n,
                spec_indices(order@) == spec_sorted_order(spec_ids(self@.entries)),
                sorted == spec_sorted_entries(self@.entries),
                all == spec_files(files@),
                contents == spec_contents(sorted, all),
                found@.len() == k,
                offsets@.len() == k,
                data@ == spec_data_section(contents, k as nat),
                forall|j: int| 0 <= j < k ==> spec_lookup(all, (#[trigger] sorted[j]).name) is Some,
                forall|j: int|
                    0 <= j < k ==> (#[trigger] found@[j]) < files@.len() && files@[found@[j] as int].contents@
                        == contents[j],
                forall|j: int|
                    0 <= j < k ==> (#[trigger] offsets@[j]) == spec_data_section(
                        contents,
                        j as nat,
                    ).len(),
            decreases n - k,
        {
            let at: usize = order[k];
            assert(spec_indices(order@)[k as int] == at);
            assert(sorted[k as int] == self.file_entries@[at as int]@);
            match find_file(files, &self.file_entries[at].file_name) {
                None => {
                    return Err(k);
                },
                Some(which) => {
                    offsets.push(data.len());
                    found.push(which);
                    append_bytes(&mut data, files[which].contents.as_slice());
                    let padding: usize = utils::needed_to_align(
                        files[which].contents.len(),
                        0x10,
                    );
                    append_zeros(&mut data, padding);
                    assert(data@ =~= spec_data_section(contents, (k + 1) as nat));
                },
            }
            k = k + 1;
        }
        Ok(Gathered { data, found, offsets })
    }

    /// The width of the name fields and the size of the entry table, for an
    /// archive whose data section has `data_len` bytes; `None` where a number
    /// of that archive does not fit in 32 bits.
    pub fn layout(&self, data_len: usize) -> (sizes: Option<(usize, usize)>)
        requires
            self@.entries.len() > 0,
        ensures
            sizes is None <==> {
                ||| self@.entries.len() > u32::MAX
                ||| spec_record_len(self@.string_size().unwrap() as nat) > u32::MAX
                ||| 32 + self@.entry_size().unwrap() + data_len > u32::MAX
            },
            sizes matches Some((string_size, table_size)) ==> self@.string_size() == Some(
                string_size as int,
            ) && self@.entry_size() == Some(table_size as int),
    {
        let n: usize = self.file_entries.len();
        let max_len: usize = self.max_name_len();
        if n > u32::MAX as usize || max_len > u32::MAX as usize {
            return None;
        }
        let wide_size: u64 = max_len as u64 + 4 - (max_len as u64 % 4);
        let wide_record: u64 = wide_size + 12 + (16 - (wide_size + 12) % 16);
        if wide_record > u32::MAX as u64 {
            return None;
        }
        let wide_padded: u64 = if (wide_size + 12) % 16 == 0 {
            0
        } else {
            wide_record
        };
        assert(wide_padded * n <= 0xFFFF_FFFF * 0xFFFF_FFFF) by (nonlinear_arith)
            requires
                0 <= wide_padded <= 0xFFFF_FFFF,
                0 <= n <= 0xFFFF_FFFF,
        ;
        let wide_table: u64 = wide_padded * (n as u64);
        assert(wide_table == self@.entry_size().unwrap());
        if wide_table > u32::MAX as u64 - 32 || data_len > u32::MAX as usize {
            return None;
        }
        if wide_table + 32 + data_len as u64 > u32::MAX as u64 {
            return None;
        }
        let string_size: usize = match self.string_size() {
            Some(size) => size,
            None => {
                return None;
            },
        };
        let table_size: usize = match self.entry_size() {
            Some(size) => size,
            None => {
                return None;
            },
        };
        Some((string_size, table_size))
    }

    /// Appends to `archive` the entry records in the order `order`, with the
    /// offsets and sizes of what was gathered.
    pub(crate) fn write_table(
        &self,
        archive: &mut Vec<u8>,
        files: &Vec<NamedFile>,
        order: &Vec<usize>,
        gathered: &Gathered,
        string_size: usize,
    )
        requires
            spec_indices(order@) == spec_sorted_order(spec_ids(self@.entries)),
            order@.len() == self@.entries.len(),
            forall|a: int| 0 <= a < order@.len() ==> #[trigger] order@[a] < self@.entries.len(),
            gathered.matches_files(spec_sorted_entries(self@.entries), files@),
            gathered.data@.len() <= u32::MAX,
            string_size + 28 <= u32::MAX,
        ensures
            final(archive)@ == old(archive)@ + spec_entry_table(
                spec_sorted_entries(self@.entries),
                spec_contents(spec_sorted_entries(self@.entries), spec_files(files@)),
                string_size as nat,
                self@.entries.len(),
            ),
    {
        let n: usize = self.file_entries.len();
        let ghost sorted = spec_sorted_entries(self@.entries);
        let ghost contents = spec_contents(sorted, spec_files(files@));
        let mut k: usize = 0;
        assert(archive@ =~= old(archive)@ + spec_entry_table(sorted, contents, string_size as nat, 0));
        while k < n
            invariant
                k <= n,
                n == self.file_entries@.len(),
                order@.len() == n,
                forall|a: int| 0 <= a < order@.len() ==> #[trigger] order@[a] < n,
                spec_indices(order@) == spec_sorted_order(spec_ids(self@.entries)),
                sorted == spec_sorted_entries(self@.entries),
                contents == spec_contents(sorted, spec_files(files@)),
                gathered.matches_files(sorted, files@),
                gathered.data@.len() <= u32::MAX,
                string_size + 28 <= u32::MAX,
                archive@ == old(archive)@ + spec_entry_table(
                    sorted,
                    contents,
                    string_size as nat,
                    k as nat,
                ),
            decreases n - k,
        {
            let at: usize = order[k];
            assert(spec_indices(order@)[k as int] == at);
            assert(sorted[k as int] == self.file_entries@[at as int]@);
            proof {
                lemma_data_section_len(contents, k as nat, n as nat);
            }
            let which: usize = gathered.found[k];
            let offset: u32 = gathered.offsets[k] as u32;
            let file_size: u32 = files[which].contents.len() as u32;
            let mut record: Vec<u8> = self.file_entries[at].to_entry_bytes(
                offset,
                file_size,
                string_size,
            );
            archive.append(&mut record);
            assert(archive@ =~= old(archive)@ + spec_entry_table(
                sorted,
                contents,
                string_size as nat,
                (k + 1) as nat,
            ));
            k = k + 1;
        }
    }
}

/// What [`spec_encode`] gives where contents are missing for the entry at `at`
/// and for none before it.
pub proof fn lemma_encode_missing(meta: MetaModel, files: Seq<FileModel>, at: int)
    requires
        meta.entries.len() > 0,
        is_first_missing(spec_sorted_entries(meta.entries), files, at),
    ensures
        spec_encode(meta, files) == Err::<Seq<u8>, PacError>(
            PacError::MissingFile(spec_sorted_order(spec_ids(meta.entries))[at] as usize),
        ),
{
    let sorted = spec_sorted_entries(meta.entries);
    let chosen = choose|p: int| is_first_missing(sorted, files, p);
    assert(is_first_missing(sorted, files, chosen));
    if chosen < at {
        assert(spec_lookup(files, sorted[chosen].name) is Some);
    } else if at < chosen {
        assert(spec_lookup(files, sorted[at].name) is Some);
    }
}

/// What [`spec_encode`] gives where there are entries and contents for each.
pub proof fn lemma_encode_complete(meta: MetaModel, files: Seq<FileModel>)
    requires
        meta.entries.len() > 0,
        forall|p: int| !is_first_missing(spec_sorted_entries(meta.entries), files, p),
    ensures
        spec_too_large(meta, spec_contents(spec_sorted_entries(meta.entries), files))
            ==> spec_encode(meta, files) == Err::<Seq<u8>, PacError>(PacError::TooLarge),
        !spec_too_large(meta, spec_contents(spec_sorted_entries(meta.entries), files))
            ==> spec_encode(meta, files) == Ok::<Seq<u8>, PacError>(
            spec_header_bytes(
                spec_header_of(meta, spec_contents(spec_sorted_entries(meta.entries), files)),
            ) + spec_entry_table(
                spec_sorted_entries(meta.entries),
                spec_contents(spec_sorted_entries(meta.entries), files),
                meta.string_size().unwrap() as nat,
                meta.entries.len(),
            ) + spec_data_section(
                spec_contents(spec_sorted_entries(meta.entries), files),
                meta.entries.len(),
            ),
        ),
{
}

/// Without entries there is no archive.
pub proof fn lemma_encode_empty(meta: MetaModel, files: Seq<FileModel>)
    requires
        meta.entries.len() == 0,
    ensures
        spec_encode(meta, files) == Err::<Seq<u8>, PacError>(PacError::EmptyMeta),
{
}

impl PacMeta {
    /// Builds the archive of these entries. The contents of an entry are
    /// those of the first of `files` that has its name.
    pub fn to_bytes(&self, files: &Vec<NamedFile>) -> (archive: Result<Vec<u8>, PacError>)
        ensures
            match archive {
                Ok(bytes) => spec_encode(self@, spec_files(files@)) == Ok::<Seq<u8>, PacError>(
                    bytes@,
                ),
                Err(err) => spec_encode(self@, spec_files(files@)) == Err::<Seq<u8>, PacError>(
                    err,
                ),
            },
            self@.entries.len() == 0 ==> archive == Err::<Vec<u8>, PacError>(PacError::EmptyMeta),
    {
        if self.file_entries.len() == 0 {
            proof {
                lemma_encode_empty(self@, spec_files(files@));
            }
            return Err(PacError::EmptyMeta);
        }
        let order: Vec<usize> = self.sorted_order();
        let mut gathered: Gathered = match self.gather(files, &order) {
            Ok(gathered) => gathered,
            Err(k) => {
                proof {
                    lemma_encode_missing(self@, spec_files(files@), k as int);
                    assert(spec_indices(order@)[k as int] == order@[k as int]);
                }
                return Err(PacError::MissingFile(order[k]));
            },
        };
        let ghost contents = spec_contents(spec_sorted_entries(self@.entries), spec_files(files@));
        let (string_size, table_size) = match self.layout(gathered.data.len()) {
            Some(sizes) => sizes,
            None => {
                assert(spec_too_large(self@, contents));
                proof {
                    lemma_encode_complete(self@, spec_files(files@));
                }
                return Err(PacError::TooLarge);
            },
        };
        assert(!spec_too_large(self@, contents));
        let data_start: usize = HEADER_SIZE + table_size;
        let total_size: usize = data_start + gathered.data.len();
        let header = PacHeader {
            data_start: data_start as u32,
            total_size: total_size as u32,
            file_count: self.file_entries.len() as u32,
            unknown: self.unknown,
            string_size: string_size as u32,
        };
        assert(header == spec_header_of(self@, contents));

        let mut archive: Vec<u8> = header.to_bytes();
        self.write_table(&mut archive, files, &order, &gathered, string_size);
        archive.append(&mut gathered.data);
        proof {
            lemma_encode_complete(self@, spec_files(files@));
        }
        Ok(archive)
    }
}

} // verus!
