//! Reading an archive up to the end of its entry table, as a step of a
//! larger reader: what follows the table is handed back unread.

use crate::error::PacError;
use crate::pac::parser::lemma_parse_entries_len;
use crate::pac::parser::spec_files;
use crate::pac::parser::spec_parse;
use crate::pac::parser::spec_parse_header;
use crate::pac::parser::FileModel;
use crate::pac::spec_record_len;
use crate::pac::MetaModel;
use crate::pac::PacMeta;
use crate::pac::HEADER_SIZE;
use crate::utils;
use vstd::prelude::*;
use vstd::slice::slice_subrange;

pub use crate::pac::parser::NamedFile;

verus! {

/// Number of bytes of the header and the entry table of the archive `input`.
pub open spec fn spec_table_end(input: Seq<u8>) -> int {
    let header = spec_parse_header(input).unwrap();
    32 + header.file_count * spec_record_len(header.string_size as nat)
}

/// Reads an archive and hands back, with what it holds, the input that
/// follows the entry table.
pub fn parse(i: &[u8]) -> (parsed: Result<(&[u8], (PacMeta, Vec<NamedFile>)), PacError>)
    ensures
        match parsed {
            Ok((rest, (meta, files))) => spec_parse(i@) == Ok::<
                (MetaModel, Seq<FileModel>),
                PacError,
            >((meta@, spec_files(files@))) && spec_table_end(i@) <= i@.len() && rest@ == i@.skip(
                spec_table_end(i@),
            ),
            Err(err) => spec_parse(i@) == Err::<(MetaModel, Seq<FileModel>), PacError>(err),
        },
{
    let parsed = crate::pac::parser::parse(i)?;
    let header = crate::pac::parser::parse_header(i)?;
    proof {
        lemma_parse_entries_len(
            i@.skip(32),
            header.file_count as nat,
            header.string_size as nat,
        );
    }
    let width: usize = header.string_size as usize;
    let ghost record_len = spec_record_len(header.string_size as nat);
    assert(record_len <= header.file_count * record_len && record_len * header.file_count
        == header.file_count * record_len) by (nonlinear_arith)
        requires
            header.file_count >= 1,
            record_len >= 0,
    ;
    let total: usize = i.len();
    let record: usize = width + 0xC + utils::needed_to_align_with_excess(width + 0xC, 0x10);
    let end: usize = HEADER_SIZE + record * (header.file_count as usize);
    let rest: &[u8] = slice_subrange(i, end, total);
    Ok((rest, (parsed.meta, parsed.files)))
}

} // verus!
