//! The compressed edge dumps: the text of the first entry of a zip archive
//! held in memory, read by the dump parsers.
use std::io::Read;
use vstd::prelude::*;
use crate::dump::{DumpStats, dump_records, dump_stats, parse_runtime_dump, parse_static_dump};

verus! {

/// The decompressed text of the first entry of the zip archive whose bytes
/// are `archive`; none when the bytes are not a readable archive, the archive
/// has no entries, or its first entry cannot be read as UTF-8 text.
pub uninterp spec fn first_entry_text(archive: Seq<u8>) -> Option<Seq<char>>;

/// Opens the bytes with zip's `ZipArchive::new` (over a `Cursor`), takes the
/// first entry with `by_index(0)` and reads it with `read_to_string`. The
/// contract claims only that the result is [`first_entry_text`] of the bytes,
/// none when any of the three calls fails.
#[verifier::external_body]
fn zip_first_entry_text(archive: &Vec<u8>) -> (r: Option<String>)
    ensures
        match r {
            Some(t) => first_entry_text(archive@) == Some(t@),
            None => first_entry_text(archive@) == None::<Seq<char>>,
        },
{
    let mut zip = match zip::ZipArchive::new(std::io::Cursor::new(archive.as_slice())) {
        Ok(z) => z,
        Err(_) => return None,
    };
    let mut entry = match zip.by_index(0) {
        Ok(e) => e,
        Err(_) => return None,
    };
    let mut text = String::new();
    match entry.read_to_string(&mut text) {
        Ok(_) => Some(text),
        Err(_) => None,
    }
}

/// The counts of a compressed static edge dump (see
/// [`parse_static_dump`]), or none when its first entry cannot be read.
pub fn static_dump_archive_stats(archive: &Vec<u8>) -> (r: Option<DumpStats>)
    ensures
        r == match first_entry_text(archive@) {
            Some(t) => Some(dump_stats(dump_records(t, true))),
            None => None::<DumpStats>,
        },
{
    match zip_first_entry_text(archive) {
        Some(text) => Some(parse_static_dump(text.as_str())),
        None => None,
    }
}

/// The counts of a compressed runtime edge dump (see
/// [`parse_runtime_dump`]), or none when its first entry cannot be read.
pub fn runtime_dump_archive_stats(archive: &Vec<u8>) -> (r: Option<DumpStats>)
    ensures
        r == match first_entry_text(archive@) {
            Some(t) => Some(dump_stats(dump_records(t, false))),
            None => None::<DumpStats>,
        },
{
    match zip_first_entry_text(archive) {
        Some(text) => Some(parse_runtime_dump(text.as_str())),
        None => None,
    }
}

} // verus!
