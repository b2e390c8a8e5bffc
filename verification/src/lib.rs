//! A codec for the USTAR tape-archive format: 512-byte header blocks with
//! octal text fields and a checksum, bodies stored in whole blocks, and the
//! padding that ends an archive.

use vstd::prelude::*;
use crate::error::TarError;
use crate::tar::models::TarArchive;
use crate::tar::read::parsed_entries;

pub mod error;
pub mod tar;
pub mod utils;

verus! {

/// Reads the archive that `contents` holds. `file_name` is the path that
/// the bytes came from; without one they came from standard input, and one
/// byte is passed over after the blocks of each body.
pub fn load_archive(file_name: Option<String>, contents: &[u8]) -> (res: Result<
    TarArchive,
    TarError,
>)
    ensures
        match parsed_entries(contents@, 0, file_name is None) {
            Ok(entries) => res is Ok && res->Ok_0@ == entries,
            Err(e) => res is Err && res->Err_0 == e,
        },
{
    let from_stdin = file_name.is_none();
    TarArchive::from_reader(contents, from_stdin)
}

} // verus!
