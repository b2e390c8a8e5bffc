//! Reading an archive: header blocks and bodies in turn, up to the block
//! whose name is empty.

use vstd::prelude::*;
use vstd::slice::*;
use crate::error::TarError;
use crate::tar::header::{decode_header, decoded_header};
use crate::tar::models::{entry_views, EntryView, TarArchive, TarFile};

verus! {

/// The bytes that the blocks of a body of `size` bytes take: `size` rounded
/// up to whole blocks.
pub open spec fn stored_len(size: nat) -> nat {
    ((size + 511) / 512) * 512
}

/// `done` and then the entries of `rest`, or the error of `rest`.
pub open spec fn entries_then(
    done: Seq<EntryView>,
    rest: Result<Seq<EntryView>, TarError>,
) -> Result<Seq<EntryView>, TarError> {
    match rest {
        Ok(entries) => Ok(done + entries),
        Err(e) => Err(e),
    }
}

/// The entries that `data` holds from `pos` on. Each is a header block and
/// the blocks of its body, of which the entry keeps the first `file_size`
/// bytes; with `skip_byte` one more byte follows the blocks, which must be
/// there and is passed over, whatever it holds. A header block that begins
/// with a NUL byte has an empty name and ends the archive.
pub open spec fn parsed_entries(data: Seq<u8>, pos: nat, skip_byte: bool) -> Result<
    Seq<EntryView>,
    TarError,
>
    decreases data.len() - pos,
{
    if pos + 512 > data.len() {
        Err(TarError::MalformedHeader)
    } else if data[pos as int] == 0 {
        Ok(Seq::empty())
    } else {
        match decoded_header(data.subrange(pos as int, pos + 512 as int)) {
            None => Err(TarError::MalformedHeader),
            Some(header) => {
                let start = pos + 512;
                let next = start + stored_len(header.file_size);
                if next > data.len() {
                    Err(TarError::TruncatedBody)
                } else if skip_byte && next + 1 > data.len() {
                    Err(TarError::MalformedHeader)
                } else {
                    let entry = EntryView {
                        body: data.subrange(start as int, (start + header.file_size) as int),
                        ..header
                    };
                    let after = if skip_byte {
                        next + 1
                    } else {
                        next
                    };
                    entries_then(seq![entry], parsed_entries(data, after as nat, skip_byte))
                }
            },
        }
    }
}

/// Where the blocks of a body of `size` bytes end that starts at `start`,
/// or `None` where `data_len` bytes do not hold them all.
pub fn body_end(data_len: usize, start: usize, size: u128) -> (end: Option<usize>)
    ensures
        start + stored_len(size as nat) <= data_len ==> end == Some(
            (start + stored_len(size as nat)) as usize,
        ),
        start + stored_len(size as nat) > data_len ==> end is None,
{
    if start > data_len {
        return None;
    }
    let room: usize = data_len - start;
    if size > room as u128 {
        return None;
    }
    let stored: u128 = (size + 511) / 512 * 512;
    if stored > room as u128 {
        return None;
    }
    Some(start + stored as usize)
}

impl TarArchive {
    /// The body of `size` bytes whose blocks start at `start`, and the place
    /// where those blocks end. Fails where `data` ends before the last of
    /// them does.
    pub fn read_body(data: &[u8], start: usize, size: u128) -> (res: Result<
        (Vec<u8>, usize),
        TarError,
    >)
        ensures
            start + stored_len(size as nat) <= data@.len() ==> res is Ok && (res->Ok_0).0@
                == data@.subrange(start as int, start + size) && (res->Ok_0).1 == start
                + stored_len(size as nat),
            start + stored_len(size as nat) > data@.len() ==> res is Err && res->Err_0
                == TarError::TruncatedBody,
    {
        match body_end(data.len(), start, size) {
            None => Err(TarError::TruncatedBody),
            Some(end) => {
                let body = slice_to_vec(slice_subrange(data, start, start + size as usize));
                Ok((body, end))
            },
        }
    }

    /// Reads the archive that `data` holds: its entries in order, up to the
    /// first header block with an empty name. With `from_stdin`, one byte
    /// is passed over after the blocks of each body. Any failure fails the
    /// whole read.
    pub fn from_reader(data: &[u8], from_stdin: bool) -> (res: Result<TarArchive, TarError>)
        ensures
            match parsed_entries(data@, 0, from_stdin) {
                Ok(entries) => res is Ok && res->Ok_0@ == entries,
                Err(e) => res is Err && res->Err_0 == e,
            },
    {
        let mut files: Vec<TarFile> = Vec::new();
        let mut pos: usize = 0;
        assert(entry_views(files@) =~= Seq::<EntryView>::empty());
        loop
            invariant
                pos <= data@.len(),
                parsed_entries(data@, 0, from_stdin) == entries_then(
                    entry_views(files@),
                    parsed_entries(data@, pos as nat, from_stdin),
                ),
            decreases data@.len() - pos,
        {
            if data.len() - pos < 512 {
                return Err(TarError::MalformedHeader);
            }
            if data[pos] == 0 {
                assert(entry_views(files@) + Seq::<EntryView>::empty() =~= entry_views(files@));
                return Ok(TarArchive { files });
            }
            let mut entry = decode_header(slice_subrange(data, pos, pos + 512))?;
            let start: usize = pos + 512;
            let (body, next) = TarArchive::read_body(data, start, entry.file_size)?;
            entry.body = body;
            let mut after: usize = next;
            if from_stdin {
                if next >= data.len() {
                    return Err(TarError::MalformedHeader);
                }
                after = next + 1;
            }
            proof {
                let done = entry_views(files@);
                let rest = parsed_entries(data@, after as nat, from_stdin);
                assert(entry_views(files@.push(entry)) =~= done + seq![entry@]);
                if rest is Ok {
                    assert((done + seq![entry@]) + rest->Ok_0 =~= done + (seq![entry@]
                        + rest->Ok_0));
                }
            }
            files.push(entry);
            pos = after;
        }
    }
}

/// A stream that holds one entry and then a block of NUL bytes is read as
/// that one entry, without an error, whatever follows the block.
pub proof fn lemma_terminator_ends_archive(data: Seq<u8>, from_stdin: bool)
    requires
        data.len() >= 512,
        data[0] != 0,
        decoded_header(data.subrange(0, 512)) is Some,
        ({
            let size = decoded_header(data.subrange(0, 512))->Some_0.file_size;
            let next = 512 + stored_len(size);
            let after = if from_stdin {
                next + 1
            } else {
                next
            };
            &&& after + 512 <= data.len()
            &&& forall|i: int| after <= i < after + 512 ==> data[i] == 0
        }),
    ensures
        parsed_entries(data, 0, from_stdin) == Ok::<Seq<EntryView>, TarError>(
            seq![
                (EntryView {
                    body: data.subrange(
                        512,
                        (512 + decoded_header(data.subrange(0, 512))->Some_0.file_size) as int,
                    ),
                    ..decoded_header(data.subrange(0, 512))->Some_0
                }),
            ],
        ),
{
    let header = decoded_header(data.subrange(0, 512))->Some_0;
    let next = 512 + stored_len(header.file_size);
    let after: nat = if from_stdin {
        next + 1
    } else {
        next
    };
    let entry = EntryView { body: data.subrange(512, (512 + header.file_size) as int), ..header };
    assert(parsed_entries(data, after, from_stdin) == Ok::<Seq<EntryView>, TarError>(
        Seq::empty(),
    ));
    assert(seq![entry] + Seq::<EntryView>::empty() =~= seq![entry]);
}

} // verus!
