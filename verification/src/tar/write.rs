//! Writing an archive: for each entry its header block and its body in
//! whole blocks, then the blocks of NUL bytes that end the archive.

use vstd::prelude::*;
use vstd::string::*;
use vstd::utf8::*;
use crate::error::TarError;
use crate::tar::header::{
    encodable, encode_header, header_block, lemma_header_block_len, magic_text, version_text,
};
use crate::tar::models::{entry_views, EntryView, TarArchive, TarFile};
use crate::tar::read::stored_len;

verus! {

/// What kind of filesystem object a path names.
#[derive(Clone, Copy, Debug, PartialEq, Eq, Structural)]
pub enum FileKind {
    Regular,
    Directory,
    Symlink,
    BlockDevice,
    CharDevice,
    Fifo,
    /// Anything else, such as a socket: it cannot be archived.
    Other,
}

/// What the filesystem and the identity database say of one path.
#[derive(Clone, Debug, PartialEq, Eq)]
pub struct FileMetadata {
    pub path: String,
    pub mode: u32,
    pub uid: u32,
    pub gid: u32,
    pub size: u64,
    /// The modification time in seconds since the epoch.
    pub mtime: u64,
    pub kind: FileKind,
    /// Where a symbolic link points; not read for another kind.
    pub link_target: String,
    /// The owner's name, empty where the identity database has none.
    pub owner_name: String,
    /// The group's name, empty where the identity database has none.
    pub group_name: String,
}

/// The type flag of each kind that can be archived.
pub open spec fn type_flag_of(kind: FileKind) -> Option<char> {
    match kind {
        FileKind::Regular => Some('0'),
        FileKind::Symlink => Some('2'),
        FileKind::CharDevice => Some('3'),
        FileKind::BlockDevice => Some('4'),
        FileKind::Directory => Some('5'),
        FileKind::Fifo => Some('6'),
        FileKind::Other => None,
    }
}

/// The type flag of `kind` as text, or the failure for a kind that has
/// none.
pub fn type_flag(kind: FileKind) -> (res: Result<&'static str, TarError>)
    ensures
        type_flag_of(kind) is Some ==> res is Ok && res->Ok_0@ == seq![type_flag_of(kind)->Some_0],
        type_flag_of(kind) is None ==> res is Err && res->Err_0 == TarError::UnsupportedEntryType,
{
    proof {
        reveal_strlit("0");
        reveal_strlit("2");
        reveal_strlit("3");
        reveal_strlit("4");
        reveal_strlit("5");
        reveal_strlit("6");
    }
    let res = match kind {
        FileKind::Regular => Ok("0"),
        FileKind::Directory => Ok("5"),
        FileKind::Symlink => Ok("2"),
        FileKind::BlockDevice => Ok("4"),
        FileKind::CharDevice => Ok("3"),
        FileKind::Fifo => Ok("6"),
        FileKind::Other => Err(TarError::UnsupportedEntryType),
    };
    assert(res is Ok ==> res->Ok_0@ =~= seq![type_flag_of(kind)->Some_0]);
    res
}

/// Where a path of these bytes is cut: 100 bytes before its end, or at its
/// start where it has no more than 100.
pub open spec fn split_point(bytes: Seq<u8>) -> int {
    if bytes.len() > 100 {
        bytes.len() - 100
    } else {
        0
    }
}

/// Whether `path` can be cut at its split point, which must not lie inside
/// a character.
pub open spec fn splittable(path: Seq<char>) -> bool {
    is_char_boundary(encode_utf8(path), split_point(encode_utf8(path)))
}

/// What stands before the split point of `path`.
pub open spec fn path_prefix(path: Seq<char>) -> Seq<char> {
    decode_utf8(encode_utf8(path).take(split_point(encode_utf8(path))))
}

/// What stands from the split point of `path` on.
pub open spec fn path_name(path: Seq<char>) -> Seq<char> {
    decode_utf8(encode_utf8(path).skip(split_point(encode_utf8(path))))
}

/// Cuts `path` into prefix and name: the name is the last 100 bytes of a
/// path longer than that, and the whole of a shorter one. Fails where the
/// cut would fall inside a character.
pub fn split_path(path: &str) -> (res: Result<(String, String), TarError>)
    ensures
        splittable(path@) ==> res is Ok && (res->Ok_0).0@ == path_prefix(path@) && (res->Ok_0).1@
            == path_name(path@),
        res is Ok ==> (res->Ok_0).0@ + (res->Ok_0).1@ == path@ && encode_utf8((res->Ok_0).0@)
            + encode_utf8((res->Ok_0).1@) == encode_utf8(path@) && encode_utf8(
            (res->Ok_0).0@,
        ).len() == split_point(encode_utf8(path@)),
        !splittable(path@) ==> res is Err && res->Err_0 == TarError::UnsplittablePath,
{
    proof {
        encode_utf8_valid_utf8(path@);
        encode_utf8_decode_utf8(path@);
        is_char_boundary_start_end_of_seq(encode_utf8(path@));
    }
    let len = path.as_bytes().len();
    let cut: usize = if len > 100 {
        len - 100
    } else {
        0
    };
    if !path.is_char_boundary(cut) {
        return Err(TarError::UnsplittablePath);
    }
    let (prefix, name) = path.split_at(cut);
    proof {
        let bytes = encode_utf8(path@);
        assert(bytes.take(cut as int) =~= bytes.subrange(0, cut as int));
        assert(bytes.skip(cut as int) =~= bytes.subrange(cut as int, bytes.len() as int));
        encode_utf8_decode_utf8(prefix@);
        encode_utf8_decode_utf8(name@);
        assert(encode_utf8(prefix@) + encode_utf8(name@) =~= bytes);
        decode_utf8_split(bytes, cut as int);
    }
    Ok((prefix.to_owned(), name.to_owned()))
}

/// The prefix and the name of a path that can be cut are the two parts of
/// its bytes, and together they are the path.
pub proof fn lemma_split_path_parts(path: Seq<char>)
    requires
        splittable(path),
    ensures
        encode_utf8(path_prefix(path)) == encode_utf8(path).take(
            split_point(encode_utf8(path)),
        ),
        encode_utf8(path_name(path)) == encode_utf8(path).skip(split_point(encode_utf8(path))),
        path_prefix(path) + path_name(path) == path,
{
    let bytes = encode_utf8(path);
    let cut = split_point(bytes);
    encode_utf8_valid_utf8(path);
    encode_utf8_decode_utf8(path);
    valid_utf8_split(bytes, cut);
    assert(bytes.take(cut) =~= bytes.subrange(0, cut));
    assert(bytes.skip(cut) =~= bytes.subrange(cut, bytes.len() as int));
    decode_utf8_encode_utf8(bytes.take(cut));
    decode_utf8_encode_utf8(bytes.skip(cut));
    decode_utf8_split(bytes, cut);
}

/// A path of ASCII characters can always be cut, and then the name has
/// the last 100 bytes of a path longer than that, the prefix the bytes
/// before them; a path of up to 100 bytes is its own name.
pub proof fn lemma_ascii_path_splits(path: Seq<char>)
    requires
        is_ascii_chars(path),
    ensures
        splittable(path),
        path.len() <= 100 ==> path_prefix(path) == Seq::<char>::empty() && path_name(path)
            == path,
        path.len() > 100 ==> path_prefix(path) == path.take(path.len() - 100) && path_name(path)
            == path.skip(path.len() - 100),
{
    let bytes = encode_utf8(path);
    let cut = split_point(bytes);
    encode_utf8_valid_utf8(path);
    encode_utf8_decode_utf8(path);
    is_ascii_chars_encode_utf8(path);
    is_char_boundary_start_end_of_seq(bytes);
    if cut > 0 {
        is_char_boundary_iff_is_leading_byte(bytes, cut);
        assert(bytes[cut] == path[cut] as u8);
    }
    let front = path.take(cut);
    let back = path.skip(cut);
    assert(is_ascii_chars(front));
    assert(is_ascii_chars(back));
    is_ascii_chars_encode_utf8(front);
    is_ascii_chars_encode_utf8(back);
    assert(encode_utf8(front) =~= bytes.take(cut));
    assert(encode_utf8(back) =~= bytes.skip(cut));
    encode_utf8_decode_utf8(front);
    encode_utf8_decode_utf8(back);
    if cut == 0 {
        assert(front =~= Seq::<char>::empty());
        assert(back =~= path);
    }
}

/// The entry for a file with this metadata and content, where its kind has
/// a type flag and its path can be cut.
pub open spec fn metadata_entry(meta: FileMetadata, contents: Seq<u8>) -> EntryView {
    EntryView {
        file_name: path_name(meta.path@),
        file_mode: (meta.mode & 0o777) as nat,
        owner_uid: meta.uid as nat,
        group_uid: meta.gid as nat,
        file_size: meta.size as nat,
        last_mod_time: meta.mtime as nat,
        checksum: 0,
        link_indicator: seq![type_flag_of(meta.kind)->Some_0],
        linked_file_nbame: if meta.kind == FileKind::Symlink {
            meta.link_target@
        } else {
            Seq::empty()
        },
        ustar: magic_text(),
        ustar_version: version_text(),
        owner_name: meta.owner_name@,
        group_name: meta.group_name@,
        device_major: Seq::empty(),
        device_minor: Seq::empty(),
        prefix: path_prefix(meta.path@),
        body: contents,
    }
}

impl TarFile {
    /// The entry for a file with this metadata and content: the permission
    /// bits of its mode, its path cut into prefix and name, its type flag,
    /// and the link target of a symbolic link only. The checksum is left
    /// at zero: encoding the header computes it. Fails for a kind that
    /// cannot be archived, and then for a path that cannot be cut.
    pub fn from_metadata(meta: &FileMetadata, contents: Vec<u8>) -> (res: Result<
        TarFile,
        TarError,
    >)
        ensures
            type_flag_of(meta.kind) is None ==> res is Err && res->Err_0
                == TarError::UnsupportedEntryType,
            type_flag_of(meta.kind) is Some && !splittable(meta.path@) ==> res is Err
                && res->Err_0 == TarError::UnsplittablePath,
            type_flag_of(meta.kind) is Some && splittable(meta.path@) ==> res is Ok
                && res->Ok_0@ == metadata_entry(*meta, contents@),
    {
        let flag = type_flag(meta.kind)?;
        let linked_file_nbame = match meta.kind {
            FileKind::Symlink => meta.link_target.clone(),
            _ => String::new(),
        };
        let (prefix, file_name) = split_path(meta.path.as_str())?;
        proof {
            reveal_strlit("ustar ");
            reveal_strlit(" ");
            assert("ustar "@ =~= magic_text());
            assert(" "@ =~= version_text());
        }
        Ok(
            TarFile {
                file_name,
                file_mode: (meta.mode & 0o777) as u128,
                owner_uid: meta.uid as u128,
                group_uid: meta.gid as u128,
                file_size: meta.size as u128,
                last_mod_time: meta.mtime as u128,
                checksum: 0,
                link_indicator: flag.to_owned(),
                linked_file_nbame,
                ustar: "ustar ".to_owned(),
                ustar_version: " ".to_owned(),
                owner_name: meta.owner_name.clone(),
                group_name: meta.group_name.clone(),
                device_major: String::new(),
                device_minor: String::new(),
                prefix,
                body: contents,
            },
        )
    }
}

/// `n` NUL bytes.
pub open spec fn zeros(n: nat) -> Seq<u8> {
    Seq::new(n, |i: int| 0u8)
}

/// The NUL bytes that follow a body of `len` bytes: up to the next block
/// boundary, and a whole block where the body ends on one.
pub open spec fn body_padding(len: nat) -> nat {
    (512 - len % 512) as nat
}

/// A body as the archive stores it.
pub open spec fn body_region(body: Seq<u8>) -> Seq<u8> {
    body + zeros(body_padding(body.len()))
}

/// The blocks of NUL bytes that end an archive whose entries take `len`
/// bytes: as many as bring it to 20 blocks, or 2 where it has 20 already.
pub open spec fn end_padding(len: nat) -> nat {
    if len < 20 * 512 {
        (512 * (20 - len / 512)) as nat
    } else {
        1024
    }
}

/// The header block and the stored body of each entry, in order.
pub open spec fn entries_bytes(entries: Seq<EntryView>) -> Seq<u8>
    decreases entries.len(),
{
    if entries.len() == 0 {
        Seq::empty()
    } else {
        entries_bytes(entries.drop_last()) + header_block(entries.last()) + body_region(
            entries.last().body,
        )
    }
}

/// The archive of `entries`.
pub open spec fn archive_bytes(entries: Seq<EntryView>) -> Seq<u8> {
    entries_bytes(entries) + zeros(end_padding(entries_bytes(entries).len()))
}

/// Whether every one of `entries` fits a header block.
pub open spec fn all_encodable(entries: Seq<EntryView>) -> bool {
    forall|i: int| 0 <= i < entries.len() ==> encodable(#[trigger] entries[i])
}

/// Appends `count` NUL bytes.
pub fn push_zeros(out: &mut Vec<u8>, count: usize)
    ensures
        final(out)@ == old(out)@ + zeros(count as nat),
{
    let mut i: usize = 0;
    while i < count
        invariant
            i <= count,
            out@ =~= old(out)@ + zeros(i as nat),
        decreases count - i,
    {
        out.push(0u8);
        i += 1;
    }
}

/// Appends `body` as the archive stores it: its bytes, then NUL bytes up
/// to the next block boundary, a whole block of them where the body ends
/// on a boundary or is empty.
pub fn push_body(out: &mut Vec<u8>, body: &[u8])
    ensures
        final(out)@ == old(out)@ + body_region(body@),
{
    out.extend_from_slice(body);
    assert(out@ =~= old(out)@ + body@);
    push_zeros(out, 512 - body.len() % 512);
    assert(out@ =~= old(out)@ + body_region(body@));
}

impl TarArchive {
    /// The bytes of the archive that holds `files` in this order. Fails,
    /// with nothing written, where a field of one of them does not fit its
    /// place in a header block.
    pub fn write_archive(files: &Vec<TarFile>) -> (res: Result<Vec<u8>, TarError>)
        ensures
            all_encodable(entry_views(files@)) ==> res is Ok && res->Ok_0@ == archive_bytes(
                entry_views(files@),
            ),
            !all_encodable(entry_views(files@)) ==> res is Err && res->Err_0
                == TarError::FieldOverflow,
    {
        let ghost entries = entry_views(files@);
        let mut blocks: Vec<u8> = Vec::new();
        let mut i: usize = 0;
        while i < files.len()
            invariant
                i <= files@.len(),
                entries == entry_views(files@),
                all_encodable(entries.take(i as int)),
                blocks@ == entries_bytes(entries.take(i as int)),
            decreases files@.len() - i,
        {
            let header = match encode_header(&files[i]) {
                Ok(header) => header,
                Err(e) => {
                    assert(!encodable(entries[i as int]));
                    return Err(e);
                },
            };
            let ghost before = blocks@;
            blocks.extend_from_slice(header.as_slice());
            assert(blocks@ =~= before + header@);
            push_body(&mut blocks, files[i].body.as_slice());
            proof {
                assert(entries.take(i + 1).drop_last() =~= entries.take(i as int));
                assert(entries.take(i + 1).last() == files@[i as int]@);
            }
            i += 1;
        }
        proof {
            assert(entries.take(i as int) =~= entries);
        }
        let padding: usize = if blocks.len() < 20 * 512 {
            512 * (20 - blocks.len() / 512)
        } else {
            1024
        };
        push_zeros(&mut blocks, padding);
        Ok(blocks)
    }
}

/// A stored body takes whole blocks: its length rounded up to the next
/// block boundary, and one block more where the body ends on a boundary or
/// is empty; that block holds NUL bytes only.
pub proof fn lemma_body_region_blocks(body: Seq<u8>)
    ensures
        body_region(body).len() % 512 == 0,
        body_region(body).len() == 512 * (body.len() / 512) + 512,
        body_region(body).take(body.len() as int) == body,
        body.len() % 512 != 0 ==> body_region(body).len() == stored_len(body.len()),
        body.len() % 512 == 0 ==> body_region(body).len() == stored_len(body.len()) + 512
            && body_region(body).skip(body.len() as int) == zeros(512),
{
    assert(body_region(body).take(body.len() as int) =~= body);
    if body.len() % 512 == 0 {
        assert(body_region(body).skip(body.len() as int) =~= zeros(512));
    }
}

/// Whole blocks and a block more are whole blocks.
proof fn lemma_blocks_add(a: nat, b: nat)
    requires
        a % 512 == 0,
        b % 512 == 0,
    ensures
        (a + 512 + b) % 512 == 0,
{
}

/// The bytes of some entries end with the header block and the stored body
/// of the last one.
proof fn lemma_entries_bytes_len(entries: Seq<EntryView>)
    requires
        entries.len() > 0,
    ensures
        entries_bytes(entries).len() == entries_bytes(entries.drop_last()).len() + 512
            + body_region(entries.last().body).len(),
{
    lemma_header_block_len(entries.last());
}

/// The entries of an archive take whole blocks.
pub proof fn lemma_entries_bytes_blocks(entries: Seq<EntryView>)
    ensures
        entries_bytes(entries).len() % 512 == 0,
    decreases entries.len(),
{
    if entries.len() > 0 {
        lemma_entries_bytes_blocks(entries.drop_last());
        lemma_entries_bytes_len(entries);
        lemma_body_region_blocks(entries.last().body);
        lemma_blocks_add(
            entries_bytes(entries.drop_last()).len(),
            body_region(entries.last().body).len(),
        );
    }
}

/// An archive without entries is 20 blocks of NUL bytes. An archive whose
/// entries take fewer than 20 blocks has 20 blocks; any other has its
/// entries and two blocks more.
pub proof fn lemma_archive_len(entries: Seq<EntryView>)
    ensures
        entries.len() == 0 ==> archive_bytes(entries) == zeros(10240),
        entries_bytes(entries).len() < 10240 ==> archive_bytes(entries).len() == 10240,
        entries_bytes(entries).len() >= 10240 ==> archive_bytes(entries).len() == entries_bytes(
            entries,
        ).len() + 1024,
{
    lemma_entries_bytes_blocks(entries);
    if entries.len() == 0 {
        assert(archive_bytes(entries) =~= zeros(10240));
    }
}

} // verus!
