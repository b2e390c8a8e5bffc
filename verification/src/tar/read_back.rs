//! Reading an archive that was written: the entries come back, up to the
//! first one whose body ends on a block boundary.

use vstd::prelude::*;
use vstd::utf8::*;
use crate::error::TarError;
use crate::tar::field::padded;
use crate::tar::header::{
    checksum_of, decoded_header, header_block, lemma_header_block_len, raw_header,
};
use crate::tar::models::EntryView;
use crate::tar::read::{entries_then, parsed_entries, stored_len};
use crate::tar::octal::lemma_pow8_values;
use crate::tar::round_trip::{
    lemma_header_block_layout, lemma_header_round_trip, lemma_raw_header_layout, plain_text,
    representable,
};
use crate::tar::write::{
    archive_bytes, body_region, end_padding, entries_bytes, lemma_body_region_blocks,
    lemma_split_path_parts, metadata_entry, split_point, splittable, type_flag_of, FileKind,
    FileMetadata,
};

verus! {

/// Whether a reader can find `e` in an archive: a header block can hold
/// it, its name is not empty, and its size is the length of its body.
#[verifier::opaque]
pub open spec fn readable(e: EntryView) -> bool {
    representable(e) && e.file_name.len() > 0 && e.file_size == e.body.len()
}

/// `e` as a reader finds it: with the checksum of its header block.
pub open spec fn as_read(e: EntryView) -> EntryView {
    EntryView { checksum: checksum_of(header_block(e)), ..e }
}

/// What a reader finds of `entries` once they are written: each of them in
/// turn, and none after the first whose body is empty or ends on a block
/// boundary, because the block of NUL bytes that the writer puts behind
/// such a body ends the archive for the reader.
pub open spec fn read_back(entries: Seq<EntryView>) -> Seq<EntryView>
    decreases entries.len(),
{
    if entries.len() == 0 {
        Seq::empty()
    } else if entries[0].body.len() % 512 == 0 {
        seq![as_read(entries[0])]
    } else {
        seq![as_read(entries[0])] + read_back(entries.drop_first())
    }
}

/// The bytes of some entries begin with the header block and the stored
/// body of the first one.
pub proof fn lemma_entries_bytes_front(entries: Seq<EntryView>)
    requires
        entries.len() > 0,
    ensures
        entries_bytes(entries) == header_block(entries[0]) + body_region(entries[0].body)
            + entries_bytes(entries.drop_first()),
    decreases entries.len(),
{
    let front = entries.drop_last();
    let back = entries.drop_first();
    let last = header_block(entries.last()) + body_region(entries.last().body);
    let first = header_block(entries[0]) + body_region(entries[0].body);
    if entries.len() == 1 {
        assert(entries_bytes(front) =~= Seq::<u8>::empty());
        assert(entries_bytes(back) =~= Seq::<u8>::empty());
        assert(entries_bytes(entries) =~= first + entries_bytes(back));
    } else {
        lemma_entries_bytes_front(front);
        assert(front.drop_first() =~= back.drop_last());
        assert(entries_bytes(front) == first + entries_bytes(back.drop_last()));
        assert(entries_bytes(back) == entries_bytes(back.drop_last()) + header_block(
            entries.last(),
        ) + body_region(entries.last().body));
        assert(entries_bytes(entries) =~= first + entries_bytes(back));
    }
}

/// The header block of a readable entry does not begin with a NUL byte, and
/// decodes to the entry.
pub proof fn lemma_readable_header(e: EntryView)
    requires
        readable(e),
    ensures
        header_block(e).len() == 512,
        header_block(e)[0] != 0,
        decoded_header(header_block(e)) == Some(
            EntryView { checksum: checksum_of(header_block(e)), body: Seq::empty(), ..e },
        ),
{
    let name = encode_utf8(e.file_name);
    reveal(readable);
    lemma_header_round_trip(e);
    lemma_header_block_layout(e);
    lemma_raw_header_layout(e);
    encode_utf8_decode_utf8(e.file_name);
    assert(name.len() > 0);
    assert(raw_header(e)[0] == raw_header(e).subrange(0, 100)[0]);
    assert(padded(name, 100)[0] == name[0]);
}

/// Where `data` holds at `pos` the header block and the stored body of a
/// readable entry, a reader at `pos` finds that entry, and goes on behind
/// the blocks that its size demands.
pub proof fn lemma_entry_read_back(data: Seq<u8>, pos: nat, e: EntryView)
    requires
        readable(e),
        pos + 512 + body_region(e.body).len() <= data.len(),
        data.subrange(pos as int, (pos + 512) as int) == header_block(e),
        data.subrange((pos + 512) as int, (pos + 512 + body_region(e.body).len()) as int)
            == body_region(e.body),
    ensures
        parsed_entries(data, pos, false) == entries_then(
            seq![as_read(e)],
            parsed_entries(data, pos + 512 + stored_len(e.body.len()), false),
        ),
{
    let header = header_block(e);
    let region = body_region(e.body);
    let size = e.body.len();
    let start = pos + 512;
    lemma_readable_header(e);
    lemma_body_region_blocks(e.body);
    assert(e.file_size == size) by {
        reveal(readable);
    }
    assert(data[pos as int] == data.subrange(pos as int, (pos + 512) as int)[0]);
    assert(data.subrange(start as int, (start + size) as int) =~= e.body) by {
        assert forall|i: int| 0 <= i < size implies data[start + i] == e.body[i] by {
            assert(data.subrange(start as int, (start + region.len()) as int)[i] == region[i]);
        }
    }
    let found = EntryView {
        body: data.subrange(start as int, (start + size) as int),
        ..(EntryView { checksum: checksum_of(header), body: Seq::empty(), ..e })
    };
    assert(found == as_read(e));
}

/// Where `data` holds at `pos` the bytes of readable entries and then a
/// block of NUL bytes, a reader at `pos` finds what can be read back of
/// the entries.
#[verifier::rlimit(40)]
pub proof fn lemma_entries_read_back(data: Seq<u8>, pos: nat, entries: Seq<EntryView>)
    requires
        forall|i: int| 0 <= i < entries.len() ==> readable(#[trigger] entries[i]),
        pos + entries_bytes(entries).len() + 512 <= data.len(),
        data.subrange(pos as int, (pos + entries_bytes(entries).len()) as int) == entries_bytes(
            entries,
        ),
        forall|i: int|
            pos + entries_bytes(entries).len() <= i < pos + entries_bytes(entries).len() + 512
                ==> data[i] == 0,
    ensures
        parsed_entries(data, pos, false) == Ok::<Seq<EntryView>, TarError>(read_back(entries)),
    decreases entries.len(),
{
    let all = entries_bytes(entries);
    if entries.len() == 0 {
        assert(data[pos as int] == 0);
    } else {
        let e = entries[0];
        let rest = entries.drop_first();
        let header = header_block(e);
        let region = body_region(e.body);
        let tail = entries_bytes(rest);
        let size = e.body.len();
        lemma_entries_bytes_front(entries);
        lemma_header_block_len(e);
        lemma_body_region_blocks(e.body);
        assert(all == header + region + tail);
        assert(all.len() == 512 + region.len() + tail.len());
        assert forall|i: int| 0 <= i < all.len() implies data[pos + i] == #[trigger] all[i] by {
            assert(data.subrange(pos as int, (pos + all.len()) as int)[i] == all[i]);
        }
        assert(data.subrange(pos as int, (pos + 512) as int) =~= header) by {
            assert forall|i: int| 0 <= i < 512 implies data[pos + i] == header[i] by {
                assert(all[i] == header[i]);
            }
        }
        assert(data.subrange((pos + 512) as int, (pos + 512 + region.len()) as int) =~= region)
            by {
            assert forall|i: int| 0 <= i < region.len() implies data[pos + 512 + i]
                == region[i] by {
                assert(all[512 + i] == region[i]);
            }
        }
        lemma_entry_read_back(data, pos, e);
        let next = pos + 512 + stored_len(size);
        if size % 512 == 0 {
            assert(next == pos + 512 + size);
            assert(data[next as int] == 0) by {
                assert(all[(512 + size) as int] == region[size as int]);
                assert(region.skip(size as int)[0] == 0);
            }
            assert(parsed_entries(data, next, false) == Ok::<Seq<EntryView>, TarError>(
                Seq::empty(),
            ));
            assert(seq![as_read(e)] + Seq::<EntryView>::empty() =~= seq![as_read(e)]);
        } else {
            assert(next == pos + 512 + region.len());
            assert forall|i: int| 0 <= i < rest.len() implies readable(#[trigger] rest[i]) by {
                assert(rest[i] == entries[i + 1]);
            }
            assert(data.subrange(next as int, (next + tail.len()) as int) =~= tail) by {
                assert forall|i: int| 0 <= i < tail.len() implies data[next + i] == tail[i] by {
                    assert(all[512 + region.len() + i] == tail[i]);
                }
            }
            lemma_entries_read_back(data, next, rest);
        }
    }
}

/// Reading the archive of readable entries gives back what can be read
/// back of them.
pub proof fn lemma_archive_reads_back(entries: Seq<EntryView>)
    requires
        forall|i: int| 0 <= i < entries.len() ==> readable(#[trigger] entries[i]),
    ensures
        parsed_entries(archive_bytes(entries), 0, false) == Ok::<Seq<EntryView>, TarError>(
            read_back(entries),
        ),
{
    let all = entries_bytes(entries);
    let data = archive_bytes(entries);
    assert(end_padding(all.len()) >= 512);
    assert(data.subrange(0, all.len() as int) =~= all);
    lemma_entries_read_back(data, 0, entries);
}

/// Whether an archive keeps the file with this metadata and content whole:
/// its kind has a type flag, its path can be cut and has from 1 to 255
/// bytes, its names and its link target fit their fields, no text holds a
/// NUL byte, its numbers fit their octal digits, and its size is the length
/// of its content.
pub open spec fn archivable(meta: FileMetadata, contents: Seq<u8>) -> bool {
    &&& type_flag_of(meta.kind) is Some
    &&& splittable(meta.path@)
    &&& 0 < encode_utf8(meta.path@).len() <= 255
    &&& plain_text(meta.path@)
    &&& meta.kind == FileKind::Symlink ==> encode_utf8(meta.link_target@).len() <= 100
        && plain_text(meta.link_target@)
    &&& encode_utf8(meta.owner_name@).len() <= 32
    &&& plain_text(meta.owner_name@)
    &&& encode_utf8(meta.group_name@).len() <= 32
    &&& plain_text(meta.group_name@)
    &&& meta.uid < 0o100000000
    &&& meta.gid < 0o100000000
    &&& meta.size < 0o1000000000000
    &&& meta.mtime < 0o1000000000000
    &&& meta.size == contents.len()
}

/// The entry of an archivable file can be read: its prefix and name are
/// the path, the name within 100 bytes, and its mode is the file's where
/// that holds permission bits only.
pub proof fn lemma_metadata_entry_readable(meta: FileMetadata, contents: Seq<u8>)
    requires
        archivable(meta, contents),
    ensures
        readable(metadata_entry(meta, contents)),
        metadata_entry(meta, contents).prefix + metadata_entry(meta, contents).file_name
            == meta.path@,
        0 < encode_utf8(metadata_entry(meta, contents).file_name).len() <= 100,
        meta.mode <= 0o777 ==> metadata_entry(meta, contents).file_mode == meta.mode,
{
    let e = metadata_entry(meta, contents);
    let bytes = encode_utf8(meta.path@);
    let cut = split_point(bytes);
    let flag = seq![type_flag_of(meta.kind)->Some_0];
    let mode = meta.mode;
    reveal(readable);
    lemma_pow8_values();
    lemma_split_path_parts(meta.path@);
    assert(mode & 0o777 <= 0o777) by (bit_vector);
    assert(mode <= 0o777 ==> mode & 0o777 == mode) by (bit_vector);
    assert(is_ascii_chars(flag));
    is_ascii_chars_encode_utf8(flag);
    assert(encode_utf8(flag)[0] == flag[0] as u8);
    assert(encode_utf8(Seq::<char>::empty()) =~= Seq::<u8>::empty());
    assert forall|i: int| 0 <= i < encode_utf8(e.file_name).len() implies #[trigger] encode_utf8(
        e.file_name,
    )[i] != 0 by {
        assert(bytes.skip(cut)[i] == bytes[cut + i]);
    }
    assert forall|i: int| 0 <= i < encode_utf8(e.prefix).len() implies #[trigger] encode_utf8(
        e.prefix,
    )[i] != 0 by {
        assert(bytes.take(cut)[i] == bytes[i]);
    }
    assert(e.file_name.len() > 0) by {
        if e.file_name.len() == 0 {
            assert(e.file_name =~= Seq::<char>::empty());
        }
    }
}

/// The archive of one archivable file is read back as the entry of that
/// file, with the checksum of its header block.
pub proof fn lemma_archived_file_reads_back(meta: FileMetadata, contents: Seq<u8>)
    requires
        archivable(meta, contents),
    ensures
        parsed_entries(archive_bytes(seq![metadata_entry(meta, contents)]), 0, false) == Ok::<
            Seq<EntryView>,
            TarError,
        >(seq![as_read(metadata_entry(meta, contents))]),
{
    let e = metadata_entry(meta, contents);
    let entries = seq![e];
    lemma_metadata_entry_readable(meta, contents);
    lemma_archive_reads_back(entries);
    assert(read_back(entries.drop_first()) =~= Seq::<EntryView>::empty());
    assert(read_back(entries) =~= seq![as_read(e)]);
}

} // verus!
