//! Decoding the header block of an entry gives the entry back, where a
//! header block can hold the entry at all.

use vstd::prelude::*;
use vstd::utf8::*;
use crate::tar::field::{
    lemma_trimmed_is_prefix, number_value, octal_field, padded, text_value,
};
use crate::tar::header::{
    checksum_field, checksum_of, decoded_header, encodable,
    header_block, lemma_header_block_checksum, lemma_magic_bytes, lemma_octal_field_shape,
    lemma_raw_header_len, magic_text, raw_header, version_text,
};
use crate::tar::models::EntryView;
use crate::tar::octal::{
    lemma_octal_round_trip, lemma_octal_text_shape, lemma_pow8_increases, lemma_pow8_values,
    octal_text, pow8,
};

verus! {

/// Whether the UTF-8 encoding of `text` holds no NUL byte: a text field
/// ends at its first one.
pub open spec fn plain_text(text: Seq<char>) -> bool {
    forall|i: int|
        0 <= i < encode_utf8(text).len() ==> #[trigger] encode_utf8(text)[i] != 0
}

/// Whether a header block can hold all of `e`: every field fits, no text
/// field holds a NUL byte, and the fields that a block fixes have their
/// fixed values.
pub open spec fn representable(e: EntryView) -> bool {
    &&& encodable(e)
    &&& plain_text(e.file_name)
    &&& plain_text(e.link_indicator)
    &&& plain_text(e.linked_file_nbame)
    &&& plain_text(e.owner_name)
    &&& plain_text(e.group_name)
    &&& plain_text(e.prefix)
    &&& e.ustar == magic_text()
    &&& e.ustar_version == version_text()
    &&& e.device_major == Seq::<char>::empty()
    &&& e.device_minor == Seq::<char>::empty()
}

/// A text field that holds no NUL byte is read back as it was written.
pub proof fn lemma_text_field_round_trip(text: Seq<char>, width: nat)
    requires
        encode_utf8(text).len() <= width,
        forall|i: int| 0 <= i < encode_utf8(text).len() ==> #[trigger] encode_utf8(text)[i] != 0,
    ensures
        text_value(padded(encode_utf8(text), width)) == Some(text),
{
    let content = encode_utf8(text);
    let field = padded(content, width);
    lemma_trimmed_is_prefix(field, false, content.len() as int);
    assert(field.take(content.len() as int) =~= content);
    encode_utf8_valid_utf8(text);
    encode_utf8_decode_utf8(text);
}

/// A numeric field of two to twelve bytes is read back as the number that
/// was written.
pub proof fn lemma_octal_field_round_trip(value: nat, width: nat)
    requires
        2 <= width <= 12,
        value < pow8(width),
    ensures
        number_value(octal_field(value, width)) == Some(value),
{
    let field = octal_field(value, width);
    lemma_octal_field_shape(value, width);
    lemma_pow8_values();
    lemma_pow8_increases(width, 12);
    let digits: nat = if value < pow8((width - 1) as nat) {
        (width - 1) as nat
    } else {
        width
    };
    lemma_octal_text_shape(value, digits);
    lemma_trimmed_is_prefix(field, true, digits as int);
    assert(field.take(digits as int) =~= octal_text(value, digits));
    lemma_octal_round_trip(value, digits);
}

/// The checksum field is read back as the sum that was written.
pub proof fn lemma_checksum_field_round_trip(sum: nat)
    requires
        sum < pow8(6),
    ensures
        number_value(checksum_field(sum)) == Some(sum),
{
    let field = checksum_field(sum);
    lemma_pow8_values();
    lemma_octal_text_shape(sum, 6);
    lemma_trimmed_is_prefix(field, true, 6);
    assert(field.take(6) =~= octal_text(sum, 6));
    lemma_octal_round_trip(sum, 6);
}

/// The checksum that a header block stores is the checksum of the block.
pub proof fn lemma_header_block_checksum_matches(e: EntryView)
    ensures
        number_value(header_block(e).subrange(148, 156)) == Some(checksum_of(header_block(e))),
{
    lemma_header_block_checksum(e);
    lemma_checksum_field_round_trip(checksum_of(header_block(e)));
}

/// The fields of a raw header stand at their places.
pub proof fn lemma_raw_header_layout(e: EntryView)
    requires
        encodable(e),
    ensures
        raw_header(e).len() == 512,
        raw_header(e).subrange(0, 100) == padded(encode_utf8(e.file_name), 100),
        raw_header(e).subrange(100, 108) == octal_field(e.file_mode, 8),
        raw_header(e).subrange(108, 116) == octal_field(e.owner_uid, 8),
        raw_header(e).subrange(116, 124) == octal_field(e.group_uid, 8),
        raw_header(e).subrange(124, 136) == octal_field(e.file_size, 12),
        raw_header(e).subrange(136, 148) == octal_field(e.last_mod_time, 12),
        raw_header(e).subrange(156, 157) == padded(encode_utf8(e.link_indicator), 1),
        raw_header(e).subrange(157, 257) == padded(encode_utf8(e.linked_file_nbame), 100),
        raw_header(e).subrange(257, 263) == padded(encode_utf8(magic_text()), 6),
        raw_header(e).subrange(263, 265) == padded(encode_utf8(version_text()), 2),
        raw_header(e).subrange(265, 297) == padded(encode_utf8(e.owner_name), 32),
        raw_header(e).subrange(297, 329) == padded(encode_utf8(e.group_name), 32),
        raw_header(e).subrange(329, 337) == padded(Seq::empty(), 8),
        raw_header(e).subrange(337, 345) == padded(Seq::empty(), 8),
        raw_header(e).subrange(345, 500) == padded(encode_utf8(e.prefix), 155),
{
    let raw = raw_header(e);
    lemma_raw_header_len(e);
    lemma_magic_bytes();
    lemma_octal_field_shape(e.file_mode, 8);
    lemma_octal_field_shape(e.owner_uid, 8);
    lemma_octal_field_shape(e.group_uid, 8);
    lemma_octal_field_shape(e.file_size, 12);
    lemma_octal_field_shape(e.last_mod_time, 12);
    assert(raw.subrange(0, 100) =~= padded(encode_utf8(e.file_name), 100));
    assert(raw.subrange(100, 108) =~= octal_field(e.file_mode, 8));
    assert(raw.subrange(108, 116) =~= octal_field(e.owner_uid, 8));
    assert(raw.subrange(116, 124) =~= octal_field(e.group_uid, 8));
    assert(raw.subrange(124, 136) =~= octal_field(e.file_size, 12));
    assert(raw.subrange(136, 148) =~= octal_field(e.last_mod_time, 12));
    assert(raw.subrange(156, 157) =~= padded(encode_utf8(e.link_indicator), 1));
    assert(raw.subrange(157, 257) =~= padded(encode_utf8(e.linked_file_nbame), 100));
    assert(raw.subrange(257, 263) =~= padded(encode_utf8(magic_text()), 6));
    assert(raw.subrange(263, 265) =~= padded(encode_utf8(version_text()), 2));
    assert(raw.subrange(265, 297) =~= padded(encode_utf8(e.owner_name), 32));
    assert(raw.subrange(297, 329) =~= padded(encode_utf8(e.group_name), 32));
    assert(raw.subrange(329, 337) =~= padded(Seq::empty(), 8));
    assert(raw.subrange(337, 345) =~= padded(Seq::empty(), 8));
    assert(raw.subrange(345, 500) =~= padded(encode_utf8(e.prefix), 155));
}

/// In a header block every field but the checksum stands as in the raw
/// header, and the checksum field holds the block's checksum.
pub proof fn lemma_header_block_layout(e: EntryView)
    requires
        encodable(e),
    ensures
        header_block(e).len() == 512,
        forall|i: int| 0 <= i < 148 || 156 <= i < 512 ==> header_block(e)[i] == raw_header(e)[i],
        header_block(e).subrange(148, 156) == checksum_field(checksum_of(header_block(e))),
        checksum_of(header_block(e)) < pow8(6),
{
    reveal(header_block);
    lemma_raw_header_len(e);
    lemma_header_block_checksum(e);
}

/// Decoding the header block of a representable entry gives back every
/// field of it, with the checksum of the block in place of the entry's
/// own, and an empty body.
pub proof fn lemma_header_round_trip(e: EntryView)
    requires
        representable(e),
    ensures
        decoded_header(header_block(e)) == Some(
            EntryView { checksum: checksum_of(header_block(e)), body: Seq::empty(), ..e },
        ),
{
    let raw = raw_header(e);
    let block = header_block(e);
    lemma_raw_header_layout(e);
    lemma_header_block_layout(e);
    lemma_magic_bytes();
    assert(block.subrange(0, 100) =~= raw.subrange(0, 100));
    assert(block.subrange(100, 108) =~= raw.subrange(100, 108));
    assert(block.subrange(108, 116) =~= raw.subrange(108, 116));
    assert(block.subrange(116, 124) =~= raw.subrange(116, 124));
    assert(block.subrange(124, 136) =~= raw.subrange(124, 136));
    assert(block.subrange(136, 148) =~= raw.subrange(136, 148));
    assert(block.subrange(156, 157) =~= raw.subrange(156, 157));
    assert(block.subrange(157, 257) =~= raw.subrange(157, 257));
    assert(block.subrange(257, 263) =~= raw.subrange(257, 263));
    assert(block.subrange(263, 265) =~= raw.subrange(263, 265));
    assert(block.subrange(265, 297) =~= raw.subrange(265, 297));
    assert(block.subrange(297, 329) =~= raw.subrange(297, 329));
    assert(block.subrange(329, 337) =~= raw.subrange(329, 337));
    assert(block.subrange(337, 345) =~= raw.subrange(337, 345));
    assert(block.subrange(345, 500) =~= raw.subrange(345, 500));
    lemma_text_field_round_trip(e.file_name, 100);
    lemma_octal_field_round_trip(e.file_mode, 8);
    lemma_octal_field_round_trip(e.owner_uid, 8);
    lemma_octal_field_round_trip(e.group_uid, 8);
    lemma_octal_field_round_trip(e.file_size, 12);
    lemma_octal_field_round_trip(e.last_mod_time, 12);
    lemma_checksum_field_round_trip(checksum_of(block));
    lemma_text_field_round_trip(e.link_indicator, 1);
    lemma_text_field_round_trip(e.linked_file_nbame, 100);
    lemma_text_field_round_trip(magic_text(), 6);
    lemma_text_field_round_trip(version_text(), 2);
    lemma_text_field_round_trip(e.owner_name, 32);
    lemma_text_field_round_trip(e.group_name, 32);
    assert(encode_utf8(Seq::<char>::empty()) =~= Seq::<u8>::empty());
    lemma_text_field_round_trip(Seq::<char>::empty(), 8);
    lemma_text_field_round_trip(e.prefix, 155);
}

} // verus!
