//! The header block: 512 bytes that describe one entry.

use vstd::prelude::*;
use vstd::string::*;
use vstd::utf8::*;
use crate::error::TarError;
use crate::tar::field::{
    number_value, octal_field, padded, push_octal_field, push_padded, push_text_field, text_value,
};
use crate::tar::models::{EntryView, TarFile};
use crate::tar::octal::{
    is_octal_digit, lemma_octal_text_shape, lemma_pow8_values, octal_text, pow8, push_octal,
};
use crate::tar::{read_utf8_octal_value, read_utf8_string_value};

verus! {

/// The text of the magic field.
pub open spec fn magic_text() -> Seq<char> {
    seq!['u', 's', 't', 'a', 'r', ' ']
}

/// The text of the version field.
pub open spec fn version_text() -> Seq<char> {
    seq![' ']
}

/// Whether every field of `e` fits its place in a header block: text by
/// the length of its UTF-8 encoding, a number by its octal digits.
pub open spec fn encodable(e: EntryView) -> bool {
    &&& encode_utf8(e.file_name).len() <= 100
    &&& e.file_mode < pow8(8)
    &&& e.owner_uid < pow8(8)
    &&& e.group_uid < pow8(8)
    &&& e.file_size < pow8(12)
    &&& e.last_mod_time < pow8(12)
    &&& encode_utf8(e.link_indicator).len() <= 1
    &&& encode_utf8(e.linked_file_nbame).len() <= 100
    &&& encode_utf8(e.owner_name).len() <= 32
    &&& encode_utf8(e.group_name).len() <= 32
    &&& encode_utf8(e.prefix).len() <= 155
}

/// The fields of `e` one after the other, each in its width: the checksum
/// and the device numbers left as NUL bytes, and twelve NUL bytes at the
/// end.
pub open spec fn raw_header(e: EntryView) -> Seq<u8> {
    padded(encode_utf8(e.file_name), 100) + octal_field(e.file_mode, 8) + octal_field(
        e.owner_uid,
        8,
    ) + octal_field(e.group_uid, 8) + octal_field(e.file_size, 12) + octal_field(
        e.last_mod_time,
        12,
    ) + padded(Seq::empty(), 8) + padded(encode_utf8(e.link_indicator), 1) + padded(
        encode_utf8(e.linked_file_nbame),
        100,
    ) + padded(encode_utf8(magic_text()), 6) + padded(encode_utf8(version_text()), 2) + padded(
        encode_utf8(e.owner_name),
        32,
    ) + padded(encode_utf8(e.group_name), 32) + padded(Seq::empty(), 8) + padded(
        Seq::empty(),
        8,
    ) + padded(encode_utf8(e.prefix), 155) + padded(Seq::empty(), 12)
}

/// The byte at place `i` once the header is made ready for its checksum:
/// a space throughout the checksum field, and `b` itself anywhere else.
pub open spec fn blank_byte(b: u8, i: int) -> u8 {
    if 148 <= i < 156 {
        32u8
    } else {
        b
    }
}

/// The header of `e` before its checksum is written.
pub open spec fn blanked_header(e: EntryView) -> Seq<u8> {
    Seq::new(512, |i: int| blank_byte(raw_header(e)[i], i))
}

/// The sum of the bytes of `s`.
pub open spec fn byte_sum(s: Seq<u8>) -> nat
    decreases s.len(),
{
    if s.len() == 0 {
        0
    } else {
        byte_sum(s.drop_last()) + s.last() as nat
    }
}

/// `block` with spaces in place of its checksum field.
pub open spec fn with_blank_checksum(block: Seq<u8>) -> Seq<u8> {
    Seq::new(block.len(), |i: int| if 148 <= i < 156 { 32u8 } else { block[i] })
}

/// The checksum of a header block: the sum of its bytes, the checksum
/// field counted as eight spaces.
pub open spec fn checksum_of(block: Seq<u8>) -> nat {
    byte_sum(with_blank_checksum(block))
}

/// The checksum field for `sum`: six octal digits, a NUL byte, a space.
pub open spec fn checksum_field(sum: nat) -> Seq<u8> {
    octal_text(sum, 6).push(0u8).push(32u8)
}

/// The header block of `e`.
#[verifier::opaque]
pub open spec fn header_block(e: EntryView) -> Seq<u8> {
    let blanked = blanked_header(e);
    blanked.take(148) + checksum_field(byte_sum(blanked)) + blanked.skip(156)
}

/// A header block has 512 bytes.
pub proof fn lemma_header_block_len(e: EntryView)
    ensures
        header_block(e).len() == 512,
{
    reveal(header_block);
    lemma_octal_text_shape(byte_sum(blanked_header(e)), 6);
}

/// Two blocks that differ in their checksum fields only have the same
/// checksum: what the field holds is not summed.
pub proof fn lemma_checksum_ignores_stored_field(a: Seq<u8>, b: Seq<u8>)
    requires
        a.len() == b.len(),
        forall|i: int| 0 <= i < a.len() && !(148 <= i < 156) ==> a[i] == b[i],
    ensures
        checksum_of(a) == checksum_of(b),
{
    assert(with_blank_checksum(a) =~= with_blank_checksum(b));
}

/// The checksum of a block of 512 bytes fits six octal digits, and the
/// checksum field of a header block holds the checksum of that block:
/// computing it again gives the digits that stand there.
pub proof fn lemma_header_block_checksum(e: EntryView)
    ensures
        checksum_of(header_block(e)) == byte_sum(blanked_header(e)),
        checksum_of(header_block(e)) < pow8(6),
        header_block(e).subrange(148, 156) == checksum_field(checksum_of(header_block(e))),
        checksum_field(checksum_of(header_block(e))).subrange(0, 6) == octal_text(
            checksum_of(header_block(e)),
            6,
        ),
{
    let blanked = blanked_header(e);
    let block = header_block(e);
    let sum = byte_sum(blanked);
    reveal(header_block);
    lemma_pow8_values();
    lemma_octal_text_shape(sum, 6);
    lemma_byte_sum_bound(blanked);
    assert(with_blank_checksum(block) =~= blanked);
    assert(block.subrange(148, 156) =~= checksum_field(sum));
    assert(checksum_field(sum).subrange(0, 6) =~= octal_text(sum, 6));
}

/// A sum of bytes is at most 255 for each of them.
pub proof fn lemma_byte_sum_bound(s: Seq<u8>)
    ensures
        byte_sum(s) <= 255 * s.len(),
    decreases s.len(),
{
    if s.len() > 0 {
        lemma_byte_sum_bound(s.drop_last());
    }
}

/// The checksum of a block of 512 bytes: the sum of its bytes, with the
/// eight bytes of the checksum field counted as spaces. It fits six octal
/// digits.
pub fn header_checksum(block: &[u8]) -> (sum: u32)
    requires
        block@.len() == 512,
    ensures
        sum as nat == checksum_of(block@),
        sum < 0o1000000,
{
    let ghost blanked = with_blank_checksum(block@);
    let mut sum: u32 = 0;
    let mut i: usize = 0;
    while i < 512
        invariant
            i <= 512,
            block@.len() == 512,
            blanked == with_blank_checksum(block@),
            sum as nat == byte_sum(blanked.take(i as int)),
            sum <= 255 * i,
        decreases 512 - i,
    {
        let b: u8 = if 148 <= i && i < 156 {
            32u8
        } else {
            block[i]
        };
        proof {
            assert(blanked.take(i + 1).drop_last() =~= blanked.take(i as int));
        }
        sum = sum + b as u32;
        i += 1;
    }
    proof {
        assert(blanked.take(512) =~= blanked);
    }
    sum
}

/// The checksum field for a block of 512 bytes: its checksum in six octal
/// digits, a NUL byte and a space. What the block holds in that field is
/// not read, so the same block always gives the same digits.
pub fn checksum_bytes(block: &[u8]) -> (field: Vec<u8>)
    requires
        block@.len() == 512,
    ensures
        field@ == checksum_field(checksum_of(block@)),
{
    let sum = header_checksum(block);
    let mut field: Vec<u8> = Vec::new();
    push_octal(&mut field, sum as u128, 6);
    field.push(0u8);
    field.push(32u8);
    assert(field@ =~= checksum_field(checksum_of(block@)));
    field
}

/// The magic and the version are ASCII: a byte for each character.
pub proof fn lemma_magic_bytes()
    ensures
        encode_utf8(magic_text()) =~= seq![117u8, 115u8, 116u8, 97u8, 114u8, 32u8],
        encode_utf8(version_text()) =~= seq![32u8],
{
    assert(is_ascii_chars(magic_text()));
    assert(is_ascii_chars(version_text()));
    is_ascii_chars_encode_utf8(magic_text());
    is_ascii_chars_encode_utf8(version_text());
}

/// Every field has its width, so the raw header has 512 bytes.
pub proof fn lemma_raw_header_len(e: EntryView)
    requires
        encodable(e),
    ensures
        raw_header(e).len() == 512,
{
    lemma_magic_bytes();
    lemma_octal_field_shape(e.file_mode, 8);
    lemma_octal_field_shape(e.owner_uid, 8);
    lemma_octal_field_shape(e.group_uid, 8);
    lemma_octal_field_shape(e.file_size, 12);
    lemma_octal_field_shape(e.last_mod_time, 12);
}

/// A numeric field has its width and holds octal digits, but for a NUL byte
/// at its end where the number leaves room for one.
pub proof fn lemma_octal_field_shape(value: nat, width: nat)
    requires
        width >= 1,
    ensures
        octal_field(value, width).len() == width,
        forall|i: int|
            0 <= i < width ==> {
                let b = #[trigger] octal_field(value, width)[i];
                is_octal_digit(b) || (b == 0 && i == width - 1 && value < pow8((width - 1) as nat))
            },
{
    lemma_octal_text_shape(value, width);
    lemma_octal_text_shape(value, (width - 1) as nat);
}

/// The fields of `entry` in their widths, before the checksum is made.
fn encode_raw(entry: &TarFile) -> (res: Result<Vec<u8>, TarError>)
    ensures
        encodable(entry@) ==> res is Ok && res->Ok_0@ == raw_header(entry@),
        !encodable(entry@) ==> res is Err && res->Err_0 == TarError::FieldOverflow,
{
    let mut out: Vec<u8> = Vec::new();
    let nothing: Vec<u8> = Vec::new();
    proof {
        reveal_strlit("ustar ");
        reveal_strlit(" ");
        assert("ustar "@ =~= magic_text());
        assert(" "@ =~= version_text());
        lemma_magic_bytes();
    }
    push_text_field(&mut out, entry.file_name.as_str(), 100)?;
    push_octal_field(&mut out, entry.file_mode, 8)?;
    push_octal_field(&mut out, entry.owner_uid, 8)?;
    push_octal_field(&mut out, entry.group_uid, 8)?;
    push_octal_field(&mut out, entry.file_size, 12)?;
    push_octal_field(&mut out, entry.last_mod_time, 12)?;
    push_padded(&mut out, nothing.as_slice(), 8);
    push_text_field(&mut out, entry.link_indicator.as_str(), 1)?;
    push_text_field(&mut out, entry.linked_file_nbame.as_str(), 100)?;
    push_text_field(&mut out, "ustar ", 6)?;
    push_text_field(&mut out, " ", 2)?;
    push_text_field(&mut out, entry.owner_name.as_str(), 32)?;
    push_text_field(&mut out, entry.group_name.as_str(), 32)?;
    push_padded(&mut out, nothing.as_slice(), 8);
    push_padded(&mut out, nothing.as_slice(), 8);
    push_text_field(&mut out, entry.prefix.as_str(), 155)?;
    push_padded(&mut out, nothing.as_slice(), 12);
    assert(nothing@ =~= Seq::<u8>::empty());
    Ok(out)
}

/// Builds the header block of `entry`: its fields in their places, each
/// padded with NUL bytes, and the checksum of the result. The
/// entry's own `checksum`, magic, version and device numbers are not read.
/// Fails where a field does not fit its width.
pub fn encode_header(entry: &TarFile) -> (res: Result<Vec<u8>, TarError>)
    ensures
        encodable(entry@) ==> res is Ok && res->Ok_0@ == header_block(entry@),
        !encodable(entry@) ==> res is Err && res->Err_0 == TarError::FieldOverflow,
{
    let mut out = encode_raw(entry)?;
    proof {
        lemma_raw_header_len(entry@);
    }
    let ghost raw = out@;
    let mut i: usize = 0;
    while i < 512
        invariant
            i <= 512,
            raw.len() == 512,
            out@.len() == 512,
            forall|j: int| 0 <= j < i ==> out@[j] == blank_byte(raw[j], j),
            forall|j: int| i <= j < 512 ==> out@[j] == raw[j],
        decreases 512 - i,
    {
        if 148 <= i && i < 156 {
            out[i] = 32u8;
        }
        i += 1;
    }
    assert(out@ =~= blanked_header(entry@));
    assert(with_blank_checksum(out@) =~= out@);
    let field = checksum_bytes(out.as_slice());
    proof {
        lemma_octal_text_shape(checksum_of(out@), 6);
    }
    let mut k: usize = 0;
    while k < 8
        invariant
            k <= 8,
            field@.len() == 8,
            out@.len() == 512,
            forall|j: int|
                0 <= j < 148 || 148 + k <= j < 512 ==> out@[j] == blanked_header(entry@)[j],
            forall|j: int| 0 <= j < k ==> out@[148 + j] == field@[j],
        decreases 8 - k,
    {
        out[148 + k] = field[k];
        k += 1;
    }
    assert(out@ =~= header_block(entry@)) by {
        reveal(header_block);
    }
    Ok(out)
}

/// What a header block says: each field read at its place, the twelve
/// bytes at the end ignored. `None` where the block has not 512 bytes, a
/// text field is not UTF-8, or a numeric field is not octal text. The body
/// is left empty.
pub open spec fn decoded_header(block: Seq<u8>) -> Option<EntryView> {
    let file_name = text_value(block.subrange(0, 100));
    let file_mode = number_value(block.subrange(100, 108));
    let owner_uid = number_value(block.subrange(108, 116));
    let group_uid = number_value(block.subrange(116, 124));
    let file_size = number_value(block.subrange(124, 136));
    let last_mod_time = number_value(block.subrange(136, 148));
    let checksum = number_value(block.subrange(148, 156));
    let link_indicator = text_value(block.subrange(156, 157));
    let linked_file_nbame = text_value(block.subrange(157, 257));
    let ustar = text_value(block.subrange(257, 263));
    let ustar_version = text_value(block.subrange(263, 265));
    let owner_name = text_value(block.subrange(265, 297));
    let group_name = text_value(block.subrange(297, 329));
    let device_major = text_value(block.subrange(329, 337));
    let device_minor = text_value(block.subrange(337, 345));
    let prefix = text_value(block.subrange(345, 500));
    if block.len() == 512 && file_name is Some && file_mode is Some && owner_uid is Some
        && group_uid is Some && file_size is Some && last_mod_time is Some && checksum is Some
        && link_indicator is Some && linked_file_nbame is Some && ustar is Some
        && ustar_version is Some && owner_name is Some && group_name is Some
        && device_major is Some && device_minor is Some && prefix is Some {
        Some(
            EntryView {
                file_name: file_name->Some_0,
                file_mode: file_mode->Some_0,
                owner_uid: owner_uid->Some_0,
                group_uid: group_uid->Some_0,
                file_size: file_size->Some_0,
                last_mod_time: last_mod_time->Some_0,
                checksum: checksum->Some_0,
                link_indicator: link_indicator->Some_0,
                linked_file_nbame: linked_file_nbame->Some_0,
                ustar: ustar->Some_0,
                ustar_version: ustar_version->Some_0,
                owner_name: owner_name->Some_0,
                group_name: group_name->Some_0,
                device_major: device_major->Some_0,
                device_minor: device_minor->Some_0,
                prefix: prefix->Some_0,
                body: Seq::empty(),
            },
        )
    } else {
        None
    }
}

/// Decodes a header block into an entry with an empty body. Fails where
/// the block has not 512 bytes, a text field is not UTF-8 up to its first
/// NUL byte, or a numeric field is not octal text. The stored checksum is
/// decoded and not held against the block.
pub fn decode_header(block: &[u8]) -> (res: Result<TarFile, TarError>)
    ensures
        decoded_header(block@) is Some ==> res is Ok && res->Ok_0@ == decoded_header(
            block@,
        )->Some_0,
        decoded_header(block@) is None ==> res is Err && res->Err_0 == TarError::MalformedHeader,
{
    if block.len() != 512 {
        return Err(TarError::MalformedHeader);
    }
    let file_name = read_utf8_string_value(block, 0, 100)?;
    let file_mode = read_utf8_octal_value(block, 100, 8)?;
    let owner_uid = read_utf8_octal_value(block, 108, 8)?;
    let group_uid = read_utf8_octal_value(block, 116, 8)?;
    let file_size = read_utf8_octal_value(block, 124, 12)?;
    let last_mod_time = read_utf8_octal_value(block, 136, 12)?;
    let checksum = read_utf8_octal_value(block, 148, 8)?;
    let link_indicator = read_utf8_string_value(block, 156, 1)?;
    let linked_file_nbame = read_utf8_string_value(block, 157, 100)?;
    let ustar = read_utf8_string_value(block, 257, 6)?;
    let ustar_version = read_utf8_string_value(block, 263, 2)?;
    let owner_name = read_utf8_string_value(block, 265, 32)?;
    let group_name = read_utf8_string_value(block, 297, 32)?;
    let device_major = read_utf8_string_value(block, 329, 8)?;
    let device_minor = read_utf8_string_value(block, 337, 8)?;
    let prefix = read_utf8_string_value(block, 345, 155)?;
    Ok(
        TarFile {
            file_name,
            file_mode,
            owner_uid,
            group_uid,
            file_size,
            last_mod_time,
            checksum,
            link_indicator,
            linked_file_nbame,
            ustar,
            ustar_version,
            owner_name,
            group_name,
            device_major,
            device_minor,
            prefix,
            body: Vec::new(),
        },
    )
}

/// Whether the checksum that a block of 512 bytes stores is the checksum
/// of the block. Reading an archive does not ask this of its header
/// blocks; a caller who wants corrupted headers found does.
pub fn checksum_matches(block: &[u8]) -> (ok: bool)
    requires
        block@.len() == 512,
    ensures
        ok == (number_value(block@.subrange(148, 156)) == Some(checksum_of(block@))),
{
    let sum = header_checksum(block);
    match read_utf8_octal_value(block, 148, 8) {
        Ok(stored) => stored == sum as u128,
        Err(_) => false,
    }
}

} // verus!
