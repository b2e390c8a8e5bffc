//! The fixed-width fields of a header block: text padded with NUL bytes,
//! and numbers in octal text.

use vstd::prelude::*;
use vstd::slice::*;
use vstd::string::*;
use vstd::utf8::*;
use crate::error::TarError;
use crate::tar::octal::{
    is_octal_text, lemma_pow8_increases, lemma_pow8_values, octal_text, octal_value, parse_octal,
    pow8, push_octal,
};

verus! {

/// Whether `b` ends what a field holds: a NUL byte, and in a numeric field
/// a space too.
pub open spec fn ends_field(b: u8, numeric: bool) -> bool {
    b == 0 || (numeric && b == 32)
}

/// What a field holds: its bytes before the first one that ends it, or all
/// of them where none does.
pub open spec fn trimmed(field: Seq<u8>, numeric: bool) -> Seq<u8>
    decreases field.len(),
{
    if field.len() == 0 || ends_field(field[0], numeric) {
        Seq::empty()
    } else {
        seq![field[0]] + trimmed(field.drop_first(), numeric)
    }
}

/// The text of a text field, or `None` where its bytes are not UTF-8.
pub open spec fn text_value(field: Seq<u8>) -> Option<Seq<char>> {
    let content = trimmed(field, false);
    if valid_utf8(content) {
        Some(decode_utf8(content))
    } else {
        None
    }
}

/// The number of a numeric field, or `None` where its bytes are not octal
/// text or the number is beyond 128 bits.
pub open spec fn number_value(field: Seq<u8>) -> Option<nat> {
    let content = trimmed(field, true);
    if is_octal_text(content) && octal_value(content) <= u128::MAX {
        Some(octal_value(content))
    } else {
        None
    }
}

/// `content` followed by NUL bytes up to `width` bytes.
pub open spec fn padded(content: Seq<u8>, width: nat) -> Seq<u8> {
    content + Seq::new((width - content.len()) as nat, |i: int| 0u8)
}

/// A numeric field of `width` bytes: one digit fewer than the width and a
/// NUL byte where the number fits that, else as many digits as the width.
pub open spec fn octal_field(value: nat, width: nat) -> Seq<u8> {
    if value < pow8((width - 1) as nat) {
        octal_text(value, (width - 1) as nat).push(0u8)
    } else {
        octal_text(value, width)
    }
}

/// A field whose first `n` bytes do not end it, and which ends there, holds
/// those `n` bytes.
pub proof fn lemma_trimmed_is_prefix(field: Seq<u8>, numeric: bool, n: int)
    requires
        0 <= n <= field.len(),
        forall|i: int| 0 <= i < n ==> !ends_field(#[trigger] field[i], numeric),
        n == field.len() || ends_field(field[n], numeric),
    ensures
        trimmed(field, numeric) == field.take(n),
    decreases n,
{
    if n == 0 {
        assert(field.take(0) =~= Seq::<u8>::empty());
    } else {
        let rest = field.drop_first();
        assert forall|i: int| 0 <= i < n - 1 implies !ends_field(#[trigger] rest[i], numeric) by {
            assert(rest[i] == field[i + 1]);
        }
        lemma_trimmed_is_prefix(rest, numeric, n - 1);
        assert(field.take(n) =~= seq![field[0]] + rest.take(n - 1));
    }
}

/// How many bytes of `field` stand before the first one that ends it.
pub fn content_len(field: &[u8], numeric: bool) -> (n: usize)
    ensures
        n <= field@.len(),
        trimmed(field@, numeric) == field@.take(n as int),
{
    let mut n: usize = 0;
    while n < field.len() && !(field[n] == 0 || (numeric && field[n] == 32))
        invariant
            n <= field@.len(),
            forall|i: int| 0 <= i < n ==> !ends_field(#[trigger] field@[i], numeric),
        decreases field@.len() - n,
    {
        n += 1;
    }
    proof {
        lemma_trimmed_is_prefix(field@, numeric, n as int);
    }
    n
}

/// Calls `String::from_utf8` of the standard library. Taken on trust from
/// its documentation, not proved: it succeeds exactly where `bytes` are
/// well-formed UTF-8, and the text it then gives is the one that they
/// encode.
#[verifier::external_body]
fn string_from_utf8(bytes: Vec<u8>) -> (res: Option<String>)
    ensures
        res is Some <==> valid_utf8(bytes@),
        res matches Some(s) ==> s@ == decode_utf8(bytes@),
{
    String::from_utf8(bytes).ok()
}

/// Decodes a text field: the UTF-8 text before its first NUL byte.
pub fn decode_text_field(field: &[u8]) -> (res: Option<String>)
    ensures
        res is Some <==> text_value(field@) is Some,
        res matches Some(s) ==> Some(s@) == text_value(field@),
{
    let n = content_len(field, false);
    let content = slice_to_vec(slice_subrange(field, 0, n));
    assert(content@ =~= field@.take(n as int));
    string_from_utf8(content)
}

/// Decodes a numeric field: the octal number before its first NUL byte or
/// space.
pub fn decode_octal_field(field: &[u8]) -> (res: Option<u128>)
    ensures
        res is Some <==> number_value(field@) is Some,
        res matches Some(v) ==> Some(v as nat) == number_value(field@),
{
    let n = content_len(field, true);
    let content = slice_subrange(field, 0, n);
    assert(content@ =~= field@.take(n as int));
    parse_octal(content)
}

/// Appends `content` and NUL bytes up to `width` bytes.
pub fn push_padded(out: &mut Vec<u8>, content: &[u8], width: usize)
    requires
        content@.len() <= width,
    ensures
        final(out)@ == old(out)@ + padded(content@, width as nat),
{
    out.extend_from_slice(content);
    let mut i: usize = content.len();
    while i < width
        invariant
            content@.len() <= i <= width,
            out@ =~= old(out)@ + content@ + Seq::new((i - content@.len()) as nat, |k: int| 0u8),
        decreases width - i,
    {
        out.push(0u8);
        i += 1;
    }
    assert(out@ =~= old(out)@ + padded(content@, width as nat));
}

/// Appends a text field of `width` bytes, or fails, leaving `out` as it
/// was, where the text's UTF-8 encoding is longer than that.
pub fn push_text_field(out: &mut Vec<u8>, text: &str, width: usize) -> (res: Result<(), TarError>)
    ensures
        text.spec_bytes().len() <= width ==> res is Ok && final(out)@ == old(out)@ + padded(
            text.spec_bytes(),
            width as nat,
        ),
        text.spec_bytes().len() > width ==> res == Err::<(), TarError>(TarError::FieldOverflow)
            && final(out)@ == old(out)@,
{
    let bytes = text.as_bytes();
    if bytes.len() > width {
        return Err(TarError::FieldOverflow);
    }
    push_padded(out, bytes, width);
    Ok(())
}

/// Eight to the power `digits`, for the widths that occur in a header.
pub fn octal_limit(digits: usize) -> (limit: u128)
    requires
        digits <= 12,
    ensures
        limit as nat == pow8(digits as nat),
{
    let mut limit: u128 = 1;
    let mut i: usize = 0;
    while i < digits
        invariant
            i <= digits <= 12,
            limit as nat == pow8(i as nat),
        decreases digits - i,
    {
        proof {
            lemma_pow8_values();
            lemma_pow8_increases(i as nat, 11);
        }
        limit = limit * 8;
        i += 1;
    }
    limit
}

/// Appends a numeric field of `width` bytes, or fails, leaving `out` as it
/// was, where `value` needs more than `width` octal digits.
pub fn push_octal_field(out: &mut Vec<u8>, value: u128, width: usize) -> (res: Result<
    (),
    TarError,
>)
    requires
        1 <= width <= 12,
    ensures
        value < pow8(width as nat) ==> res is Ok && final(out)@ == old(out)@ + octal_field(
            value as nat,
            width as nat,
        ),
        value >= pow8(width as nat) ==> res == Err::<(), TarError>(TarError::FieldOverflow)
            && final(out)@ == old(out)@,
{
    if value >= octal_limit(width) {
        return Err(TarError::FieldOverflow);
    }
    if value < octal_limit(width - 1) {
        push_octal(out, value, width - 1);
        out.push(0u8);
        assert(out@ =~= old(out)@ + octal_field(value as nat, width as nat));
    } else {
        push_octal(out, value, width);
    }
    Ok(())
}

} // verus!
