//! The archive format: its fields, its header block, and the reading and
//! writing of whole archives.

use vstd::prelude::*;
use vstd::slice::*;
use crate::error::TarError;
use crate::tar::field::{decode_octal_field, decode_text_field, number_value, text_value};

pub mod field;
pub mod header;
pub mod models;
pub mod octal;
pub mod read;
pub mod read_back;
pub mod round_trip;
pub mod write;

verus! {

/// Reads the text field of `length` bytes that `buffer` holds at `at`.
/// Fails where `buffer` ends before the field does, or the bytes before
/// the field's first NUL byte are not UTF-8.
pub fn read_utf8_string_value(buffer: &[u8], at: usize, length: u32) -> (res: Result<
    String,
    TarError,
>)
    ensures
        match (if at + length <= buffer@.len() {
            text_value(buffer@.subrange(at as int, at + length))
        } else {
            None
        }) {
            Some(text) => res is Ok && res->Ok_0@ == text,
            None => res is Err && res->Err_0 == TarError::MalformedHeader,
        },
{
    if at > buffer.len() || length as usize > buffer.len() - at {
        return Err(TarError::MalformedHeader);
    }
    match decode_text_field(slice_subrange(buffer, at, at + length as usize)) {
        Some(text) => Ok(text),
        None => Err(TarError::MalformedHeader),
    }
}

/// Reads the numeric field of `length` bytes that `buffer` holds at `at`.
/// Fails where `buffer` ends before the field does, or the bytes before
/// the field's first NUL byte or space are not an octal number of at most
/// 128 bits.
pub fn read_utf8_octal_value(buffer: &[u8], at: usize, length: u32) -> (res: Result<
    u128,
    TarError,
>)
    ensures
        match (if at + length <= buffer@.len() {
            number_value(buffer@.subrange(at as int, at + length))
        } else {
            None
        }) {
            Some(value) => res is Ok && res->Ok_0 as nat == value,
            None => res is Err && res->Err_0 == TarError::MalformedHeader,
        },
{
    if at > buffer.len() || length as usize > buffer.len() - at {
        return Err(TarError::MalformedHeader);
    }
    match decode_octal_field(slice_subrange(buffer, at, at + length as usize)) {
        Some(value) => Ok(value),
        None => Err(TarError::MalformedHeader),
    }
}

} // verus!
