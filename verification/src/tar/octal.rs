//! Octal text: the base-8 ASCII digits in which a header stores its numbers.

use vstd::prelude::*;

verus! {

/// Eight to the power `n`.
pub open spec fn pow8(n: nat) -> nat
    decreases n,
{
    if n == 0 {
        1
    } else {
        8 * pow8((n - 1) as nat)
    }
}

/// Whether `b` is one of the ASCII digits `0` to `7`.
pub open spec fn is_octal_digit(b: u8) -> bool {
    48 <= b <= 55
}

/// `value` in base 8 with exactly `digits` digits, the most significant
/// first, padded with leading zeros. Where `value` needs more digits, these
/// are its last `digits` ones.
pub open spec fn octal_text(value: nat, digits: nat) -> Seq<u8>
    decreases digits,
{
    if digits == 0 {
        Seq::empty()
    } else {
        octal_text(value / 8, (digits - 1) as nat).push((48 + value % 8) as u8)
    }
}

/// Whether `text` is a number in base 8: at least one byte, and every byte
/// an octal digit.
pub open spec fn is_octal_text(text: Seq<u8>) -> bool {
    text.len() > 0 && forall|i: int| 0 <= i < text.len() ==> is_octal_digit(#[trigger] text[i])
}

/// The number that the octal digits of `text` denote.
pub open spec fn octal_value(text: Seq<u8>) -> nat
    decreases text.len(),
{
    if text.len() == 0 {
        0
    } else {
        8 * octal_value(text.drop_last()) + (text.last() - 48) as nat
    }
}

/// The powers of eight that bound the header's fields.
pub proof fn lemma_pow8_values()
    ensures
        pow8(0) == 1,
        pow8(6) == 0o1000000,
        pow8(7) == 0o10000000,
        pow8(8) == 0o100000000,
        pow8(11) == 0o100000000000,
        pow8(12) == 0o1000000000000,
{
    assert(pow8(0) == 1);
    assert(pow8(1) == 8);
    assert(pow8(2) == 64);
    assert(pow8(3) == 512);
    assert(pow8(4) == 4096);
    assert(pow8(5) == 32768);
    assert(pow8(6) == 262144);
    assert(pow8(7) == 2097152);
    assert(pow8(8) == 16777216);
    assert(pow8(9) == 134217728);
    assert(pow8(10) == 1073741824);
    assert(pow8(11) == 8589934592);
    assert(pow8(12) == 68719476736);
}

/// A larger exponent gives no smaller power.
pub proof fn lemma_pow8_increases(a: nat, b: nat)
    requires
        a <= b,
    ensures
        pow8(a) <= pow8(b),
        pow8(a) >= 1,
    decreases b,
{
    if a < b {
        lemma_pow8_increases(a, (b - 1) as nat);
    } else if a > 0 {
        lemma_pow8_increases((a - 1) as nat, (a - 1) as nat);
    }
}

/// Octal text of `digits` digits has that length and holds octal digits only.
pub proof fn lemma_octal_text_shape(value: nat, digits: nat)
    ensures
        octal_text(value, digits).len() == digits,
        forall|i: int| 0 <= i < digits ==> is_octal_digit(#[trigger] octal_text(value, digits)[i]),
    decreases digits,
{
    if digits > 0 {
        lemma_octal_text_shape(value / 8, (digits - 1) as nat);
    }
}

/// Reading back the octal text of a value that fits its digits gives the
/// value.
pub proof fn lemma_octal_round_trip(value: nat, digits: nat)
    requires
        value < pow8(digits),
    ensures
        octal_value(octal_text(value, digits)) == value,
    decreases digits,
{
    if digits > 0 {
        let rest = octal_text(value / 8, (digits - 1) as nat);
        lemma_octal_round_trip(value / 8, (digits - 1) as nat);
        assert(octal_text(value, digits).drop_last() =~= rest);
    }
}

/// A prefix of octal text denotes no more than the whole.
pub proof fn lemma_octal_value_prefix(text: Seq<u8>, k: int)
    requires
        0 <= k <= text.len(),
        forall|i: int| 0 <= i < text.len() ==> is_octal_digit(#[trigger] text[i]),
    ensures
        octal_value(text.take(k)) <= octal_value(text),
    decreases text.len() - k,
{
    if k < text.len() {
        lemma_octal_value_prefix(text.drop_last(), k);
        assert(text.drop_last().take(k) =~= text.take(k));
    } else {
        assert(text.take(k) =~= text);
    }
}

/// Appends to `out` the octal text of `value` in exactly `digits` digits.
pub fn push_octal(out: &mut Vec<u8>, value: u128, digits: usize)
    ensures
        final(out)@ == old(out)@ + octal_text(value as nat, digits as nat),
    decreases digits,
{
    if digits > 0 {
        push_octal(out, value / 8, (digits - 1) as usize);
        let digit: u8 = 48u8 + (value % 8) as u8;
        out.push(digit);
        assert(final(out)@ =~= old(out)@ + octal_text(value as nat, digits as nat));
    } else {
        assert(out@ =~= old(out)@ + octal_text(value as nat, digits as nat));
    }
}

/// Reads a number in base 8. `None` where `text` is empty, holds a byte
/// that is no octal digit, or denotes a number beyond `u128`.
pub fn parse_octal(text: &[u8]) -> (res: Option<u128>)
    ensures
        res == if is_octal_text(text@) && octal_value(text@) <= u128::MAX {
            Some(octal_value(text@) as u128)
        } else {
            None
        },
{
    if text.len() == 0 {
        return None;
    }
    let mut acc: u128 = 0;
    let mut i: usize = 0;
    while i < text.len()
        invariant
            0 <= i <= text.len(),
            forall|j: int| 0 <= j < i ==> is_octal_digit(#[trigger] text@[j]),
            acc as nat == octal_value(text@.take(i as int)),
        decreases text.len() - i,
    {
        let b: u8 = text[i];
        if b < 48 || b > 55 {
            return None;
        }
        let d: u128 = (b - 48) as u128;
        proof {
            assert(text@.take(i + 1).drop_last() =~= text@.take(i as int));
            if is_octal_text(text@) {
                lemma_octal_value_prefix(text@, i + 1);
            }
        }
        if acc > (u128::MAX - d) / 8 {
            return None;
        }
        acc = acc * 8 + d;
        i += 1;
    }
    proof {
        assert(text@.take(i as int) =~= text@);
    }
    Some(acc)
}

} // verus!
