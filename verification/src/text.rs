//! Numbers in text.

use vstd::prelude::*;
use vstd::string::*;

verus! {

/// The ASCII character of a digit below sixteen, in lower case.
pub open spec fn digit_char(value: int) -> char {
    if value < 10 {
        (('0' as u8) + value) as u8 as char
    } else {
        (('a' as u8) + (value - 10)) as u8 as char
    }
}

/// Decimal digits of `value`, without leading zeros.
pub open spec fn decimal(value: nat) -> Seq<char>
    decreases value,
{
    if value < 10 {
        seq![digit_char(value as int)]
    } else {
        decimal(value / 10).push(digit_char((value % 10) as int))
    }
}

/// The low `width` hexadecimal digits of `value`, most significant first.
pub open spec fn hex_digits(value: nat, width: nat) -> Seq<char>
    decreases width,
{
    if width == 0 {
        Seq::empty()
    } else {
        hex_digits(value / 16, (width - 1) as nat).push(digit_char((value % 16) as int))
    }
}

/// `String::push`: appends one character.
pub assume_specification[ String::push ](text: &mut String, ch: char)
    ensures
        final(text)@ == old(text)@.push(ch),
;

fn digit(value: u8) -> (result: char)
    requires
        value < 16,
    ensures
        result == digit_char(value as int),
{
    if value < 10 {
        (48 + value) as char
    } else {
        (97 + (value - 10)) as char
    }
}

/// Appends the decimal digits of `value`.
pub fn push_decimal(out: &mut String, value: u64)
    ensures
        final(out)@ == old(out)@ + decimal(value as nat),
    decreases value,
{
    if value >= 10 {
        push_decimal(out, value / 10);
    }
    out.push(digit((value % 10) as u8));
    proof {
        assert(out@ =~= old(out)@ + decimal(value as nat));
    }
}

/// Appends the low `width` hexadecimal digits of `value`.
pub fn push_hex(out: &mut String, value: u64, width: u32)
    ensures
        final(out)@ == old(out)@ + hex_digits(value as nat, width as nat),
    decreases width,
{
    if width == 0 {
        proof {
            assert(out@ =~= old(out)@ + hex_digits(value as nat, width as nat));
        }
        return;
    }
    push_hex(out, value / 16, width - 1);
    out.push(digit((value % 16) as u8));
    proof {
        assert(out@ =~= old(out)@ + hex_digits(value as nat, width as nat));
    }
}

/// A literal followed by a number, such as `"unknown tag 7"`.
pub fn labelled(label: &str, value: u64) -> (result: String)
    ensures
        result@ == label@ + decimal(value as nat),
{
    let mut out = label.to_owned();
    push_decimal(&mut out, value);
    out
}

/// Two pieces of text joined.
pub fn joined(left: &str, right: &str) -> (result: String)
    ensures
        result@ == left@ + right@,
{
    let mut out = left.to_owned();
    out.append(right);
    out
}

} // verus!
