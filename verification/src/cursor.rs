//! Reading values one after the other, with a message where the bytes end too soon.

use crate::payload::byte_stands;
use crate::wire::{
    fixed_u32, fixed_u64, le32, le32_facts, le32_stands, le64, le64_facts, le64_stands, put_bytes,
    put_u32, stands_at, stands_at_split, text_from_utf8, u32_at, u64_at, utf8_error_text,
    utf8_round_trip,
};
use vstd::prelude::*;
use vstd::string::*;
use vstd::utf8::*;

verus! {

/// A value and the position behind it, or a message.
pub type Taken<T> = Result<(T, int), Seq<char>>;

/// A taken value and the position behind it agree with what the bytes hold.
pub open spec fn takes<T: View>(
    result: Result<(T, usize), String>,
    expected: Taken<T::V>,
    bytes: Seq<u8>,
) -> bool {
    match (result, expected) {
        (Ok((value, next)), Ok((model, end))) => value@ == model && next == end && next
            <= bytes.len(),
        (Err(message), Err(model)) => message@ == model,
        _ => false,
    }
}

/// What is said where the bytes end too soon.
pub open spec fn end_text() -> Seq<char> {
    "failed to fill whole buffer"@
}

pub open spec fn taken_u8(bytes: Seq<u8>, at: int) -> Taken<u8> {
    if at < bytes.len() {
        Ok((bytes[at], at + 1))
    } else {
        Err(end_text())
    }
}

pub open spec fn taken_u32(bytes: Seq<u8>, at: int) -> Taken<u32> {
    if at + 4 <= bytes.len() {
        Ok((u32_at(bytes, at), at + 4))
    } else {
        Err(end_text())
    }
}

pub open spec fn taken_u64(bytes: Seq<u8>, at: int) -> Taken<u64> {
    if at + 8 <= bytes.len() {
        Ok((u64_at(bytes, at), at + 8))
    } else {
        Err(end_text())
    }
}

/// A four-byte length, then that many bytes of UTF-8.
pub open spec fn taken_text(
    bytes: Seq<u8>,
    at: int,
    overflow: Seq<char>,
    truncated: Seq<char>,
) -> Taken<Seq<char>> {
    match taken_u32(bytes, at) {
        Err(message) => Err(message),
        Ok((length, start)) => if start + length > usize::MAX {
            Err(overflow)
        } else if start + length > bytes.len() {
            Err(truncated)
        } else {
            let piece = bytes.subrange(start, start + length);
            if valid_utf8(piece) {
                Ok((decode_utf8(piece), start + length))
            } else {
                Err(utf8_error_text(piece))
            }
        },
    }
}

/// A string with a four-byte length in front.
pub open spec fn text32(text: Seq<char>) -> Seq<u8> {
    le32(encode_utf8(text).len() as u32) + encode_utf8(text)
}

/// A string is short enough for a four-byte length.
pub open spec fn short(text: Seq<char>) -> bool {
    encode_utf8(text).len() <= u32::MAX
}

pub proof fn u8_stands(bytes: Seq<u8>, at: int, value: u8, end: int)
    requires
        0 <= at,
    ensures
        taken_u8(bytes, at) == Ok::<(u8, int), Seq<char>>((value, end)) <==> (stands_at(
            bytes,
            at,
            seq![value],
        ) && end == at + 1),
{
    byte_stands(bytes, at, value);
}

pub proof fn u32_stands(bytes: Seq<u8>, at: int, value: u32, end: int)
    requires
        0 <= at,
    ensures
        taken_u32(bytes, at) == Ok::<(u32, int), Seq<char>>((value, end)) <==> (stands_at(
            bytes,
            at,
            le32(value),
        ) && end == at + 4),
        le32(value).len() == 4,
{
    le32_stands(bytes, at, value);
    le32_facts(value);
}

pub proof fn u64_stands(bytes: Seq<u8>, at: int, value: u64, end: int)
    requires
        0 <= at,
    ensures
        taken_u64(bytes, at) == Ok::<(u64, int), Seq<char>>((value, end)) <==> (stands_at(
            bytes,
            at,
            le64(value),
        ) && end == at + 8),
        le64(value).len() == 8,
{
    le64_stands(bytes, at, value);
    le64_facts(value);
}

/// Where a short string's bytes stand it is taken; and what is taken is short and stands there.
pub proof fn text32_stands(
    bytes: Seq<u8>,
    at: int,
    text: Seq<char>,
    end: int,
    overflow: Seq<char>,
    truncated: Seq<char>,
)
    requires
        0 <= at,
        bytes.len() <= usize::MAX,
    ensures
        taken_text(bytes, at, overflow, truncated) == Ok::<(Seq<char>, int), Seq<char>>(
            (text, end),
        ) <==> (short(text) && stands_at(bytes, at, text32(text)) && end == at + text32(
            text,
        ).len()),
{
    let body = encode_utf8(text);
    le32_facts(body.len() as u32);
    stands_at_split(bytes, at, le32(body.len() as u32), body);
    le32_stands(bytes, at, body.len() as u32);
    utf8_round_trip(text);
    if taken_text(bytes, at, overflow, truncated) == Ok::<(Seq<char>, int), Seq<char>>(
        (text, end),
    ) {
        let length = u32_at(bytes, at);
        let piece = bytes.subrange(at + 4, at + 4 + length);
        decode_utf8_encode_utf8(piece);
        assert(piece == body);
    }
}

pub fn take_u8(bytes: &[u8], at: usize) -> (result: Result<(u8, usize), String>)
    requires
        at <= bytes.len(),
    ensures
        takes(result, taken_u8(bytes@, at as int), bytes@),
        result matches Ok((_, next)) ==> at < next,
{
    if at < bytes.len() {
        Ok((bytes[at], at + 1))
    } else {
        Err("failed to fill whole buffer".to_owned())
    }
}

pub fn take_u32(bytes: &[u8], at: usize) -> (result: Result<(u32, usize), String>)
    requires
        at <= bytes.len(),
    ensures
        takes(result, taken_u32(bytes@, at as int), bytes@),
        result matches Ok((_, next)) ==> at < next,
{
    if bytes.len() - at >= 4 {
        Ok((fixed_u32(bytes, at), at + 4))
    } else {
        Err("failed to fill whole buffer".to_owned())
    }
}

pub fn take_u64(bytes: &[u8], at: usize) -> (result: Result<(u64, usize), String>)
    requires
        at <= bytes.len(),
    ensures
        takes(result, taken_u64(bytes@, at as int), bytes@),
        result matches Ok((_, next)) ==> at < next,
{
    if bytes.len() - at >= 8 {
        Ok((fixed_u64(bytes, at), at + 8))
    } else {
        Err("failed to fill whole buffer".to_owned())
    }
}

pub fn take_text(bytes: &[u8], at: usize, overflow: &str, truncated: &str) -> (result: Result<
    (String, usize),
    String,
>)
    requires
        at <= bytes.len(),
    ensures
        takes(result, taken_text(bytes@, at as int, overflow@, truncated@), bytes@),
        result matches Ok((_, next)) ==> at < next,
{
    let (length, start) = take_u32(bytes, at)?;
    let length: usize = length as usize;
    if length > usize::MAX - start {
        return Err(overflow.to_owned());
    }
    if length > bytes.len() - start {
        return Err(truncated.to_owned());
    }
    match text_from_utf8(vstd::slice::slice_subrange(bytes, start, start + length)) {
        Ok(text) => Ok((text, start + length)),
        Err(message) => Err(message),
    }
}

pub fn put_text32(out: &mut Vec<u8>, text: &str)
    ensures
        final(out)@ == old(out)@ + text32(text@),
{
    let bytes = text.as_bytes();
    put_u32(out, bytes.len() as u32);
    put_bytes(out, bytes);
    proof {
        assert(out@ =~= old(out)@ + text32(text@));
    }
}

} // verus!
