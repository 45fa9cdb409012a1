//! Little-endian building blocks shared by the durable formats.

use vstd::bytes::*;
use vstd::prelude::*;
use vstd::utf8::*;

verus! {

/// Eight little-endian bytes.
pub open spec fn le64(value: u64) -> Seq<u8> {
    spec_u64_to_le_bytes(value)
}

/// Four little-endian bytes.
pub open spec fn le32(value: u32) -> Seq<u8> {
    spec_u32_to_le_bytes(value)
}

/// The number that eight bytes at `at` spell.
pub open spec fn u64_at(bytes: Seq<u8>, at: int) -> u64 {
    spec_u64_from_le_bytes(bytes.subrange(at, at + 8))
}

/// The number that four bytes at `at` spell.
pub open spec fn u32_at(bytes: Seq<u8>, at: int) -> u32 {
    spec_u32_from_le_bytes(bytes.subrange(at, at + 4))
}

/// `piece` stands in `bytes` at `at`.
pub open spec fn stands_at(bytes: Seq<u8>, at: int, piece: Seq<u8>) -> bool {
    &&& 0 <= at
    &&& at + piece.len() <= bytes.len()
    &&& bytes.subrange(at, at + piece.len()) == piece
}

pub proof fn stands_at_split(bytes: Seq<u8>, at: int, left: Seq<u8>, right: Seq<u8>)
    ensures
        stands_at(bytes, at, left + right) <==> stands_at(bytes, at, left) && stands_at(
            bytes,
            at + left.len(),
            right,
        ),
{
    if stands_at(bytes, at, left + right) {
        let whole = bytes.subrange(at, at + (left + right).len());
        assert(bytes.subrange(at, at + left.len()) =~= left) by {
            assert forall|k: int| 0 <= k < left.len() implies bytes.subrange(
                at,
                at + left.len(),
            )[k] == left[k] by {
                assert(whole[k] == (left + right)[k]);
            }
        }
        assert(bytes.subrange(at + left.len(), at + left.len() + right.len()) =~= right) by {
            assert forall|k: int| 0 <= k < right.len() implies bytes.subrange(
                at + left.len(),
                at + left.len() + right.len(),
            )[k] == right[k] by {
                assert(whole[left.len() + k] == (left + right)[left.len() + k]);
            }
        }
    }
    if stands_at(bytes, at, left) && stands_at(bytes, at + left.len(), right) {
        let first = bytes.subrange(at, at + left.len());
        let second = bytes.subrange(at + left.len(), at + left.len() + right.len());
        assert(bytes.subrange(at, at + (left + right).len()) =~= left + right) by {
            assert forall|k: int| 0 <= k < (left + right).len() implies bytes.subrange(
                at,
                at + (left + right).len(),
            )[k] == (left + right)[k] by {
                if k < left.len() {
                    assert(first[k] == left[k]);
                } else {
                    assert(second[k - left.len()] == right[k - left.len()]);
                }
            }
        }
    }
}

pub proof fn whole_stands(bytes: Seq<u8>)
    ensures
        stands_at(bytes, 0, bytes),
        bytes.take(bytes.len() as int) == bytes,
        bytes.subrange(0, bytes.len() as int) == bytes,
{
    assert(bytes.subrange(0, bytes.len() as int) =~= bytes);
}

pub proof fn concat_assoc<T>(a: Seq<T>, b: Seq<T>, c: Seq<T>)
    ensures
        a + (b + c) == (a + b) + c,
{
    assert(a + (b + c) =~= (a + b) + c);
}

pub proof fn concat_stands(before: Seq<u8>, piece: Seq<u8>, after: Seq<u8>)
    ensures
        stands_at(before + piece + after, before.len() as int, piece),
{
    assert((before + piece + after).subrange(before.len() as int, (before.len() + piece.len()) as int)
        =~= piece);
}

pub proof fn le64_facts(value: u64)
    ensures
        le64(value).len() == 8,
        spec_u64_from_le_bytes(le64(value)) == value,
{
    lemma_auto_spec_u64_to_from_le_bytes();
}

pub proof fn le32_facts(value: u32)
    ensures
        le32(value).len() == 4,
        spec_u32_from_le_bytes(le32(value)) == value,
{
    lemma_auto_spec_u32_to_from_le_bytes();
    assert(spec_u32_to_le_bytes(value).len() == 4);
}

/// A number stands at a position exactly when reading there gives it.
pub proof fn le64_stands(bytes: Seq<u8>, at: int, value: u64)
    ensures
        stands_at(bytes, at, le64(value)) <==> (0 <= at && at + 8 <= bytes.len() && u64_at(
            bytes,
            at,
        ) == value),
{
    lemma_auto_spec_u64_to_from_le_bytes();
    if 0 <= at && at + 8 <= bytes.len() {
        let piece = bytes.subrange(at, at + 8);
        assert(piece.len() == 8);
        assert(le64(spec_u64_from_le_bytes(piece)) == piece);
    }
}

/// A short number stands at a position exactly when reading there gives it.
pub proof fn le32_stands(bytes: Seq<u8>, at: int, value: u32)
    ensures
        stands_at(bytes, at, le32(value)) <==> (0 <= at && at + 4 <= bytes.len() && u32_at(
            bytes,
            at,
        ) == value),
{
    le32_facts(value);
    lemma_auto_spec_u32_to_from_le_bytes();
    if 0 <= at && at + 4 <= bytes.len() {
        let piece = bytes.subrange(at, at + 4);
        assert(piece.len() == 4);
        assert(le32(spec_u32_from_le_bytes(piece)) == piece);
    }
}

pub fn put_bytes(out: &mut Vec<u8>, bytes: &[u8])
    ensures
        final(out)@ == old(out)@ + bytes@,
{
    out.extend_from_slice(bytes);
    proof {
        assert(out@ =~= old(out)@ + bytes@);
    }
}

pub fn put_byte(out: &mut Vec<u8>, value: u8)
    ensures
        final(out)@ == old(out)@ + seq![value],
{
    out.push(value);
    proof {
        assert(out@ =~= old(out)@ + seq![value]);
    }
}

pub fn put_u64(out: &mut Vec<u8>, value: u64)
    ensures
        final(out)@ == old(out)@ + le64(value),
{
    let mut piece = u64_to_le_bytes(value);
    out.append(&mut piece);
}

pub fn put_u32(out: &mut Vec<u8>, value: u32)
    ensures
        final(out)@ == old(out)@ + le32(value),
{
    let mut piece = u32_to_le_bytes(value);
    out.append(&mut piece);
}

/// Reads eight bytes that are known to be there.
pub fn fixed_u64(bytes: &[u8], at: usize) -> (result: u64)
    requires
        at + 8 <= bytes.len(),
    ensures
        result == u64_at(bytes@, at as int),
{
    u64_from_le_bytes(vstd::slice::slice_subrange(bytes, at, at + 8))
}

/// Reads four bytes that are known to be there.
pub fn fixed_u32(bytes: &[u8], at: usize) -> (result: u32)
    requires
        at + 4 <= bytes.len(),
    ensures
        result == u32_at(bytes@, at as int),
{
    u32_from_le_bytes(vstd::slice::slice_subrange(bytes, at, at + 4))
}

/// What the standard library says of bytes that are not UTF-8.
pub uninterp spec fn utf8_error_text(bytes: Seq<u8>) -> Seq<char>;

/// `core::str::from_utf8`: text exactly when the bytes are valid UTF-8, and that text; otherwise
/// the message of its error, which depends on the bytes alone.
#[verifier::external_body]
pub(crate) fn text_from_utf8(bytes: &[u8]) -> (result: Result<String, String>)
    ensures
        match result {
            Ok(text) => valid_utf8(bytes@) && text@ == decode_utf8(bytes@),
            Err(message) => !valid_utf8(bytes@) && message@ == utf8_error_text(bytes@),
        },
{
    match core::str::from_utf8(bytes) {
        Ok(text) => Ok(text.to_owned()),
        Err(error) => Err(error.to_string()),
    }
}

pub proof fn utf8_round_trip(text: Seq<char>)
    ensures
        valid_utf8(encode_utf8(text)),
        decode_utf8(encode_utf8(text)) == text,
{
    encode_utf8_valid_utf8(text);
    encode_utf8_decode_utf8(text);
}

} // verus!
