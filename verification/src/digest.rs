//! The checksum of logs, journals and snapshots.

use vstd::prelude::*;

verus! {

/// Initial state of the 64-bit FNV-1a hash.
pub const FNV_OFFSET: u64 = 0xcbf29ce484222325;

/// Multiplier of the 64-bit FNV-1a hash.
pub const FNV_PRIME: u64 = 0x100000001b3;

/// One FNV-1a step: mix in a byte, then multiply modulo 2^64.
pub open spec fn fnv_step(state: u64, byte: u8) -> u64 {
    (((state ^ (byte as u64)) as int * FNV_PRIME as int) % 0x1_0000_0000_0000_0000) as u64
}

/// The FNV-1a state after `bytes`, starting from `state`.
pub open spec fn fnv_from(state: u64, bytes: Seq<u8>) -> u64
    decreases bytes.len(),
{
    if bytes.len() == 0 {
        state
    } else {
        fnv_step(fnv_from(state, bytes.drop_last()), bytes.last())
    }
}

/// The 64-bit FNV-1a hash of `bytes`.
pub open spec fn fnv(bytes: Seq<u8>) -> u64 {
    fnv_from(FNV_OFFSET, bytes)
}

/// Hashing two pieces one after the other is hashing their concatenation.
pub proof fn fnv_from_concat(state: u64, left: Seq<u8>, right: Seq<u8>)
    ensures
        fnv_from(fnv_from(state, left), right) == fnv_from(state, left + right),
    decreases right.len(),
{
    if right.len() == 0 {
        assert(left + right =~= left);
    } else {
        fnv_from_concat(state, left, right.drop_last());
        assert((left + right).drop_last() =~= left + right.drop_last());
        assert((left + right).last() == right.last());
    }
}

/// Continues a hash from `state` over `bytes`.
pub fn digest_extend(state: u64, bytes: &[u8]) -> (result: u64)
    ensures
        result == fnv_from(state, bytes@),
{
    let mut value: u64 = state;
    let mut index: usize = 0;
    while index < bytes.len()
        invariant
            index <= bytes.len(),
            value == fnv_from(state, bytes@.take(index as int)),
        decreases bytes.len() - index,
    {
        let mixed: u64 = value ^ (bytes[index] as u64);
        value = mixed.wrapping_mul(FNV_PRIME);
        index += 1;
        proof {
            assert(bytes@.take(index as int).drop_last() =~= bytes@.take(index - 1));
        }
    }
    proof {
        assert(bytes@.take(index as int) =~= bytes@);
    }
    value
}

/// The checksum of a byte string.
pub fn digest(bytes: &[u8]) -> (result: u64)
    ensures
        result == fnv(bytes@),
{
    digest_extend(FNV_OFFSET, bytes)
}

} // verus!
