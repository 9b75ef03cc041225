//! The key of an identifier: 64-bit FNV-1a over its UTF-8 bytes.

use vstd::prelude::*;
use vstd::string::*;

verus! {

/// Starting value of the FNV-1a hash.
pub const FNV_OFFSET_BASIS: u64 = 0xcbf2_9ce4_8422_2325;

/// Multiplier of the FNV-1a hash.
pub const FNV_PRIME: u64 = 0x0000_0100_0000_01b3;

/// One FNV-1a round: mix in a byte, then multiply modulo 2^64.
pub open spec fn fnv1a_step(state: u64, byte: u8) -> u64 {
    (((state ^ (byte as u64)) as int * FNV_PRIME as int) % 0x1_0000_0000_0000_0000) as u64
}

/// FNV-1a of a byte sequence, folded from the left.
pub open spec fn fnv1a(bytes: Seq<u8>) -> u64
    decreases bytes.len(),
{
    if bytes.len() == 0 {
        FNV_OFFSET_BASIS
    } else {
        fnv1a_step(fnv1a(bytes.drop_last()), bytes.last())
    }
}

/// The key that stands for an identifier.
pub open spec fn key_of(id: Seq<char>) -> u64 {
    fnv1a(vstd::utf8::encode_utf8(id))
}

/// Computes the key of `id`. The same identifier always gives the same key;
/// distinct identifiers may share one.
pub fn hash(id: &str) -> (key: u64)
    ensures
        key == key_of(id@),
        vstd::utf8::encode_utf8(id@).len() <= usize::MAX,
{
    let bytes = id.as_bytes();
    let mut state: u64 = FNV_OFFSET_BASIS;
    let mut i: usize = 0;
    while i < bytes.len()
        invariant
            i <= bytes.len(),
            state == fnv1a(bytes@.take(i as int)),
        decreases bytes.len() - i,
    {
        let mixed: u64 = state ^ (bytes[i] as u64);
        proof {
            assert(bytes@.take(i + 1).drop_last() =~= bytes@.take(i as int));
            assert(bytes@.take(i + 1).last() == bytes@[i as int]);
        }
        state = mixed.wrapping_mul(FNV_PRIME);
        i += 1;
    }
    proof {
        assert(bytes@.take(i as int) =~= bytes@);
    }
    state
}

} // verus!
