//! Which shard an intent belongs to.
//!
//! The shard is the 64-bit FNV-1a hash of the identifier's bytes, modulo the
//! number of shards: a function of the identifier alone, the same in every
//! process.

use vstd::prelude::*;
use vstd::string::StringSliceAdditionalSpecFns;
use vstd::utf8::encode_utf8;

verus! {

/// The FNV-1a offset basis for 64 bits.
pub const FNV_OFFSET_BASIS: u64 = 0xcbf2_9ce4_8422_2325;

/// The FNV-1a prime for 64 bits.
pub const FNV_PRIME: u64 = 0x0000_0100_0000_01b3;

/// One step of the hash: the byte is mixed in by exclusive or, then the
/// state is multiplied by the prime, modulo 2^64.
pub open spec fn fnv1a_step(h: u64, byte: u8) -> u64 {
    (((h ^ (byte as u64)) as int * FNV_PRIME as int) % 0x1_0000_0000_0000_0000) as u64
}

/// The FNV-1a hash of `bytes`.
pub open spec fn fnv1a(bytes: Seq<u8>) -> u64
    decreases bytes.len(),
{
    if bytes.len() == 0 {
        FNV_OFFSET_BASIS
    } else {
        fnv1a_step(fnv1a(bytes.drop_last()), bytes.last())
    }
}

/// The shard of the identifier `id` among `shard_count` shards.
pub open spec fn shard_of(id: Seq<char>, shard_count: int) -> int {
    if shard_count <= 1 {
        0
    } else {
        fnv1a(encode_utf8(id)) as int % shard_count
    }
}

/// The FNV-1a hash of the bytes of `s`.
pub fn fnv1a_u64(s: &str) -> (h: u64)
    ensures
        h == fnv1a(encode_utf8(s@)),
{
    let b = s.as_bytes();
    let mut h: u64 = FNV_OFFSET_BASIS;
    let mut i: usize = 0;
    while i < b.len()
        invariant
            i <= b@.len(),
            h == fnv1a(b@.take(i as int)),
        decreases b.len() - i,
    {
        proof {
            assert(b@.take(i + 1).drop_last() =~= b@.take(i as int));
            assert(b@.take(i + 1).last() == b@[i as int]);
        }
        h = (h ^ (b[i] as u64)).wrapping_mul(FNV_PRIME);
        i += 1;
    }
    assert(b@.take(b@.len() as int) =~= b@);
    h
}

/// The shard of `intent_id` among `shard_count` shards.
pub fn shard_index(intent_id: &str, shard_count: usize) -> (r: usize)
    ensures
        r == shard_of(intent_id@, shard_count as int),
        shard_count >= 1 ==> r < shard_count,
        shard_count <= 1 ==> r == 0,
{
    if shard_count <= 1 {
        return 0;
    }
    let h = fnv1a_u64(intent_id);
    (h % (shard_count as u64)) as usize
}

/// With one shard every intent is in shard 0, and with any number of shards
/// the shard is a valid index.
pub proof fn lemma_shard_in_range(id: Seq<char>, shard_count: int)
    requires
        shard_count >= 1,
    ensures
        0 <= shard_of(id, shard_count) < shard_count,
        shard_count == 1 ==> shard_of(id, shard_count) == 0,
{
}

} // verus!
