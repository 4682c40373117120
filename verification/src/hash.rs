//! Key hashing: string hashing, seeded mixing, seed generation and the
//! fingerprints stored by the checked map.
use vstd::prelude::*;
use vstd::string::StringSliceAdditionalSpecFns;

verus! {

/// Offset basis of the 64-bit FNV-1a string hash.
pub const FNV_OFFSET: u64 = 0xcbf2_9ce4_8422_2325;

/// Prime of the 64-bit FNV-1a string hash.
pub const FNV_PRIME: u64 = 0x0000_0100_0000_01b3;

/// Increment of the splitmix64 counter.
pub const SPLITMIX_GAMMA: u64 = 0x9e37_79b9_7f4a_7c15;

/// FNV-1a over a byte sequence, folding from the first byte to the last.
pub open spec fn spec_hash_bytes(bytes: Seq<u8>) -> u64
    decreases bytes.len(),
{
    if bytes.len() == 0 {
        FNV_OFFSET
    } else {
        (spec_hash_bytes(bytes.drop_last()) ^ (bytes.last() as u64)).wrapping_mul(FNV_PRIME)
    }
}

/// The hash of a key: FNV-1a over its UTF-8 encoding.
pub open spec fn spec_hash_key(key: &str) -> u64 {
    spec_hash_bytes(key.spec_bytes())
}

/// The murmur3 64-bit finalizer.
#[verifier::opaque]
pub open spec fn spec_murmur64(h: u64) -> u64 {
    let h = h ^ (h >> 33u64);
    let h = h.wrapping_mul(0xff51_afd7_ed55_8ccd);
    let h = h ^ (h >> 33u64);
    let h = h.wrapping_mul(0xc4ce_b9fe_1a85_ec53);
    h ^ (h >> 33u64)
}

/// A key hash mixed with a seed: the finalizer applied to their wrapping sum.
pub open spec fn spec_mixsplit(key: u64, seed: u64) -> u64 {
    spec_murmur64(key.wrapping_add(seed))
}

/// The value that splitmix64 outputs for a counter that has already been advanced.
#[verifier::opaque]
pub open spec fn spec_splitmix_output(z: u64) -> u64 {
    let z = (z ^ (z >> 30u64)).wrapping_mul(0xbf58_476d_1ce4_e5b9);
    let z = (z ^ (z >> 27u64)).wrapping_mul(0x94d0_49bb_1331_11eb);
    z ^ (z >> 31u64)
}

/// The fingerprint that the checked map stores for a mixed hash.
pub open spec fn spec_fingerprint(hash: u64) -> u64 {
    hash ^ (hash >> 32u64)
}

/// The key hash is 64-bit FNV-1a over every byte of the key's UTF-8
/// encoding, in order and exactly as written: a key with no bytes hashes to
/// the offset basis 0xcbf29ce484222325, and appending a byte `b` to a key
/// exclusive-ors `b` into its hash and multiplies by the prime 0x100000001b3
/// modulo 2^64. So keys that differ in any byte, at any position or in
/// letter case, are hashed by that rule, whatever their length.
pub proof fn lemma_hash_key_is_fnv1a(k: &str, longer: &str, b: u8)
    ensures
        k.spec_bytes().len() == 0 ==> spec_hash_key(k) == 0xcbf2_9ce4_8422_2325u64,
        longer.spec_bytes() == k.spec_bytes().push(b) ==> spec_hash_key(longer) as int
            == ((spec_hash_key(k) ^ (b as u64)) as int * 0x100_0000_01b3) % 0x1_0000_0000_0000_0000,
{
    if longer.spec_bytes() == k.spec_bytes().push(b) {
        let bs = longer.spec_bytes();
        assert(bs.drop_last() =~= k.spec_bytes());
        assert(bs.last() == b);
    }
}

/// Hashes the UTF-8 bytes of `key` with FNV-1a.
pub fn hash_key(key: &str) -> (h: u64)
    ensures
        h == spec_hash_key(key),
{
    let bytes = key.as_bytes();
    let mut h: u64 = FNV_OFFSET;
    let mut i: usize = 0;
    while i < bytes.len()
        invariant
            i <= bytes@.len(),
            bytes@ == key.spec_bytes(),
            h == spec_hash_bytes(bytes@.take(i as int)),
        decreases bytes@.len() - i,
    {
        proof {
            assert(bytes@.take(i + 1).drop_last() =~= bytes@.take(i as int));
        }
        h = (h ^ (bytes[i] as u64)).wrapping_mul(FNV_PRIME);
        i = i + 1;
    }
    proof {
        assert(bytes@.take(i as int) =~= bytes@);
    }
    h
}

/// Applies the murmur3 64-bit finalizer.
pub fn murmur64(h: u64) -> (r: u64)
    ensures
        r == spec_murmur64(h),
{
    reveal(spec_murmur64);
    let h = h ^ (h >> 33u64);
    let h = h.wrapping_mul(0xff51_afd7_ed55_8ccd);
    let h = h ^ (h >> 33u64);
    let h = h.wrapping_mul(0xc4ce_b9fe_1a85_ec53);
    h ^ (h >> 33u64)
}

/// Mixes a key hash with a seed.
pub fn mixsplit(key: u64, seed: u64) -> (r: u64)
    ensures
        r == spec_mixsplit(key, seed),
{
    murmur64(key.wrapping_add(seed))
}

/// Advances the splitmix64 counter and returns its next output.
pub fn splitmix64(counter: &mut u64) -> (r: u64)
    ensures
        *final(counter) == old(counter).wrapping_add(SPLITMIX_GAMMA),
        r == spec_splitmix_output(*final(counter)),
{
    reveal(spec_splitmix_output);
    *counter = counter.wrapping_add(SPLITMIX_GAMMA);
    let z = *counter;
    let z = (z ^ (z >> 30u64)).wrapping_mul(0xbf58_476d_1ce4_e5b9);
    let z = (z ^ (z >> 27u64)).wrapping_mul(0x94d0_49bb_1331_11eb);
    z ^ (z >> 31u64)
}

/// The fingerprint stored for a mixed hash.
pub fn fingerprint(hash: u64) -> (r: u64)
    ensures
        r == spec_fingerprint(hash),
{
    hash ^ (hash >> 32u64)
}

} // verus!
