//! The hash capability: a deterministic function from bytes to a fixed-width digest.
//!
//! Two strategies are provided, both built on XXH3-64: an unseeded default and a
//! seeded variant for domain separation between independent trees.

use vstd::prelude::*;

verus! {

/// Width of a digest in bytes.
pub const HASH_SIZE: usize = 8;

/// A fixed-width digest.
pub type HashBuff = [u8; HASH_SIZE];

/// The 64-bit value that `xxhash_rust::xxh3::xxh3_64` computes for `data`.
pub uninterp spec fn xxh3_64_value(data: Seq<u8>) -> u64;

/// The 64-bit value that `xxhash_rust::xxh3::xxh3_64_with_seed` computes for `data`
/// under `seed`.
pub uninterp spec fn xxh3_64_seeded_value(data: Seq<u8>, seed: u64) -> u64;

/// `xxhash_rust::xxh3::xxh3_64` is a pure function of its input bytes: it reads
/// nothing else, never panics, and returns the same value for the same bytes.
/// Nothing is claimed about which value that is.
pub assume_specification[ xxhash_rust::xxh3::xxh3_64 ](input: &[u8]) -> (value: u64)
    ensures
        value == xxh3_64_value(input@),
;

/// `xxhash_rust::xxh3::xxh3_64_with_seed` is a pure function of its input bytes
/// and the seed: it never panics and returns the same value for the same pair.
/// Nothing is claimed about which value that is.
pub assume_specification[ xxhash_rust::xxh3::xxh3_64_with_seed ](input: &[u8], seed: u64) -> (value: u64)
    ensures
        value == xxh3_64_seeded_value(input@, seed),
;

/// The eight bytes of `x`, most significant first.
pub open spec fn be_bytes(x: u64) -> Seq<u8> {
    seq![
        (x / 0x100_0000_0000_0000) as u8,
        (x / 0x1_0000_0000_0000 % 0x100) as u8,
        (x / 0x100_0000_0000 % 0x100) as u8,
        (x / 0x1_0000_0000 % 0x100) as u8,
        (x / 0x100_0000 % 0x100) as u8,
        (x / 0x1_0000 % 0x100) as u8,
        (x / 0x100 % 0x100) as u8,
        (x % 0x100) as u8,
    ]
}

/// The number that eight bytes spell when read most significant first.
pub open spec fn be_value(bytes: Seq<u8>) -> int
    recommends
        bytes.len() == 8,
{
    bytes[0] * 0x100_0000_0000_0000 + bytes[1] * 0x1_0000_0000_0000 + bytes[2] * 0x100_0000_0000
        + bytes[3] * 0x1_0000_0000 + bytes[4] * 0x100_0000 + bytes[5] * 0x1_0000 + bytes[6] * 0x100
        + bytes[7]
}

/// Reading the big-endian bytes of `x` back gives `x`: distinct values have
/// distinct digests.
pub proof fn lemma_be_bytes_round_trip(x: u64)
    ensures
        be_bytes(x).len() == HASH_SIZE,
        be_value(be_bytes(x)) == x,
{
    let q1 = x as int / 0x100;
    let q2 = q1 / 0x100;
    let q3 = q2 / 0x100;
    let q4 = q3 / 0x100;
    let q5 = q4 / 0x100;
    let q6 = q5 / 0x100;
    let q7 = q6 / 0x100;
    assert(q2 == x as int / 0x1_0000);
    assert(q3 == x as int / 0x100_0000);
    assert(q4 == x as int / 0x1_0000_0000);
    assert(q5 == x as int / 0x100_0000_0000);
    assert(q6 == x as int / 0x1_0000_0000_0000);
    assert(q7 == x as int / 0x100_0000_0000_0000);
    assert(q7 < 0x100);
    let s = be_bytes(x);
    assert(s[7] as int == x as int % 0x100);
    assert(s[6] as int == q1 % 0x100);
    assert(s[5] as int == q2 % 0x100);
    assert(s[4] as int == q3 % 0x100);
    assert(s[3] as int == q4 % 0x100);
    assert(s[2] as int == q5 % 0x100);
    assert(s[1] as int == q6 % 0x100);
    assert(s[0] as int == q7);
}

/// Lays a 64-bit hash value out as a digest, most significant byte first.
pub fn digest_from_u64(x: u64) -> (out: HashBuff)
    ensures
        out@ == be_bytes(x),
{
    let out: HashBuff = [
        (x / 0x100_0000_0000_0000) as u8,
        (x / 0x1_0000_0000_0000 % 0x100) as u8,
        (x / 0x100_0000_0000 % 0x100) as u8,
        (x / 0x1_0000_0000 % 0x100) as u8,
        (x / 0x100_0000 % 0x100) as u8,
        (x / 0x1_0000 % 0x100) as u8,
        (x / 0x100 % 0x100) as u8,
        (x % 0x100) as u8,
    ];
    assert(out@ =~= be_bytes(x));
    out
}

/// Whether two digests hold the same bytes.
pub fn digest_eq(a: &HashBuff, b: &HashBuff) -> (same: bool)
    ensures
        same == (a@ == b@),
{
    let mut i: usize = 0;
    while i < HASH_SIZE
        invariant
            0 <= i <= HASH_SIZE,
            forall|j: int| 0 <= j < i ==> a@[j] == b@[j],
        decreases HASH_SIZE - i,
    {
        if a[i] != b[i] {
            return false;
        }
        i += 1;
    }
    assert(a@ =~= b@);
    true
}

/// A hashing strategy.
#[derive(Debug, Clone, Copy, PartialEq, Eq, Structural)]
pub enum Hasher {
    /// XXH3-64 without a seed.
    Unseeded,
    /// XXH3-64 parameterised by a seed.
    Seeded(u64),
}

impl Hasher {
    /// The digest this strategy assigns to `data`.
    pub open spec fn digest(self, data: Seq<u8>) -> Seq<u8> {
        match self {
            Hasher::Unseeded => be_bytes(xxh3_64_value(data)),
            Hasher::Seeded(seed) => be_bytes(xxh3_64_seeded_value(data, seed)),
        }
    }

    /// Hashes `data` to a digest.
    pub fn hash(&self, data: &[u8]) -> (out: HashBuff)
        ensures
            out@ == self.digest(data@),
    {
        match self {
            Hasher::Unseeded => digest_from_u64(xxhash_rust::xxh3::xxh3_64(data)),
            Hasher::Seeded(seed) => digest_from_u64(
                xxhash_rust::xxh3::xxh3_64_with_seed(data, *seed),
            ),
        }
    }
}

/// Every digest is `HASH_SIZE` bytes long.
pub proof fn lemma_digest_len(hasher: Hasher, data: Seq<u8>)
    ensures
        hasher.digest(data).len() == HASH_SIZE,
{
}

/// The unseeded strategy.
pub fn default_hasher() -> (hasher: Hasher)
    ensures
        hasher == Hasher::Unseeded,
{
    Hasher::Unseeded
}

/// The seeded strategy for `seed`.
pub fn default_hasher_with_seed(seed: u64) -> (hasher: Hasher)
    ensures
        hasher == Hasher::Seeded(seed),
{
    Hasher::Seeded(seed)
}

} // verus!
