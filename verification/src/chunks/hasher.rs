//! A hasher for keys whose bits are spread evenly already.

use std::collections::hash_map::DefaultHasher;
use std::hash::{BuildHasher, Hasher};
use vstd::bytes::{
    spec_u64_from_le_bytes, spec_u64_to_le_bytes, u64_from_le_bytes, u64_to_le_bytes,
};
use vstd::prelude::*;
use vstd::std_specs::hash::DefaultHasherAdditionalSpecFns;

verus! {

/// The odd constant that keys of eight bytes are multiplied by.
pub const SCRAMBLE: u64 = 0x9E37_79B9_7F4A_7C15;

/// Hashes keys of eight bytes after a multiplication, keys of 32 bytes after
/// a permutation of their bytes, and everything else as it is.
pub struct RandomizingHasher {
    base_hasher: DefaultHasher,
}

/// The bytes of `bytes` in the order in which a key of 32 bytes is hashed:
/// byte `i` of the result is byte `(i * 13) % 32` of the key.
pub open spec fn permuted(bytes: Seq<u8>) -> Seq<u8> {
    Seq::new(32, |i: int| bytes[(i * 13) % 32])
}

/// The number that the eight bytes `bytes` spell in little-endian order,
/// multiplied by `SCRAMBLE` modulo 2^64, as eight bytes in the same order.
pub open spec fn scrambled(bytes: Seq<u8>) -> Seq<u8> {
    spec_u64_to_le_bytes(spec_u64_from_le_bytes(bytes).wrapping_mul(SCRAMBLE))
}

/// What the underlying hasher is fed for `bytes`.
pub open spec fn mixed(bytes: Seq<u8>) -> Seq<u8> {
    if bytes.len() == 8 {
        scrambled(bytes)
    } else if bytes.len() == 32 {
        permuted(bytes)
    } else {
        bytes
    }
}

impl RandomizingHasher {
    /// What has been fed to the underlying hasher so far.
    pub closed spec fn fed(&self) -> Seq<Seq<u8>> {
        self.base_hasher@
    }
}

impl Hasher for RandomizingHasher {
    fn finish(&self) -> (hash: u64)
        ensures
            hash == DefaultHasher::spec_finish(self.fed()),
    {
        self.base_hasher.finish()
    }

    fn write(&mut self, bytes: &[u8])
        ensures
            final(self).fed() == old(self).fed().push(mixed(bytes@)),
    {
        if bytes.len() == 8 {
            let id = u64_from_le_bytes(bytes);
            let randomized = u64_to_le_bytes(id.wrapping_mul(SCRAMBLE));
            self.base_hasher.write(randomized.as_slice());
        } else if bytes.len() == 32 {
            let mut mixed: [u8; 32] = [0;32];
            let mut i: usize = 0;
            while i < 32
                invariant
                    i <= 32,
                    bytes@.len() == 32,
                    forall|j: int| 0 <= j < i ==> mixed@[j] == bytes@[(j * 13) % 32],
                decreases 32 - i,
            {
                mixed[i] = bytes[(i * 13) % 32];
                i = i + 1;
            }
            assert(mixed@ =~= permuted(bytes@));
            self.base_hasher.write(mixed.as_slice());
        } else {
            self.base_hasher.write(bytes);
        }
    }
}

#[derive(Clone, Copy)]
pub struct RandomizingHasherBuilder;

impl BuildHasher for RandomizingHasherBuilder {
    type Hasher = RandomizingHasher;

    fn build_hasher(&self) -> (hasher: Self::Hasher)
        ensures
            hasher.fed() == Seq::<Seq<u8>>::empty(),
    {
        RandomizingHasher { base_hasher: DefaultHasher::new() }
    }
}

} // verus!
