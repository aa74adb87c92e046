//! Non-cryptographic hashing for internal arena IDs and structural node keys.
//! Source-level names are filed under a digest of their bytes in a map with the
//! standard randomized hasher.
use vstd::prelude::*;
use std::collections::HashMap;
use std::hash::{BuildHasherDefault, Hasher};

verus! {

/// A hash map keyed by internal identifiers, hashed with [`IdHasher`].
pub type IdMap<K, V> = HashMap<K, V, BuildHasherDefault<IdHasher>>;

/// The multiplier of one hashing step.
pub const FNV_PRIME: u64 = 0x100000001b3;

/// The state of a new hasher.
pub const FNV_OFFSET: u64 = 0xcbf29ce484222325;

/// One hashing step: combine `value` into the state `h`.
pub open spec fn step(h: u64, value: u64) -> u64 {
    vstd::wrapping::u64_specs::wrapping_mul(h ^ value, FNV_PRIME)
}

/// The state after hashing each of the bytes `b` in turn from state `h`.
pub open spec fn fold_bytes(h: u64, b: Seq<u8>) -> u64
    decreases b.len(),
{
    if b.len() == 0 {
        h
    } else {
        step(fold_bytes(h, b.drop_last()), b.last() as u64)
    }
}

/// A multiply-xor hasher over 64-bit words.
pub struct IdHasher {
    pub state: u64,
}

impl Default for IdHasher {
    fn default() -> (r: Self)
        ensures
            r.state == FNV_OFFSET,
    {
        IdHasher { state: FNV_OFFSET }
    }
}

/// The native-endian value of eight bytes.
///
/// Trusted wrapper around `u64::from_ne_bytes`; the result depends on the
/// machine's byte order, so nothing is claimed of it.
#[verifier::external_body]
fn word(bytes: &[u8]) -> (r: u64)
    requires
        bytes@.len() == 8,
{
    u64::from_ne_bytes([bytes[0], bytes[1], bytes[2], bytes[3], bytes[4], bytes[5], bytes[6], bytes[7]])
}

impl Hasher for IdHasher {
    fn finish(&self) -> (r: u64)
        ensures
            r == self.state,
    {
        self.state
    }

    fn write(&mut self, bytes: &[u8])
        ensures
            bytes@.len() < 8 ==> final(self).state == fold_bytes(old(self).state, bytes@),
    {
        let mut k: usize = 0;
        while bytes.len() - k >= 8
            invariant
                k <= bytes@.len(),
                k == 0 ==> self.state == old(self).state,
                bytes@.len() < 8 ==> k == 0,
            decreases bytes@.len() - k,
        {
            let chunk = crate::hash::slice8(bytes, k);
            let w = word(chunk);
            self.write_u64(w);
            k += 8;
        }
        while k < bytes.len()
            invariant
                k <= bytes@.len(),
                bytes@.len() < 8 ==> self.state == fold_bytes(old(self).state, bytes@.take(k as int)),
            decreases bytes@.len() - k,
        {
            proof {
                assert(bytes@.take(k + 1).drop_last() =~= bytes@.take(k as int));
            }
            self.write_u8(bytes[k]);
            k += 1;
        }
        proof {
            assert(bytes@.take(bytes@.len() as int) =~= bytes@);
        }
    }

    fn write_u64(&mut self, value: u64)
        ensures
            final(self).state == step(old(self).state, value),
    {
        self.state = (self.state ^ value).wrapping_mul(FNV_PRIME);
    }

    fn write_usize(&mut self, value: usize)
        ensures
            final(self).state == step(old(self).state, value as u64),
    {
        self.write_u64(value as u64);
    }

    fn write_u32(&mut self, value: u32)
        ensures
            final(self).state == step(old(self).state, value as u64),
    {
        self.write_u64(value as u64);
    }

    fn write_u8(&mut self, value: u8)
        ensures
            final(self).state == step(old(self).state, value as u64),
    {
        self.write_u64(value as u64);
    }
}

/// The eight bytes of `bytes` starting at `k`.
fn slice8(bytes: &[u8], k: usize) -> (r: &[u8])
    requires
        k + 8 <= bytes@.len(),
    ensures
        r@ == bytes@.subrange(k as int, k + 8),
{
    let (_, rest) = bytes.split_at(k);
    let (mid, _) = rest.split_at(8);
    assert(mid@ =~= bytes@.subrange(k as int, k + 8));
    mid
}

#[verifier::external_type_specification]
#[verifier::external_body]
#[verifier::reject_recursive_types(H)]
pub struct ExBuildHasherDefault<H>(BuildHasherDefault<H>);

} // verus!
