//! Fragment-identity hasher: a non-cryptographic mix used only to index
//! the per-path reassembly table by 64-bit packet identifier. It is
//! seeded per path from a caller-supplied random value, so two paths —
//! and two process runs — hash the same identifier differently,
//! defeating precomputed collision floods. It accepts only 64-bit
//! integer keys; there is deliberately no byte-string input, so misuse
//! is impossible rather than silently degraded.

use vstd::prelude::*;

verus! {

/// One xorshift mixing cascade: fixed rotations and exclusive-ors,
/// collision-unpredictable given an unpredictable seed.
pub open spec fn xorshift_mix(x: u64) -> u64 {
    let a = x ^ (x << 13u64);
    let b = a ^ (a >> 7u64);
    b ^ (b << 17u64)
}

/// The hash of a packet identifier under a seed.
pub open spec fn packet_id_hash(seed: u64, id: u64) -> u64 {
    xorshift_mix(vstd::wrapping::u64_specs::wrapping_add(seed, id))
}

/// The hasher state: starts at the per-path seed, absorbs identifiers.
pub struct PacketIdHasher {
    pub state: u64,
}

impl PacketIdHasher {
    /// A fresh hasher seeded with the path's random value.
    pub fn new(seed: u64) -> (r: Self)
        ensures
            r.state == seed,
    {
        PacketIdHasher { state: seed }
    }

    /// Absorbs one 64-bit packet identifier.
    pub fn write_u64(&mut self, i: u64)
        ensures
            final(self).state == xorshift_mix(
                vstd::wrapping::u64_specs::wrapping_add(old(self).state, i),
            ),
    {
        let mut x = self.state.wrapping_add(i);
        x = x ^ (x << 13u64);
        x = x ^ (x >> 7u64);
        x = x ^ (x << 17u64);
        self.state = x;
    }

    /// The accumulated hash value.
    pub fn finish(&self) -> (r: u64)
        ensures
            r == self.state,
    {
        self.state
    }
}

/// The one-shot hash of a single identifier: seed, absorb, finish.
pub fn hash_packet_id(seed: u64, id: u64) -> (r: u64)
    ensures
        r == packet_id_hash(seed, id),
{
    let mut h = PacketIdHasher::new(seed);
    h.write_u64(id);
    h.finish()
}

} // verus!
