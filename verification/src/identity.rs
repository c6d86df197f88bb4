//! The identity collaborator: the holder of a node's address and key
//! material, asked to sign and to verify locator payloads. Key management
//! and the strength of the scheme are outside this layer; what this layer
//! relies on — and what is modeled here — is that signing is a
//! deterministic function of the signer's address and the exact payload
//! bytes, and that signing fails when the secret material is absent.

use vstd::prelude::*;

use crate::address::{address_bytes, Address, ADDRESS_SIZE};
use crate::codec::{append_bytes, be_bytes, bytes_eq, pow256, write_be};

verus! {

/// Width of a detached signature, in bytes.
pub const SIGNATURE_SIZE: usize = 8;

/// One mixing step of the payload digest.
pub open spec fn digest_step(h: u64, b: u8) -> u64 {
    vstd::wrapping::u64_specs::wrapping_mul(h ^ (b as u64), 0x100000001b3)
}

/// Digest of a byte string, folded left to right.
pub open spec fn digest64(s: Seq<u8>) -> u64
    decreases s.len(),
{
    if s.len() == 0 {
        0xcbf29ce484222325
    } else {
        digest_step(digest64(s.drop_last()), s.last())
    }
}

/// The detached signature an identity at `signer` produces over `msg`:
/// the eight-byte big-endian digest of the signer's address bytes
/// followed by the payload.
pub open spec fn signature_bytes(signer: Address, msg: Seq<u8>) -> Seq<u8> {
    be_bytes(digest64(address_bytes(signer) + msg) as nat, 8)
}

pub proof fn lemma_signature_bytes_len(signer: Address, msg: Seq<u8>)
    ensures
        signature_bytes(signer, msg).len() == SIGNATURE_SIZE,
{
    crate::codec::lemma_be_bytes_len(digest64(address_bytes(signer) + msg) as nat, 8);
}

/// Computes `digest64` of a byte vector.
fn digest(bytes: &Vec<u8>) -> (r: u64)
    ensures
        r == digest64(bytes@),
{
    let mut h: u64 = 0xcbf29ce484222325;
    let mut k: usize = 0;
    proof {
        assert(bytes@.subrange(0, 0) =~= Seq::<u8>::empty());
    }
    while k < bytes.len()
        invariant
            k <= bytes@.len(),
            h == digest64(bytes@.subrange(0, k as int)),
        decreases bytes@.len() - k,
    {
        let b = bytes[k];
        proof {
            let whole = bytes@.subrange(0, k + 1);
            assert(whole.drop_last() =~= bytes@.subrange(0, k as int));
            assert(whole.last() == bytes@[k as int]);
        }
        h = (h ^ (b as u64)).wrapping_mul(0x100000001b3);
        k = k + 1;
    }
    proof {
        assert(bytes@.subrange(0, bytes@.len() as int) =~= bytes@);
    }
    h
}

/// A node identity: its address, and whether the secret half of its key
/// material is present. Only an identity with its secret can sign.
#[derive(Clone, Copy, PartialEq, Eq, Structural, Debug)]
pub struct Identity {
    pub address: Address,
    pub has_secret: bool,
}

impl Identity {
    /// Validity: the held address is structurally valid.
    pub open spec fn wf(self) -> bool {
        self.address.wf()
    }

    /// Builds an identity.
    pub fn new(address: Address, has_secret: bool) -> (r: Identity)
        ensures
            r == (Identity { address, has_secret }),
    {
        Identity { address, has_secret }
    }

    /// The address this identity speaks for.
    pub fn address(&self) -> (r: Address)
        ensures
            r == self.address,
    {
        self.address
    }

    /// Produces a detached signature over `msg`, or nothing when the
    /// secret material is absent.
    pub fn sign(&self, msg: &Vec<u8>) -> (r: Option<Vec<u8>>)
        requires
            self.wf(),
            msg@.len() + ADDRESS_SIZE <= usize::MAX,
        ensures
            match r {
                Some(sig) => self.has_secret && sig@ == signature_bytes(self.address, msg@),
                None => !self.has_secret,
            },
    {
        if !self.has_secret {
            None
        } else {
            let mut buf: Vec<u8> = Vec::new();
            self.address.marshal(&mut buf);
            proof {
                crate::address::lemma_address_roundtrip(self.address);
            }
            append_bytes(&mut buf, msg);
            let h = digest(&buf);
            let mut sig: Vec<u8> = Vec::new();
            proof {
                assert(pow256(8) == 0x10000000000000000nat) by {
                    reveal_with_fuel(pow256, 9);
                }
            }
            write_be(&mut sig, h, 8);
            proof {
                assert(sig@ =~= signature_bytes(self.address, msg@));
            }
            Some(sig)
        }
    }

    /// Checks a detached signature over `msg`. True exactly when the
    /// signature is the one this identity's address produces over `msg`.
    pub fn verify(&self, msg: &Vec<u8>, signature: &Vec<u8>) -> (r: bool)
        requires
            self.wf(),
            msg@.len() + ADDRESS_SIZE <= usize::MAX,
        ensures
            r == (signature@ == signature_bytes(self.address, msg@)),
    {
        let mut buf: Vec<u8> = Vec::new();
        self.address.marshal(&mut buf);
        proof {
            crate::address::lemma_address_roundtrip(self.address);
        }
        append_bytes(&mut buf, msg);
        let h = digest(&buf);
        let mut expected: Vec<u8> = Vec::new();
        proof {
            assert(pow256(8) == 0x10000000000000000nat) by {
                reveal_with_fuel(pow256, 9);
            }
        }
        write_be(&mut expected, h, 8);
        proof {
            assert(expected@ =~= signature_bytes(self.address, msg@));
        }
        bytes_eq(signature, &expected)
    }
}

} // verus!
