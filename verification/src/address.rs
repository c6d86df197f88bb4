//! Node addresses: 40-bit values with a reserved range, encoded as five
//! big-endian bytes on the wire. An address that fails structural
//! validation is never constructed; decoding reports it as invalid.

use vstd::prelude::*;

use crate::codec::{
    be_bytes, be_val, lemma_be_roundtrip, lemma_be_val_bound, pow256, read_be, write_be, WireError,
};

verus! {

/// Width of an address on the wire, in bytes.
pub const ADDRESS_SIZE: usize = 5;

/// A 40-bit node address. Zero and the reserved prefix `0xff` are invalid.
#[derive(Clone, Copy, PartialEq, Eq, Structural, Hash, Debug)]
pub struct Address(pub u64);

/// Structural validity: non-zero, fits in 40 bits, and not in the
/// reserved prefix range.
pub open spec fn address_is_valid(v: u64) -> bool {
    &&& 0 < v < 0x10000000000
    &&& (v >> 32) != 0xff
}

/// The five-byte big-endian wire form of an address.
pub open spec fn address_bytes(a: Address) -> Seq<u8> {
    be_bytes(a.0 as nat, ADDRESS_SIZE as nat)
}

pub proof fn lemma_address_fits(a: Address)
    requires
        a.wf(),
    ensures
        (a.0 as nat) < pow256(ADDRESS_SIZE as nat),
{
    assert(pow256(5) == 0x10000000000nat) by {
        reveal_with_fuel(pow256, 6);
    }
}

/// Parses an address field at position `i`.
pub open spec fn parse_address_r(s: Seq<u8>, i: int) -> Result<(Address, int), WireError> {
    if 0 <= i && i + ADDRESS_SIZE <= s.len() {
        if address_is_valid(be_val(s.subrange(i, i + ADDRESS_SIZE)) as u64) {
            Ok((Address(be_val(s.subrange(i, i + ADDRESS_SIZE)) as u64), i + ADDRESS_SIZE))
        } else {
            Err(WireError::InvalidAddress)
        }
    } else {
        Err(WireError::Truncated)
    }
}

/// Wherever a valid address's wire bytes sit in a buffer, parsing from
/// their start yields that address and stops just past them.
pub proof fn lemma_address_parse(s: Seq<u8>, i: int, a: Address)
    requires
        a.wf(),
        0 <= i,
        i + ADDRESS_SIZE <= s.len(),
        s.subrange(i, i + ADDRESS_SIZE) == address_bytes(a),
    ensures
        parse_address_r(s, i) == Ok::<_, WireError>((a, i + ADDRESS_SIZE)),
{
    lemma_address_roundtrip(a);
}

/// Five valid address bytes read back as the address they were written from.
pub proof fn lemma_address_roundtrip(a: Address)
    requires
        a.wf(),
    ensures
        be_val(address_bytes(a)) == a.0 as nat,
        address_bytes(a).len() == ADDRESS_SIZE,
{
    lemma_address_fits(a);
    lemma_be_roundtrip(a.0 as nat, ADDRESS_SIZE as nat);
    crate::codec::lemma_be_bytes_len(a.0 as nat, ADDRESS_SIZE as nat);
}

impl Address {
    /// Validity of the held value.
    pub open spec fn wf(self) -> bool {
        address_is_valid(self.0)
    }

    /// Builds an address from a raw value; rejects invalid values.
    pub fn new(v: u64) -> (r: Option<Address>)
        ensures
            match r {
                Some(a) => a == (Address(v)) && address_is_valid(v),
                None => !address_is_valid(v),
            },
    {
        if 0 < v && v < 0x10000000000u64 && (v >> 32) != 0xff {
            Some(Address(v))
        } else {
            None
        }
    }

    /// The raw 40-bit value.
    pub fn to_u64(self) -> (r: u64)
        ensures
            r == self.0,
    {
        self.0
    }

    /// Appends the five-byte wire form.
    pub fn marshal(&self, out: &mut Vec<u8>)
        requires
            self.wf(),
            old(out)@.len() + ADDRESS_SIZE <= usize::MAX,
        ensures
            final(out)@ == old(out)@ + address_bytes(*self),
    {
        proof {
            lemma_address_fits(*self);
        }
        write_be(out, self.0, ADDRESS_SIZE);
    }

    /// Reads five bytes at `cursor` and validates them as an address.
    pub fn unmarshal(s: &Vec<u8>, cursor: usize) -> (r: Result<(Address, usize), WireError>)
        ensures
            match r {
                Ok((a, j)) => parse_address_r(s@, cursor as int) == Ok::<_, WireError>(
                    (a, j as int),
                ) && j <= s@.len() && a.wf(),
                Err(e) => parse_address_r(s@, cursor as int) == Err::<(Address, int), _>(e),
            },
    {
        match read_be(s, cursor, ADDRESS_SIZE) {
            Ok((v, j)) => {
                proof {
                    lemma_be_val_bound(s@.subrange(cursor as int, cursor + ADDRESS_SIZE));
                    assert(pow256(5) == 0x10000000000nat) by {
                        reveal_with_fuel(pow256, 6);
                    }
                }
                match Address::new(v) {
                    Some(a) => Ok((a, j)),
                    None => Err(WireError::InvalidAddress),
                }
            },
            Err(e) => Err(e),
        }
    }
}

} // verus!
