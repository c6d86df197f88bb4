//! Reachable endpoints. The transport's address families are opaque to
//! this layer; an endpoint here is the pair this layer actually reads: a
//! family discriminant and a fixed-width value, with a total order (used
//! for the sorted-endpoints invariant) and a self-describing wire form.

use vstd::prelude::*;

use crate::codec::{
    be_bytes, be_val, lemma_be_bytes_len, lemma_be_roundtrip, pow256, read_be, write_be, WireError,
};

verus! {

/// Width of an endpoint on the wire: one discriminant byte and an
/// eight-byte big-endian value.
pub const ENDPOINT_SIZE: usize = 9;

/// One reachable endpoint: an address-family discriminant and its value.
#[derive(Clone, Copy, PartialEq, Eq, Structural, Hash, Debug)]
pub struct Endpoint {
    pub kind: u8,
    pub value: u64,
}

/// Strict total order on endpoints: by discriminant, then by value.
pub open spec fn ep_lt(a: Endpoint, b: Endpoint) -> bool {
    a.kind < b.kind || (a.kind == b.kind && a.value < b.value)
}

/// The wire form of an endpoint.
pub open spec fn endpoint_bytes(e: Endpoint) -> Seq<u8> {
    seq![e.kind] + be_bytes(e.value as nat, 8)
}

/// Parses one endpoint at position `i`.
pub open spec fn parse_endpoint(s: Seq<u8>, i: int) -> Option<(Endpoint, int)> {
    if 0 <= i && i + ENDPOINT_SIZE <= s.len() {
        Some(
            (
                Endpoint { kind: s[i], value: be_val(s.subrange(i + 1, i + 9)) as u64 },
                i + ENDPOINT_SIZE,
            ),
        )
    } else {
        None
    }
}

pub proof fn lemma_endpoint_bytes_len(e: Endpoint)
    ensures
        endpoint_bytes(e).len() == ENDPOINT_SIZE,
{
    lemma_be_bytes_len(e.value as nat, 8);
}

/// Wherever an endpoint's wire bytes sit in a buffer, parsing from their
/// start yields that endpoint and stops just past them.
pub proof fn lemma_endpoint_roundtrip(s: Seq<u8>, i: int, e: Endpoint)
    requires
        0 <= i,
        i + ENDPOINT_SIZE <= s.len(),
        s.subrange(i, i + ENDPOINT_SIZE) == endpoint_bytes(e),
    ensures
        parse_endpoint(s, i) == Some((e, i + ENDPOINT_SIZE)),
{
    let enc = endpoint_bytes(e);
    lemma_endpoint_bytes_len(e);
    assert(s[i] == s.subrange(i, i + 9)[0]);
    assert(s.subrange(i + 1, i + 9) =~= be_bytes(e.value as nat, 8)) by {
        assert forall|k: int| 0 <= k < 8 implies s[i + 1 + k] == be_bytes(e.value as nat, 8)[k] by {
            assert(s.subrange(i, i + 9)[1 + k] == s[i + 1 + k]);
            assert(enc[1 + k] == be_bytes(e.value as nat, 8)[k]);
        }
    }
    assert(pow256(8) == 0x10000000000000000nat) by {
        reveal_with_fuel(pow256, 9);
    }
    lemma_be_roundtrip(e.value as nat, 8);
}

impl Endpoint {
    /// Builds an endpoint from its parts.
    pub fn new(kind: u8, value: u64) -> (r: Endpoint)
        ensures
            r == (Endpoint { kind, value }),
    {
        Endpoint { kind, value }
    }

    /// Strict order test, matching `ep_lt`.
    pub fn less_than(&self, other: &Endpoint) -> (r: bool)
        ensures
            r == ep_lt(*self, *other),
    {
        self.kind < other.kind || (self.kind == other.kind && self.value < other.value)
    }

    /// Appends the wire form.
    pub fn marshal(&self, out: &mut Vec<u8>)
        requires
            old(out)@.len() + ENDPOINT_SIZE <= usize::MAX,
        ensures
            final(out)@ == old(out)@ + endpoint_bytes(*self),
    {
        out.push(self.kind);
        proof {
            assert(pow256(8) == 0x10000000000000000nat) by {
                reveal_with_fuel(pow256, 9);
            }
        }
        write_be(out, self.value, 8);
        proof {
            assert(out@ =~= old(out)@ + endpoint_bytes(*self));
        }
    }

    /// Reads one endpoint at `cursor`.
    pub fn unmarshal(s: &Vec<u8>, cursor: usize) -> (r: Result<(Endpoint, usize), WireError>)
        ensures
            match r {
                Ok((e, j)) => {
                    &&& parse_endpoint(s@, cursor as int) == Some((e, j as int))
                    &&& j == cursor + ENDPOINT_SIZE
                    &&& j <= s@.len()
                },
                Err(e) => e == WireError::Truncated && parse_endpoint(s@, cursor as int)
                    is None,
            },
    {
        if s.len() < ENDPOINT_SIZE || cursor > s.len() - ENDPOINT_SIZE {
            Err(WireError::Truncated)
        } else {
            let kind = s[cursor];
            match read_be(s, cursor + 1, 8) {
                Ok((value, j)) => Ok((Endpoint { kind, value }, j)),
                Err(_) => Err(WireError::Truncated),
            }
        }
    }
}

} // verus!
