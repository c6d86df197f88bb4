//! Wire primitives: big-endian fixed-width integers, variable-length
//! integers, and raw byte spans, over a plain byte vector with an explicit
//! cursor. Every reader is exact about the bytes it consumes, so the
//! locator round-trip proof can be stated byte for byte.

use vstd::prelude::*;

verus! {

/// Error class for wire decoding and encoding.
#[derive(Clone, Copy, PartialEq, Eq, Structural, Debug)]
pub enum WireError {
    /// A declared length or field runs past the end of the buffer.
    Truncated,
    /// A decoded value does not fit the machine type, or an encoding
    /// would exceed the maximum message capacity.
    Overflow,
    /// An address field failed structural validation.
    InvalidAddress,
    /// A decoded structure violates a canonical-form invariant, such as
    /// an endpoint list out of order or holding duplicates.
    NotCanonical,
}

/// 256 to the power `len`: the number of values a `len`-byte field can hold.
pub open spec fn pow256(len: nat) -> nat
    decreases len,
{
    if len == 0 {
        1
    } else {
        256 * pow256((len - 1) as nat)
    }
}

pub proof fn lemma_pow256_monotonic(a: nat, b: nat)
    requires
        a <= b,
    ensures
        pow256(a) <= pow256(b),
    decreases b,
{
    if a < b {
        lemma_pow256_monotonic(a, (b - 1) as nat);
    }
}

/// The big-endian bytes of `x`, zero-padded to exactly `len` bytes.
/// Meaningful when `x < pow256(len)`.
pub open spec fn be_bytes(x: nat, len: nat) -> Seq<u8>
    decreases len,
{
    if len == 0 {
        Seq::empty()
    } else {
        be_bytes(x / 256, (len - 1) as nat).push((x % 256) as u8)
    }
}

/// The value of a big-endian byte string.
pub open spec fn be_val(s: Seq<u8>) -> nat
    decreases s.len(),
{
    if s.len() == 0 {
        0
    } else {
        be_val(s.drop_last()) * 256 + s.last() as nat
    }
}

pub proof fn lemma_be_bytes_len(x: nat, len: nat)
    ensures
        be_bytes(x, len).len() == len,
    decreases len,
{
    if len > 0 {
        lemma_be_bytes_len(x / 256, (len - 1) as nat);
    }
}

pub proof fn lemma_be_val_bound(s: Seq<u8>)
    ensures
        be_val(s) < pow256(s.len()),
    decreases s.len(),
{
    if s.len() > 0 {
        lemma_be_val_bound(s.drop_last());
    }
}

/// Decoding inverts encoding: a `len`-byte big-endian field reads back
/// as the value it was written from.
pub proof fn lemma_be_roundtrip(x: nat, len: nat)
    requires
        x < pow256(len),
    ensures
        be_val(be_bytes(x, len)) == x,
    decreases len,
{
    if len > 0 {
        let head = be_bytes(x / 256, (len - 1) as nat);
        lemma_pow256_monotonic((len - 1) as nat, len);
        lemma_be_roundtrip(x / 256, (len - 1) as nat);
        assert(head.push((x % 256) as u8).drop_last() =~= head);
    }
}

/// Appends the `len`-byte big-endian encoding of `x` to `out`.
pub fn write_be(out: &mut Vec<u8>, x: u64, len: usize)
    requires
        len <= 8,
        (x as nat) < pow256(len as nat),
        old(out)@.len() + len <= usize::MAX,
    ensures
        final(out)@ == old(out)@ + be_bytes(x as nat, len as nat),
    decreases len,
{
    if len == 0 {
        proof {
            assert(out@ =~= old(out)@ + be_bytes(x as nat, 0));
        }
    } else {
        proof {
            lemma_pow256_monotonic((len - 1) as nat, len as nat);
        }
        write_be(out, x / 256, len - 1);
        out.push((x % 256) as u8);
        proof {
            assert(out@ =~= old(out)@ + be_bytes(x as nat, len as nat));
        }
    }
}

/// Reads a `len`-byte big-endian unsigned value starting at `cursor`.
pub fn read_be(s: &Vec<u8>, cursor: usize, len: usize) -> (r: Result<(u64, usize), WireError>)
    requires
        len <= 8,
    ensures
        match r {
            Ok((v, j)) => {
                &&& cursor + len <= s@.len()
                &&& j == cursor + len
                &&& v as nat == be_val(s@.subrange(cursor as int, cursor + len))
            },
            Err(e) => {
                &&& e == WireError::Truncated
                &&& cursor + len > s@.len()
            },
        },
{
    if s.len() < len || cursor > s.len() - len {
        Err(WireError::Truncated)
    } else {
        let mut acc: u64 = 0;
        let mut k: usize = 0;
        proof {
            assert(s@.subrange(cursor as int, cursor as int) =~= Seq::<u8>::empty());
        }
        while k < len
            invariant
                k <= len,
                len <= 8,
                cursor + len <= usize::MAX,
                cursor + len <= s@.len(),
                acc as nat == be_val(s@.subrange(cursor as int, cursor + k)),
                (acc as nat) < pow256(k as nat),
            decreases len - k,
        {
            let b = s[cursor + k];
            proof {
                let whole = s@.subrange(cursor as int, cursor + k + 1);
                assert(whole.drop_last() =~= s@.subrange(cursor as int, cursor + k));
                assert(whole.last() == s@[cursor + k]);
                lemma_pow256_monotonic(k as nat, 7);
                assert(pow256(7) == 0x100000000000000nat) by {
                    reveal_with_fuel(pow256, 8);
                }
            }
            acc = acc * 256 + (b as u64);
            k = k + 1;
        }
        Ok((acc, cursor + len))
    }
}

/// The variable-length encoding of `x`: seven value bits per byte, least
/// significant group first, high bit set on every byte but the last.
pub open spec fn varint_bytes(x: nat) -> Seq<u8>
    decreases x,
{
    if x < 128 {
        seq![x as u8]
    } else {
        seq![(128 + x % 128) as u8] + varint_bytes(x / 128)
    }
}

/// Parses a variable-length integer at position `i`; yields the value
/// (unbounded) and the position just past it.
pub open spec fn parse_varint(s: Seq<u8>, i: int) -> Option<(nat, int)>
    decreases s.len() - i,
{
    if 0 <= i < s.len() {
        let b = s[i];
        if b < 128 {
            Some((b as nat, i + 1))
        } else {
            match parse_varint(s, i + 1) {
                Some((v, j)) => Some((((b - 128) as nat + 128 * v), j)),
                None => None,
            }
        }
    } else {
        None
    }
}

pub proof fn lemma_parse_varint_advances(s: Seq<u8>, i: int)
    ensures
        match parse_varint(s, i) {
            Some(vj) => i < vj.1 <= s.len(),
            None => true,
        },
    decreases s.len() - i,
{
    if 0 <= i < s.len() && s[i] >= 128 {
        lemma_parse_varint_advances(s, i + 1);
    }
}

/// Parsing inverts encoding: wherever the bytes of `varint_bytes(x)` sit
/// in a buffer, parsing from their start yields `x` and stops just past them.
pub proof fn lemma_varint_roundtrip(s: Seq<u8>, i: int, x: nat)
    requires
        0 <= i,
        i + varint_bytes(x).len() <= s.len(),
        s.subrange(i, i + varint_bytes(x).len()) == varint_bytes(x),
    ensures
        parse_varint(s, i) == Some((x, i + varint_bytes(x).len())),
    decreases x,
{
    let enc = varint_bytes(x);
    assert(s[i] == s.subrange(i, i + enc.len())[0]);
    if x < 128 {
        assert(parse_varint(s, i) == Some((x, i + 1)));
    } else {
        let tail = varint_bytes(x / 128);
        assert(enc.len() == 1 + tail.len());
        assert(s.subrange(i + 1, i + 1 + tail.len()) =~= tail) by {
            assert forall|k: int| 0 <= k < tail.len() implies s[i + 1 + k] == tail[k] by {
                assert(enc[1 + k] == tail[k]);
                assert(s.subrange(i, i + enc.len())[1 + k] == s[i + 1 + k]);
            }
        }
        lemma_varint_roundtrip(s, i + 1, x / 128);
        assert(s[i] == 128 + x % 128);
        assert((s[i] - 128) as nat + 128 * (x / 128) == x);
    }
}

/// 128 to the power `n`: the number of values `n` seven-bit groups can hold.
pub open spec fn pow128(n: nat) -> nat
    decreases n,
{
    if n == 0 {
        1
    } else {
        128 * pow128((n - 1) as nat)
    }
}

/// A value below `pow128(n)` encodes in at most `n` variable-length bytes.
pub proof fn lemma_varint_len_le(x: nat, n: nat)
    requires
        1 <= n,
        x < pow128(n),
    ensures
        1 <= varint_bytes(x).len() <= n,
    decreases n,
{
    if x >= 128 {
        assert(pow128(1) == 128) by {
            reveal_with_fuel(pow128, 2);
        }
        if n == 1 {
            assert(false);
        }
        assert(x / 128 < pow128((n - 1) as nat)) by (nonlinear_arith)
            requires
                x < 128 * pow128((n - 1) as nat),
                pow128((n - 1) as nat) >= 1,
                x >= 128,
        ;
        lemma_varint_len_le(x / 128, (n - 1) as nat);
    }
}

/// A 64-bit value encodes in at most ten variable-length bytes.
pub proof fn lemma_varint_len_u64(x: u64)
    ensures
        1 <= varint_bytes(x as nat).len() <= 10,
{
    assert(pow128(10) == 0x10000000000000000nat * 64) by {
        reveal_with_fuel(pow128, 11);
    }
    lemma_varint_len_le(x as nat, 10);
}

/// Appends the variable-length encoding of `x` to `out`.
pub fn write_varint(out: &mut Vec<u8>, x: u64)
    requires
        old(out)@.len() + varint_bytes(x as nat).len() <= usize::MAX,
    ensures
        final(out)@ == old(out)@ + varint_bytes(x as nat),
        old(out)@.len() < final(out)@.len() <= old(out)@.len() + 10,
    decreases x,
{
    proof {
        lemma_varint_len_u64(x);
    }
    if x < 128 {
        out.push(x as u8);
        proof {
            assert(out@ =~= old(out)@ + varint_bytes(x as nat));
        }
    } else {
        out.push((128 + (x % 128)) as u8);
        write_varint(out, x / 128);
        proof {
            assert(out@ =~= old(out)@ + varint_bytes(x as nat));
        }
    }
}

/// Reads a variable-length integer at `cursor`. Fails with `Truncated`
/// when the encoding runs past the buffer and with `Overflow` when the
/// encoded value does not fit in 64 bits.
pub fn read_varint(s: &Vec<u8>, cursor: usize) -> (r: Result<(u64, usize), WireError>)
    ensures
        match r {
            Ok((v, j)) => parse_varint(s@, cursor as int) == Some((v as nat, j as int)) && j
                <= s@.len(),
            Err(e) => match parse_varint(s@, cursor as int) {
                Some(vj) => e == WireError::Overflow && vj.0 > u64::MAX,
                None => e == WireError::Truncated,
            },
        },
    decreases s@.len() - cursor,
{
    proof {
        lemma_parse_varint_advances(s@, cursor as int);
    }
    if cursor >= s.len() {
        Err(WireError::Truncated)
    } else {
        let b = s[cursor];
        if b < 128 {
            Ok((b as u64, cursor + 1))
        } else {
            let low: u64 = (b - 128) as u64;
            match read_varint(s, cursor + 1) {
                Ok((v, j)) => {
                    // A tail value of 2^57 or more cannot leave room for the
                    // seven low bits; below that the combination always fits.
                    if v >= 0x200000000000000u64 {
                        proof {
                            assert(128 * (v as nat) >= 0x10000000000000000nat);
                        }
                        Err(WireError::Overflow)
                    } else {
                        Ok((low + 128 * v, j))
                    }
                },
                Err(e) => {
                    proof {
                        if let Some(vj) = parse_varint(s@, cursor + 1) {
                            assert(128 * vj.0 >= vj.0) by (nonlinear_arith);
                        }
                    }
                    Err(e)
                },
            }
        }
    }
}

/// Reads `len` raw bytes at `cursor`.
pub fn read_bytes(s: &Vec<u8>, cursor: usize, len: usize) -> (r: Result<
    (Vec<u8>, usize),
    WireError,
>)
    ensures
        match r {
            Ok((v, j)) => {
                &&& cursor + len <= s@.len()
                &&& j == cursor + len
                &&& v@ == s@.subrange(cursor as int, cursor + len)
            },
            Err(e) => {
                &&& e == WireError::Truncated
                &&& cursor + len > s@.len()
            },
        },
{
    if s.len() < len || cursor > s.len() - len {
        Err(WireError::Truncated)
    } else {
        let mut v: Vec<u8> = Vec::new();
        let mut k: usize = 0;
        while k < len
            invariant
                k <= len,
                cursor + len <= usize::MAX,
                cursor + len <= s@.len(),
                v@ =~= s@.subrange(cursor as int, cursor + k),
            decreases len - k,
        {
            v.push(s[cursor + k]);
            proof {
                assert(v@ =~= s@.subrange(cursor as int, cursor + k + 1));
            }
            k = k + 1;
        }
        Ok((v, cursor + len))
    }
}

/// A subrange known to hold a concatenation splits into its two parts.
pub proof fn lemma_split_at(s: Seq<u8>, i: int, a: Seq<u8>, b: Seq<u8>)
    requires
        0 <= i,
        i + a.len() + b.len() <= s.len(),
        s.subrange(i, i + a.len() + b.len()) == a + b,
    ensures
        s.subrange(i, i + a.len()) == a,
        s.subrange(i + a.len(), i + a.len() + b.len()) == b,
{
    assert(s.subrange(i, i + a.len()) =~= a) by {
        assert forall|k: int| 0 <= k < a.len() implies s[i + k] == a[k] by {
            assert(s.subrange(i, i + a.len() + b.len())[k] == s[i + k]);
            assert((a + b)[k] == a[k]);
        }
    }
    assert(s.subrange(i + a.len(), i + a.len() + b.len()) =~= b) by {
        assert forall|k: int| 0 <= k < b.len() implies s[i + a.len() + k] == b[k] by {
            assert(s.subrange(i, i + a.len() + b.len())[a.len() + k] == s[i + a.len() + k]);
            assert((a + b)[a.len() + k] == b[k]);
        }
    }
}

/// Parses a `len`-byte big-endian field as a `Result`.
pub open spec fn parse_be_r(s: Seq<u8>, i: int, len: int) -> Result<(u64, int), WireError> {
    if 0 <= i && 0 <= len <= 8 && i + len <= s.len() {
        Ok((be_val(s.subrange(i, i + len)) as u64, i + len))
    } else {
        Err(WireError::Truncated)
    }
}

/// Parses a variable-length integer as a `Result`: `Truncated` when the
/// encoding runs out, `Overflow` when the value exceeds 64 bits.
pub open spec fn parse_varint_r(s: Seq<u8>, i: int) -> Result<(u64, int), WireError> {
    match parse_varint(s, i) {
        Some(vj) => if vj.0 <= u64::MAX {
            Ok((vj.0 as u64, vj.1))
        } else {
            Err(WireError::Overflow)
        },
        None => Err(WireError::Truncated),
    }
}

/// The unsigned 64-bit reinterpretation of a signed timestamp.
pub open spec fn u64_of_i64(t: i64) -> u64 {
    if t >= 0 {
        t as u64
    } else {
        (t + 0x10000000000000000) as u64
    }
}

/// The signed reading of an unsigned 64-bit wire value.
pub open spec fn i64_of_u64(v: u64) -> i64 {
    if v <= 0x7fffffffffffffff {
        v as i64
    } else {
        (v - 0x10000000000000000) as i64
    }
}

/// Reinterpretation is lossless in both directions.
pub proof fn lemma_i64_roundtrip(t: i64)
    ensures
        i64_of_u64(u64_of_i64(t)) == t,
{
}

/// Reinterprets a signed timestamp for the wire.
pub fn ts_to_wire(t: i64) -> (r: u64)
    ensures
        r == u64_of_i64(t),
{
    if t >= 0 {
        t as u64
    } else {
        let m = (-(t + 1)) as u64;
        u64::MAX - m
    }
}

/// Reads a signed timestamp back from its wire form.
pub fn wire_to_ts(v: u64) -> (r: i64)
    ensures
        r == i64_of_u64(v),
{
    if v <= 0x7fffffffffffffffu64 {
        v as i64
    } else {
        let m = u64::MAX - v;
        -(m as i64) - 1
    }
}

/// Appends all of `b` to `out`.
pub fn append_bytes(out: &mut Vec<u8>, b: &Vec<u8>)
    requires
        old(out)@.len() + b@.len() <= usize::MAX,
    ensures
        final(out)@ == old(out)@ + b@,
{
    let mut k: usize = 0;
    proof {
        assert(out@ =~= old(out)@ + b@.subrange(0, 0));
    }
    while k < b.len()
        invariant
            k <= b@.len(),
            old(out)@.len() + b@.len() <= usize::MAX,
            out@ =~= old(out)@ + b@.subrange(0, k as int),
        decreases b@.len() - k,
    {
        out.push(b[k]);
        proof {
            assert(out@ =~= old(out)@ + b@.subrange(0, k + 1));
        }
        k = k + 1;
    }
    proof {
        assert(out@ =~= old(out)@ + b@);
    }
}

/// Byte-for-byte equality of two byte vectors.
pub fn bytes_eq(a: &Vec<u8>, b: &Vec<u8>) -> (r: bool)
    ensures
        r == (a@ == b@),
{
    if a.len() != b.len() {
        proof {
            assert(a@ != b@);
        }
        false
    } else {
        let mut k: usize = 0;
        while k < a.len()
            invariant
                k <= a@.len(),
                a@.len() == b@.len(),
                forall|j: int| 0 <= j < k ==> a@[j] == b@[j],
            decreases a@.len() - k,
        {
            if a[k] != b[k] {
                proof {
                    assert(a@ != b@);
                }
                return false;
            }
            k = k + 1;
        }
        proof {
            assert(a@ =~= b@);
        }
        true
    }
}

} // verus!
