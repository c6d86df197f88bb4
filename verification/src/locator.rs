//! Signed locators: a node's statement "address A is reachable via
//! endpoint set E as of time T, attested by signer S". Construction
//! normalizes and signs; recipients verify, compare, and decide
//! supersession. The wire form is canonical so the signed payload is
//! well defined.

use vstd::prelude::*;

use crate::address::{address_bytes, lemma_address_parse, parse_address_r, Address, ADDRESS_SIZE};
use crate::codec::{
    append_bytes, be_bytes, bytes_eq, i64_of_u64, lemma_be_bytes_len, lemma_be_roundtrip,
    lemma_i64_roundtrip, lemma_varint_len_u64, lemma_varint_roundtrip, parse_be_r,
    parse_varint_r, pow256, read_bytes, read_varint, ts_to_wire, u64_of_i64, varint_bytes,
    wire_to_ts, write_be, write_varint, WireError,
};
use crate::endpoint::{
    endpoint_bytes, ep_lt, lemma_endpoint_bytes_len, lemma_endpoint_roundtrip, parse_endpoint,
    Endpoint, ENDPOINT_SIZE,
};
use crate::identity::{signature_bytes, Identity};

verus! {

/// Maximum size of a wire message this layer will produce or sign.
pub const PACKET_SIZE_MAX: usize = 10000;

/// The mathematical content of a locator.
#[verifier::ext_equal]
pub struct LocatorView {
    pub subject: Address,
    pub signer: Address,
    pub timestamp: i64,
    pub endpoints: Seq<Endpoint>,
    pub signature: Seq<u8>,
}

/// A signed object nodes publish to say where they can be found.
#[derive(Debug)]
pub struct Locator {
    pub subject: Address,
    pub signer: Address,
    pub timestamp: i64,
    pub endpoints: Vec<Endpoint>,
    pub signature: Vec<u8>,
}

impl View for Locator {
    type V = LocatorView;

    open spec fn view(&self) -> LocatorView {
        LocatorView {
            subject: self.subject,
            signer: self.signer,
            timestamp: self.timestamp,
            endpoints: self.endpoints@,
            signature: self.signature@,
        }
    }
}

/// Validity of the addresses a locator holds.
pub open spec fn locator_wf(l: LocatorView) -> bool {
    &&& l.subject.wf()
    &&& l.signer.wf()
}

/// The sorted, duplicate-free invariant of the endpoint list.
pub open spec fn eps_sorted(s: Seq<Endpoint>) -> bool {
    forall|i: int, j: int| 0 <= i < j < s.len() ==> ep_lt(s[i], s[j])
}

proof fn lemma_ep_lt_chain(s: Seq<Endpoint>, i: int, j: int)
    requires
        forall|k: int| 1 <= k < s.len() ==> ep_lt(s[k - 1], #[trigger] s[k]),
        0 <= i < j < s.len(),
    ensures
        ep_lt(s[i], s[j]),
    decreases j - i,
{
    if j > i + 1 {
        lemma_ep_lt_chain(s, i, j - 1);
    }
}

/// A list whose adjacent pairs are strictly ascending is sorted.
proof fn lemma_sorted_from_adjacent(s: Seq<Endpoint>)
    requires
        forall|k: int| 1 <= k < s.len() ==> ep_lt(s[k - 1], #[trigger] s[k]),
    ensures
        eps_sorted(s),
{
    assert forall|i: int, j: int| 0 <= i < j < s.len() implies ep_lt(s[i], s[j]) by {
        lemma_ep_lt_chain(s, i, j);
    }
}

/// Whether a list satisfies the sorted, duplicate-free invariant.
fn eps_strictly_sorted(v: &Vec<Endpoint>) -> (r: bool)
    ensures
        r == eps_sorted(v@),
{
    let mut k: usize = 1;
    while k < v.len()
        invariant
            1 <= k,
            k <= v@.len() || v@.len() == 0,
            forall|j: int| 1 <= j < k && j < v@.len() ==> ep_lt(v@[j - 1], #[trigger] v@[j]),
        decreases v@.len() - k,
    {
        if !v[k - 1].less_than(&v[k]) {
            proof {
                assert(!eps_sorted(v@)) by {
                    assert(!ep_lt(v@[k - 1], v@[k as int]));
                }
            }
            return false;
        }
        k = k + 1;
    }
    proof {
        lemma_sorted_from_adjacent(v@);
    }
    true
}

// ---------------------------------------------------------------------------
// Endpoint-list normalization: sort ascending and drop duplicates.
// ---------------------------------------------------------------------------

/// Inserts `e` into a sorted duplicate-free sequence, keeping it so.
pub open spec fn insert_ep(s: Seq<Endpoint>, e: Endpoint) -> Seq<Endpoint>
    decreases s.len(),
{
    if s.len() == 0 {
        seq![e]
    } else if ep_lt(e, s[0]) {
        seq![e] + s
    } else if e == s[0] {
        s
    } else {
        seq![s[0]] + insert_ep(s.subrange(1, s.len() as int), e)
    }
}

/// The normal form of an endpoint list: sorted ascending, duplicates
/// removed.
pub open spec fn normalize_eps(s: Seq<Endpoint>) -> Seq<Endpoint>
    decreases s.len(),
{
    if s.len() == 0 {
        Seq::empty()
    } else {
        insert_ep(normalize_eps(s.drop_last()), s.last())
    }
}

pub proof fn lemma_insert_ep(s: Seq<Endpoint>, e: Endpoint)
    requires
        eps_sorted(s),
    ensures
        eps_sorted(insert_ep(s, e)),
        forall|x: Endpoint| #[trigger] insert_ep(s, e).contains(x) <==> (s.contains(x) || x == e),
        s.len() <= insert_ep(s, e).len() <= s.len() + 1,
    decreases s.len(),
{
    let r = insert_ep(s, e);
    if s.len() == 0 {
        assert forall|x: Endpoint| #[trigger] r.contains(x) implies (s.contains(x) || x == e) by {
            let i = choose|i: int| 0 <= i < r.len() && r[i] == x;
            assert(r[0] == e);
        }
        assert(r.contains(e)) by {
            assert(r[0] == e);
        }
    } else if ep_lt(e, s[0]) {
        assert forall|i: int, j: int| 0 <= i < j < r.len() implies ep_lt(r[i], r[j]) by {
            if i == 0 {
                assert(r[j] == s[j - 1]);
                if j > 1 {
                    assert(ep_lt(s[0], s[j - 1]));
                }
            } else {
                assert(r[i] == s[i - 1] && r[j] == s[j - 1]);
            }
        }
        assert forall|x: Endpoint| #[trigger] r.contains(x) implies (s.contains(x) || x == e) by {
            let i = choose|i: int| 0 <= i < r.len() && r[i] == x;
            if i > 0 {
                assert(s[i - 1] == x);
            }
        }
        assert forall|x: Endpoint| s.contains(x) || x == e implies #[trigger] r.contains(x) by {
            if s.contains(x) {
                let i = choose|i: int| 0 <= i < s.len() && s[i] == x;
                assert(r[i + 1] == x);
            } else {
                assert(r[0] == x);
            }
        }
    } else if e == s[0] {
        assert forall|x: Endpoint| s.contains(x) || x == e implies #[trigger] r.contains(x) by {
            if x == e {
                assert(r[0] == x);
            }
        }
    } else {
        let tail = s.subrange(1, s.len() as int);
        assert(eps_sorted(tail)) by {
            assert forall|i: int, j: int| 0 <= i < j < tail.len() implies ep_lt(tail[i], tail[j]) by {
                assert(tail[i] == s[i + 1] && tail[j] == s[j + 1]);
            }
        }
        lemma_insert_ep(tail, e);
        let rt = insert_ep(tail, e);
        // The head is below everything in the inserted tail.
        assert(ep_lt(s[0], e)) by {
            assert(!ep_lt(e, s[0]) && e != s[0]);
        }
        assert forall|i: int, j: int| 0 <= i < j < r.len() implies ep_lt(r[i], r[j]) by {
            if i == 0 {
                assert(r[j] == rt[j - 1]);
                assert(rt.contains(rt[j - 1]));
                if tail.contains(rt[j - 1]) {
                    let k = choose|k: int| 0 <= k < tail.len() && tail[k] == rt[j - 1];
                    assert(tail[k] == s[k + 1]);
                    assert(ep_lt(s[0], s[k + 1]));
                } else {
                    assert(rt[j - 1] == e);
                }
            } else {
                assert(r[i] == rt[i - 1] && r[j] == rt[j - 1]);
            }
        }
        assert forall|x: Endpoint| #[trigger] r.contains(x) implies (s.contains(x) || x == e) by {
            let i = choose|i: int| 0 <= i < r.len() && r[i] == x;
            if i == 0 {
                assert(s[0] == x);
            } else {
                assert(rt[i - 1] == x);
                assert(rt.contains(x));
                if tail.contains(x) {
                    let k = choose|k: int| 0 <= k < tail.len() && tail[k] == x;
                    assert(s[k + 1] == x);
                }
            }
        }
        assert forall|x: Endpoint| s.contains(x) || x == e implies #[trigger] r.contains(x) by {
            if s.contains(x) {
                let i = choose|i: int| 0 <= i < s.len() && s[i] == x;
                if i == 0 {
                    assert(r[0] == x);
                } else {
                    assert(tail[i - 1] == x);
                    assert(tail.contains(x));
                    assert(rt.contains(x));
                    let k = choose|k: int| 0 <= k < rt.len() && rt[k] == x;
                    assert(r[k + 1] == x);
                }
            } else {
                assert(rt.contains(x));
                let k = choose|k: int| 0 <= k < rt.len() && rt[k] == x;
                assert(r[k + 1] == x);
            }
        }
    }
}

/// Normalization yields a sorted, duplicate-free list holding exactly the
/// input's elements.
pub proof fn lemma_normalize_eps(s: Seq<Endpoint>)
    ensures
        eps_sorted(normalize_eps(s)),
        forall|x: Endpoint| #[trigger] normalize_eps(s).contains(x) <==> s.contains(x),
        normalize_eps(s).len() <= s.len(),
    decreases s.len(),
{
    if s.len() > 0 {
        lemma_normalize_eps(s.drop_last());
        lemma_insert_ep(normalize_eps(s.drop_last()), s.last());
        assert forall|x: Endpoint| #[trigger] normalize_eps(s).contains(x) implies s.contains(
            x,
        ) by {
            if normalize_eps(s.drop_last()).contains(x) {
                assert(s.drop_last().contains(x));
                let i = choose|i: int| 0 <= i < s.drop_last().len() && s.drop_last()[i] == x;
                assert(s[i] == x);
            } else {
                assert(x == s.last());
                assert(s[s.len() - 1] == x);
            }
        }
        assert forall|x: Endpoint| s.contains(x) implies #[trigger] normalize_eps(s).contains(
            x,
        ) by {
            let i = choose|i: int| 0 <= i < s.len() && s[i] == x;
            if i < s.len() - 1 {
                assert(s.drop_last()[i] == x);
                assert(s.drop_last().contains(x));
            } else {
                assert(x == s.last());
            }
        }
    }
}

/// Two sorted, duplicate-free sequences with the same elements are equal.
pub proof fn lemma_sorted_unique(a: Seq<Endpoint>, b: Seq<Endpoint>)
    requires
        eps_sorted(a),
        eps_sorted(b),
        forall|x: Endpoint| #[trigger] a.contains(x) <==> b.contains(x),
    ensures
        a == b,
    decreases a.len(),
{
    if a.len() == 0 {
        if b.len() > 0 {
            assert(b.contains(b[0]));
            assert(!a.contains(b[0]));
            assert(false);
        }
        assert(a =~= b);
    } else {
        assert(a.contains(a[0]));
        assert(b.contains(a[0]));
        if b.len() == 0 {
            assert(false);
        }
        // The heads are both the unique minimum of the common element set.
        assert(a[0] == b[0]) by {
            let i = choose|i: int| 0 <= i < b.len() && b[i] == a[0];
            if i > 0 {
                assert(ep_lt(b[0], a[0]));
                assert(a.contains(b[0]));
                let k = choose|k: int| 0 <= k < a.len() && a[k] == b[0];
                if k > 0 {
                    assert(ep_lt(a[0], a[k]));
                    assert(false);
                } else {
                    assert(false);
                }
            }
        }
        let ta = a.subrange(1, a.len() as int);
        let tb = b.subrange(1, b.len() as int);
        assert(eps_sorted(ta)) by {
            assert forall|i: int, j: int| 0 <= i < j < ta.len() implies ep_lt(ta[i], ta[j]) by {
                assert(ta[i] == a[i + 1] && ta[j] == a[j + 1]);
            }
        }
        assert(eps_sorted(tb)) by {
            assert forall|i: int, j: int| 0 <= i < j < tb.len() implies ep_lt(tb[i], tb[j]) by {
                assert(tb[i] == b[i + 1] && tb[j] == b[j + 1]);
            }
        }
        assert forall|x: Endpoint| #[trigger] ta.contains(x) implies tb.contains(x) by {
            let i = choose|i: int| 0 <= i < ta.len() && ta[i] == x;
            assert(a[i + 1] == x);
            assert(a.contains(x));
            assert(b.contains(x));
            let j = choose|j: int| 0 <= j < b.len() && b[j] == x;
            if j == 0 {
                assert(x == a[0]);
                assert(ep_lt(a[0], a[i + 1]));
                assert(false);
            } else {
                assert(tb[j - 1] == x);
            }
        }
        assert forall|x: Endpoint| #[trigger] tb.contains(x) implies ta.contains(x) by {
            let i = choose|i: int| 0 <= i < tb.len() && tb[i] == x;
            assert(b[i + 1] == x);
            assert(b.contains(x));
            assert(a.contains(x));
            let j = choose|j: int| 0 <= j < a.len() && a[j] == x;
            if j == 0 {
                assert(x == b[0]);
                assert(ep_lt(b[0], b[i + 1]));
                assert(false);
            } else {
                assert(ta[j - 1] == x);
            }
        }
        lemma_sorted_unique(ta, tb);
        assert(a.len() == b.len());
        assert forall|i: int| 0 <= i < a.len() implies a[i] == b[i] by {
            if i > 0 {
                assert(ta[i - 1] == tb[i - 1]);
            }
        }
        assert(a =~= b);
    }
}

/// Normal forms depend only on the element set: inputs holding the same
/// endpoints in any order and multiplicity normalize identically.
pub proof fn lemma_normalize_same_set(a: Seq<Endpoint>, b: Seq<Endpoint>)
    requires
        forall|x: Endpoint| #[trigger] a.contains(x) <==> b.contains(x),
    ensures
        normalize_eps(a) == normalize_eps(b),
{
    lemma_normalize_eps(a);
    lemma_normalize_eps(b);
    lemma_sorted_unique(normalize_eps(a), normalize_eps(b));
}

/// Inserts `e` into a vector whose contents are sorted and duplicate-free.
fn insert_ep_exec(v: &Vec<Endpoint>, e: Endpoint) -> (r: Vec<Endpoint>)
    ensures
        r@ == insert_ep(v@, e),
    decreases v@.len(),
{
    if v.len() == 0 {
        let mut r: Vec<Endpoint> = Vec::new();
        r.push(e);
        proof {
            assert(r@ =~= insert_ep(v@, e));
        }
        r
    } else {
        let head = v[0];
        if e.less_than(&head) {
            let mut r: Vec<Endpoint> = Vec::new();
            r.push(e);
            let mut k: usize = 0;
            while k < v.len()
                invariant
                    k <= v@.len(),
                    r@ =~= seq![e] + v@.subrange(0, k as int),
                decreases v@.len() - k,
            {
                r.push(v[k]);
                proof {
                    assert(r@ =~= seq![e] + v@.subrange(0, k + 1));
                }
                k = k + 1;
            }
            proof {
                assert(v@.subrange(0, v@.len() as int) =~= v@);
                assert(r@ =~= insert_ep(v@, e));
            }
            r
        } else if e == head {
            let mut r: Vec<Endpoint> = Vec::new();
            let mut k: usize = 0;
            while k < v.len()
                invariant
                    k <= v@.len(),
                    r@ =~= v@.subrange(0, k as int),
                decreases v@.len() - k,
            {
                r.push(v[k]);
                proof {
                    assert(r@ =~= v@.subrange(0, k + 1));
                }
                k = k + 1;
            }
            proof {
                assert(r@ =~= v@);
            }
            r
        } else {
            let mut rest: Vec<Endpoint> = Vec::new();
            let mut k: usize = 1;
            while k < v.len()
                invariant
                    1 <= k <= v@.len(),
                    rest@ =~= v@.subrange(1, k as int),
                decreases v@.len() - k,
            {
                rest.push(v[k]);
                proof {
                    assert(rest@ =~= v@.subrange(1, k + 1));
                }
                k = k + 1;
            }
            let sub = insert_ep_exec(&rest, e);
            let mut r: Vec<Endpoint> = Vec::new();
            r.push(head);
            let mut k2: usize = 0;
            while k2 < sub.len()
                invariant
                    k2 <= sub@.len(),
                    r@ =~= seq![head] + sub@.subrange(0, k2 as int),
                decreases sub@.len() - k2,
            {
                r.push(sub[k2]);
                proof {
                    assert(r@ =~= seq![head] + sub@.subrange(0, k2 + 1));
                }
                k2 = k2 + 1;
            }
            proof {
                assert(sub@.subrange(0, sub@.len() as int) =~= sub@);
                assert(r@ =~= seq![head] + sub@);
                assert(r@ =~= insert_ep(v@, e));
            }
            r
        }
    }
}

/// Sorts and deduplicates an endpoint list into its normal form.
fn sort_dedup_eps(input: &Vec<Endpoint>) -> (r: Vec<Endpoint>)
    ensures
        r@ == normalize_eps(input@),
{
    let mut acc: Vec<Endpoint> = Vec::new();
    let mut k: usize = 0;
    proof {
        assert(input@.subrange(0, 0) =~= Seq::<Endpoint>::empty());
    }
    while k < input.len()
        invariant
            k <= input@.len(),
            acc@ == normalize_eps(input@.subrange(0, k as int)),
        decreases input@.len() - k,
    {
        let next = insert_ep_exec(&acc, input[k]);
        proof {
            let pre = input@.subrange(0, k + 1);
            assert(pre.drop_last() =~= input@.subrange(0, k as int));
            assert(pre.last() == input@[k as int]);
        }
        acc = next;
        k = k + 1;
    }
    proof {
        assert(input@.subrange(0, input@.len() as int) =~= input@);
    }
    acc
}

// ---------------------------------------------------------------------------
// Wire form.
// ---------------------------------------------------------------------------

/// The concatenated wire forms of an endpoint list.
pub open spec fn eps_bytes(s: Seq<Endpoint>) -> Seq<u8>
    decreases s.len(),
{
    if s.len() == 0 {
        Seq::empty()
    } else {
        endpoint_bytes(s[0]) + eps_bytes(s.subrange(1, s.len() as int))
    }
}

pub proof fn lemma_eps_bytes_len(s: Seq<Endpoint>)
    ensures
        eps_bytes(s).len() == ENDPOINT_SIZE * s.len(),
    decreases s.len(),
{
    if s.len() > 0 {
        lemma_endpoint_bytes_len(s[0]);
        lemma_eps_bytes_len(s.subrange(1, s.len() as int));
    }
}

/// Appending one endpoint appends its bytes.
pub proof fn lemma_eps_bytes_push(s: Seq<Endpoint>, e: Endpoint)
    ensures
        eps_bytes(s.push(e)) == eps_bytes(s) + endpoint_bytes(e),
    decreases s.len(),
{
    let p = s.push(e);
    if s.len() == 0 {
        assert(p.subrange(1, p.len() as int) =~= Seq::<Endpoint>::empty());
        assert(p[0] == e);
        assert(eps_bytes(p) == endpoint_bytes(e) + eps_bytes(p.subrange(1, p.len() as int)));
        assert(endpoint_bytes(e) + Seq::<u8>::empty() =~= Seq::<u8>::empty() + endpoint_bytes(e));
        assert(eps_bytes(p) == eps_bytes(s) + endpoint_bytes(e));
    } else {
        assert(p.subrange(1, p.len() as int) =~= s.subrange(1, s.len() as int).push(e));
        lemma_eps_bytes_push(s.subrange(1, s.len() as int), e);
        assert(p[0] == s[0]);
        let a0 = endpoint_bytes(s[0]);
        let st = eps_bytes(s.subrange(1, s.len() as int));
        let ee = endpoint_bytes(e);
        assert(eps_bytes(p) == a0 + (st + ee));
        assert(eps_bytes(s) == a0 + st);
        assert(a0 + (st + ee) =~= (a0 + st) + ee);
        assert(eps_bytes(p) == eps_bytes(s) + ee);
    }
}

/// The canonical signed payload: every field but the signature.
pub open spec fn payload_bytes(
    subject: Address,
    signer: Address,
    timestamp: i64,
    endpoints: Seq<Endpoint>,
) -> Seq<u8> {
    address_bytes(subject) + address_bytes(signer) + be_bytes(u64_of_i64(timestamp) as nat, 8)
        + varint_bytes(endpoints.len()) + eps_bytes(endpoints) + varint_bytes(0)
}

/// The full wire form: payload, then signature length and signature.
pub open spec fn locator_bytes(l: LocatorView) -> Seq<u8> {
    payload_bytes(l.subject, l.signer, l.timestamp, l.endpoints) + varint_bytes(l.signature.len())
        + l.signature
}

/// Parses a fixed count of endpoints.
pub open spec fn parse_eps_r(s: Seq<u8>, i: int, n: nat) -> Result<(Seq<Endpoint>, int), WireError>
    decreases n,
{
    if n == 0 {
        Ok((Seq::empty(), i))
    } else {
        match parse_endpoint(s, i) {
            Some((e, j)) => match parse_eps_r(s, j, (n - 1) as nat) {
                Ok((tl, k)) => Ok((seq![e] + tl, k)),
                Err(er) => Err(er),
            },
            None => Err(WireError::Truncated),
        }
    }
}

/// Parses a full locator at position `i`: subject, signer, timestamp,
/// endpoint list, a skipped extension field, then the signature.
pub open spec fn parse_locator(s: Seq<u8>, i: int) -> Result<(LocatorView, int), WireError> {
    match parse_address_r(s, i) {
        Err(e) => Err(e),
        Ok((subject, i1)) => match parse_address_r(s, i1) {
            Err(e) => Err(e),
            Ok((signer, i2)) => match parse_be_r(s, i2, 8) {
                Err(e) => Err(e),
                Ok((tsu, i3)) => match parse_varint_r(s, i3) {
                    Err(e) => Err(e),
                    Ok((n, i4)) => match parse_eps_r(s, i4, n as nat) {
                        Err(e) => Err(e),
                        Ok((eps, i5)) => if !eps_sorted(eps) {
                            Err(WireError::NotCanonical)
                        } else {
                            match parse_varint_r(s, i5) {
                            Err(e) => Err(e),
                            Ok((ext, i6)) => if i6 + ext > s.len() {
                                Err(WireError::Truncated)
                            } else {
                                match parse_varint_r(s, i6 + ext) {
                                    Err(e) => Err(e),
                                    Ok((sl, i8)) => if i8 + sl > s.len() {
                                        Err(WireError::Truncated)
                                    } else {
                                        Ok(
                                            (
                                                LocatorView {
                                                    subject,
                                                    signer,
                                                    timestamp: i64_of_u64(tsu),
                                                    endpoints: eps,
                                                    signature: s.subrange(i8, i8 + sl),
                                                },
                                                i8 + sl,
                                            ),
                                        )
                                    },
                                }
                            },
                            }
                        },
                    },
                },
            },
        },
    }
}

/// The locator `create` produces for the given inputs, when it succeeds.
pub open spec fn created_locator(
    signer_identity: Identity,
    subject: Address,
    timestamp: i64,
    endpoints: Seq<Endpoint>,
) -> LocatorView {
    let eps = normalize_eps(endpoints);
    LocatorView {
        subject,
        signer: signer_identity.address,
        timestamp,
        endpoints: eps,
        signature: signature_bytes(
            signer_identity.address,
            payload_bytes(subject, signer_identity.address, timestamp, eps),
        ),
    }
}

/// Whether one locator supersedes another for the same subject: between
/// locators of the same signing class the strictly newer timestamp wins;
/// across classes the self-signed one always wins.
pub open spec fn should_replace_spec(a: LocatorView, b: LocatorView) -> bool {
    if (a.subject != a.signer) == (b.subject != b.signer) {
        a.timestamp > b.timestamp
    } else {
        b.subject != b.signer
    }
}

/// What `verify_signature` checks: the supplied identity speaks for the
/// recorded signer, the payload serializes within capacity, and the held
/// signature is that identity's signature over the payload.
pub open spec fn verify_signature_spec(l: LocatorView, signer_identity: Identity) -> bool {
    &&& payload_bytes(l.subject, l.signer, l.timestamp, l.endpoints).len() <= PACKET_SIZE_MAX
    &&& signer_identity.address == l.signer
    &&& l.signature == signature_bytes(
        signer_identity.address,
        payload_bytes(l.subject, l.signer, l.timestamp, l.endpoints),
    )
}

impl Locator {
    /// Create and sign a new locator.
    ///
    /// The subject is the address the locator describes; proxy signing is
    /// when it differs from the signer's own address. Fails only when the
    /// identity lacks its secret material or the serialized payload would
    /// exceed the wire capacity.
    pub fn create(
        signer_identity: &Identity,
        subject: Address,
        ts: i64,
        endpoints: &Vec<Endpoint>,
    ) -> (r: Option<Locator>)
        requires
            signer_identity.wf(),
            subject.wf(),
        ensures
            match r {
                Some(loc) => {
                    &&& signer_identity.has_secret
                    &&& payload_bytes(
                        subject,
                        signer_identity.address,
                        ts,
                        normalize_eps(endpoints@),
                    ).len() <= PACKET_SIZE_MAX
                    &&& loc@ == created_locator(*signer_identity, subject, ts, endpoints@)
                    &&& locator_wf(loc@)
                    &&& eps_sorted(loc@.endpoints)
                },
                None => !signer_identity.has_secret || payload_bytes(
                    subject,
                    signer_identity.address,
                    ts,
                    normalize_eps(endpoints@),
                ).len() > PACKET_SIZE_MAX,
            },
    {
        let eps = sort_dedup_eps(endpoints);
        proof {
            lemma_normalize_eps(endpoints@);
        }
        let mut loc = Locator {
            subject,
            signer: signer_identity.address(),
            timestamp: ts,
            endpoints: eps,
            signature: Vec::new(),
        };
        let payload = match loc.marshal_internal(true) {
            Ok(p) => p,
            Err(_) => {
                return None;
            },
        };
        match signer_identity.sign(&payload) {
            Some(sig) => {
                loc.signature = sig;
                Some(loc)
            },
            None => None,
        }
    }

    /// Check if this locator should replace one that is already known.
    pub fn should_replace(&self, other: &Self) -> (r: bool)
        ensures
            r == should_replace_spec(self@, other@),
    {
        if self.is_proxy_signed() == other.is_proxy_signed() {
            self.timestamp > other.timestamp
        } else {
            other.is_proxy_signed()
        }
    }

    /// The address this locator describes.
    pub fn subject(&self) -> (r: Address)
        ensures
            r == self@.subject,
    {
        self.subject
    }

    /// The address that signed this locator.
    pub fn signer(&self) -> (r: Address)
        ensures
            r == self@.signer,
    {
        self.signer
    }

    /// True when someone other than the subject signed on its behalf.
    pub fn is_proxy_signed(&self) -> (r: bool)
        ensures
            r == (self@.subject != self@.signer),
    {
        !(self.subject == self.signer)
    }

    /// The signer-clock creation time.
    pub fn timestamp(&self) -> (r: i64)
        ensures
            r == self@.timestamp,
    {
        self.timestamp
    }

    /// The sorted endpoint list.
    pub fn endpoints(&self) -> (r: &Vec<Endpoint>)
        ensures
            r@ == self@.endpoints,
    {
        &self.endpoints
    }

    /// Checks the stored signature against the supplied identity, which
    /// must speak for the recorded signer. Purely advisory: false on any
    /// mismatch, never an error.
    pub fn verify_signature(&self, signer_identity: &Identity) -> (r: bool)
        requires
            locator_wf(self@),
            signer_identity.wf(),
        ensures
            r == verify_signature_spec(self@, *signer_identity),
    {
        match self.marshal_internal(true) {
            Ok(payload) => {
                if signer_identity.address() == self.signer {
                    signer_identity.verify(&payload, &self.signature)
                } else {
                    false
                }
            },
            Err(_) => false,
        }
    }

    /// Serializes every field but the signature (`exclude_signature`),
    /// or the full wire form. Fails exactly when the result would exceed
    /// the wire capacity.
    fn marshal_internal(&self, exclude_signature: bool) -> (r: Result<Vec<u8>, WireError>)
        requires
            locator_wf(self@),
        ensures
            match r {
                Ok(v) => {
                    &&& v@ == if exclude_signature {
                        payload_bytes(self@.subject, self@.signer, self@.timestamp, self@.endpoints)
                    } else {
                        locator_bytes(self@)
                    }
                    &&& v@.len() <= PACKET_SIZE_MAX
                },
                Err(e) => {
                    &&& e == WireError::Overflow
                    &&& (if exclude_signature {
                        payload_bytes(self@.subject, self@.signer, self@.timestamp, self@.endpoints)
                    } else {
                        locator_bytes(self@)
                    }).len() > PACKET_SIZE_MAX
                },
            },
    {
        proof {
            lemma_eps_bytes_len(self@.endpoints);
            lemma_address_bytes_len_pair(self@.subject, self@.signer);
            lemma_be_bytes_len(u64_of_i64(self@.timestamp) as nat, 8);
            lemma_varint_len_u64(self@.endpoints.len() as u64);
            lemma_varint_len_u64(self@.signature.len() as u64);
            assert(varint_bytes(0).len() == 1);
        }
        if self.endpoints.len() > PACKET_SIZE_MAX {
            return Err(WireError::Overflow);
        }
        if !exclude_signature && self.signature.len() > PACKET_SIZE_MAX {
            return Err(WireError::Overflow);
        }
        let mut buf: Vec<u8> = Vec::new();
        self.subject.marshal(&mut buf);
        self.signer.marshal(&mut buf);
        proof {
            assert(pow256(8) == 0x10000000000000000nat) by {
                reveal_with_fuel(pow256, 9);
            }
        }
        write_be(&mut buf, ts_to_wire(self.timestamp), 8);
        write_varint(&mut buf, self.endpoints.len() as u64);
        let ghost pre_eps = buf@;
        let mut k: usize = 0;
        proof {
            assert(self@.endpoints.subrange(0, 0) =~= Seq::<Endpoint>::empty());
            assert(buf@ =~= pre_eps + eps_bytes(self@.endpoints.subrange(0, 0)));
        }
        while k < self.endpoints.len()
            invariant
                k <= self@.endpoints.len(),
                self@.endpoints.len() <= PACKET_SIZE_MAX,
                pre_eps.len() <= 28 + PACKET_SIZE_MAX,
                buf@ == pre_eps + eps_bytes(self@.endpoints.subrange(0, k as int)),
            decreases self@.endpoints.len() - k,
        {
            proof {
                lemma_eps_bytes_len(self@.endpoints.subrange(0, k as int));
            }
            self.endpoints[k].marshal(&mut buf);
            proof {
                let pre = self@.endpoints.subrange(0, k as int);
                assert(self@.endpoints.subrange(0, k + 1) =~= pre.push(self@.endpoints[k as int]));
                lemma_eps_bytes_push(pre, self@.endpoints[k as int]);
                assert(buf@ =~= pre_eps + eps_bytes(self@.endpoints.subrange(0, k + 1)));
            }
            k = k + 1;
        }
        proof {
            assert(self@.endpoints.subrange(0, self@.endpoints.len() as int) =~= self@.endpoints);
        }
        write_varint(&mut buf, 0);
        proof {
            assert(buf@ =~= payload_bytes(
                self@.subject,
                self@.signer,
                self@.timestamp,
                self@.endpoints,
            ));
        }
        if !exclude_signature {
            write_varint(&mut buf, self.signature.len() as u64);
            append_bytes(&mut buf, &self.signature);
            proof {
                assert(buf@ =~= locator_bytes(self@));
            }
        }
        if buf.len() > PACKET_SIZE_MAX {
            Err(WireError::Overflow)
        } else {
            Ok(buf)
        }
    }

    /// Serializes the full wire form, signature included.
    pub fn marshal(&self) -> (r: Result<Vec<u8>, WireError>)
        requires
            locator_wf(self@),
        ensures
            match r {
                Ok(v) => v@ == locator_bytes(self@) && v@.len() <= PACKET_SIZE_MAX,
                Err(e) => e == WireError::Overflow && locator_bytes(self@).len()
                    > PACKET_SIZE_MAX,
            },
    {
        self.marshal_internal(false)
    }

    /// Reads a locator at `*cursor`, advancing it past the locator on
    /// success and leaving it unchanged on failure. Unknown trailing
    /// extension bytes are skipped, not rejected; an endpoint list that
    /// is not in canonical sorted, duplicate-free form is rejected, so
    /// every constructed locator carries the normalization invariant.
    #[verifier::loop_isolation(false)]
    pub fn unmarshal(s: &Vec<u8>, cursor: &mut usize) -> (r: Result<Locator, WireError>)
        ensures
            match r {
                Ok(loc) => {
                    &&& parse_locator(s@, *old(cursor) as int) == Ok::<_, WireError>(
                        (loc@, *final(cursor) as int),
                    )
                    &&& *final(cursor) <= s@.len()
                    &&& locator_wf(loc@)
                    &&& eps_sorted(loc@.endpoints)
                },
                Err(e) => {
                    &&& parse_locator(s@, *old(cursor) as int) == Err::<(LocatorView, int), _>(e)
                    &&& *final(cursor) == *old(cursor)
                },
            },
    {
        let start: usize = *cursor;
        let (subject, i1) = match Address::unmarshal(s, start) {
            Ok(x) => x,
            Err(e) => {
                return Err(e);
            },
        };
        let (signer, i2) = match Address::unmarshal(s, i1) {
            Ok(x) => x,
            Err(e) => {
                return Err(e);
            },
        };
        let (tsu, i3) = match crate::codec::read_be(s, i2, 8) {
            Ok(x) => x,
            Err(e) => {
                return Err(e);
            },
        };
        proof {
            crate::codec::lemma_be_val_bound(s@.subrange(i2 as int, i2 + 8));
            assert(pow256(8) == 0x10000000000000000nat) by {
                reveal_with_fuel(pow256, 9);
            }
            assert(parse_be_r(s@, i2 as int, 8) == Ok::<_, WireError>((tsu, i3 as int)));
        }
        let timestamp = wire_to_ts(tsu);
        let (n, i4) = match read_varint(s, i3) {
            Ok(x) => x,
            Err(e) => {
                return Err(e);
            },
        };
        proof {
            assert(parse_varint_r(s@, i3 as int) == Ok::<_, WireError>((n, i4 as int)));
        }
        let mut endpoints: Vec<Endpoint> = Vec::new();
        let mut cur: usize = i4;
        let mut k: u64 = 0;
        proof {
            assert(endpoints@ =~= Seq::<Endpoint>::empty());
            if let Ok(tl) = parse_eps_r(s@, i4 as int, n as nat) {
                assert(endpoints@ + tl.0 =~= tl.0);
            }
        }
        while k < n
            invariant
                k <= n,
                cur <= s@.len(),
                endpoints@.len() == k,
                match parse_eps_r(s@, cur as int, (n - k) as nat) {
                    Ok(tl) => parse_eps_r(s@, i4 as int, n as nat) == Ok::<_, WireError>(
                        (endpoints@ + tl.0, tl.1),
                    ),
                    Err(e) => parse_eps_r(s@, i4 as int, n as nat) == Err::<
                        (Seq<Endpoint>, int),
                        _,
                    >(e),
                },
            decreases n - k,
        {
            let (e, j) = match Endpoint::unmarshal(s, cur) {
                Ok(x) => x,
                Err(er) => {
                    proof {
                        assert(parse_eps_r(s@, cur as int, (n - k) as nat) == Err::<
                            (Seq<Endpoint>, int),
                            _,
                        >(WireError::Truncated));
                        assert(parse_locator(s@, start as int) == Err::<(LocatorView, int), _>(
                            WireError::Truncated,
                        ));
                    }
                    return Err(er);
                },
            };
            proof {
                assert(parse_eps_r(s@, cur as int, (n - k) as nat) == (match parse_eps_r(
                    s@,
                    j as int,
                    (n - k - 1) as nat,
                ) {
                    Ok(tl2) => Ok::<_, WireError>((seq![e] + tl2.0, tl2.1)),
                    Err(er2) => Err::<(Seq<Endpoint>, int), _>(er2),
                }));
            }
            let ghost pre = endpoints@;
            endpoints.push(e);
            proof {
                assert(endpoints@ == pre.push(e));
                if let Ok(tl2) = parse_eps_r(s@, j as int, (n - k - 1) as nat) {
                    assert(endpoints@ + tl2.0 =~= pre + (seq![e] + tl2.0));
                }
            }
            cur = j;
            k = k + 1;
        }
        proof {
            assert(parse_eps_r(s@, cur as int, 0) == Ok::<_, WireError>(
                (Seq::<Endpoint>::empty(), cur as int),
            ));
            assert(endpoints@ + Seq::<Endpoint>::empty() =~= endpoints@);
            assert(parse_eps_r(s@, i4 as int, n as nat) == Ok::<_, WireError>(
                (endpoints@, cur as int),
            ));
        }
        if !eps_strictly_sorted(&endpoints) {
            return Err(WireError::NotCanonical);
        }
        let (ext, i6) = match read_varint(s, cur) {
            Ok(x) => x,
            Err(e) => {
                return Err(e);
            },
        };
        if ext > (s.len() - i6) as u64 {
            return Err(WireError::Truncated);
        }
        let i7: usize = i6 + (ext as usize);
        let (sl, i8) = match read_varint(s, i7) {
            Ok(x) => x,
            Err(e) => {
                return Err(e);
            },
        };
        if sl > (s.len() - i8) as u64 {
            return Err(WireError::Truncated);
        }
        let (signature, end) = match read_bytes(s, i8, sl as usize) {
            Ok(x) => x,
            Err(_) => {
                return Err(WireError::Truncated);
            },
        };
        *cursor = end;
        Ok(Locator { subject, signer, timestamp, endpoints, signature })
    }
}

// ---------------------------------------------------------------------------
// Natural order: subject, then timestamp ascending, then signer, then the
// endpoint sequence lexicographically. Independent of `should_replace`;
// it exists so locators can key ordered containers and deduplication sets.
// ---------------------------------------------------------------------------

/// Lexicographic strict order on endpoint sequences; a proper prefix is
/// smaller.
pub open spec fn eps_lex_lt(a: Seq<Endpoint>, b: Seq<Endpoint>) -> bool
    decreases a.len(),
{
    if b.len() == 0 {
        false
    } else if a.len() == 0 {
        true
    } else if ep_lt(a[0], b[0]) {
        true
    } else if a[0] == b[0] {
        eps_lex_lt(a.subrange(1, a.len() as int), b.subrange(1, b.len() as int))
    } else {
        false
    }
}

/// The natural strict order on locators. The signature takes no part.
pub open spec fn locator_lt(a: LocatorView, b: LocatorView) -> bool {
    ||| a.subject.0 < b.subject.0
    ||| (a.subject == b.subject && a.timestamp < b.timestamp)
    ||| (a.subject == b.subject && a.timestamp == b.timestamp && a.signer.0 < b.signer.0)
    ||| (a.subject == b.subject && a.timestamp == b.timestamp && a.signer == b.signer
        && eps_lex_lt(a.endpoints, b.endpoints))
}

/// Equality under the natural order: every ordering key agrees.
pub open spec fn locator_ord_eq(a: LocatorView, b: LocatorView) -> bool {
    &&& a.subject == b.subject
    &&& a.timestamp == b.timestamp
    &&& a.signer == b.signer
    &&& a.endpoints == b.endpoints
}

proof fn lemma_eps_lex_lt_asym(a: Seq<Endpoint>, b: Seq<Endpoint>)
    ensures
        !(eps_lex_lt(a, b) && eps_lex_lt(b, a)),
    decreases a.len(),
{
    if a.len() > 0 && b.len() > 0 && a[0] == b[0] {
        lemma_eps_lex_lt_asym(a.subrange(1, a.len() as int), b.subrange(1, b.len() as int));
    }
}

proof fn lemma_eps_lex_lt_trans(a: Seq<Endpoint>, b: Seq<Endpoint>, c: Seq<Endpoint>)
    requires
        eps_lex_lt(a, b),
        eps_lex_lt(b, c),
    ensures
        eps_lex_lt(a, c),
    decreases a.len(),
{
    if a.len() > 0 && b.len() > 0 && c.len() > 0 && a[0] == b[0] && b[0] == c[0] {
        lemma_eps_lex_lt_trans(
            a.subrange(1, a.len() as int),
            b.subrange(1, b.len() as int),
            c.subrange(1, c.len() as int),
        );
    }
}

proof fn lemma_eps_lex_lt_total(a: Seq<Endpoint>, b: Seq<Endpoint>)
    ensures
        eps_lex_lt(a, b) || eps_lex_lt(b, a) || a == b,
    decreases a.len(),
{
    if a.len() == 0 && b.len() == 0 {
        assert(a =~= b);
    } else if a.len() > 0 && b.len() > 0 && !ep_lt(a[0], b[0]) && !ep_lt(b[0], a[0]) {
        assert(a[0] == b[0]);
        let ta = a.subrange(1, a.len() as int);
        let tb = b.subrange(1, b.len() as int);
        lemma_eps_lex_lt_total(ta, tb);
        if ta == tb {
            assert forall|i: int| 0 <= i < a.len() implies a[i] == b[i] by {
                if i > 0 {
                    assert(ta[i - 1] == tb[i - 1]);
                }
            }
            assert(a =~= b);
        }
    }
}

/// The natural order never holds both ways.
pub proof fn lemma_locator_order_antisymmetric(a: LocatorView, b: LocatorView)
    ensures
        !(locator_lt(a, b) && locator_lt(b, a)),
{
    lemma_eps_lex_lt_asym(a.endpoints, b.endpoints);
}

/// The natural order is transitive.
pub proof fn lemma_locator_order_transitive(a: LocatorView, b: LocatorView, c: LocatorView)
    requires
        locator_lt(a, b),
        locator_lt(b, c),
    ensures
        locator_lt(a, c),
{
    if eps_lex_lt(a.endpoints, b.endpoints) && eps_lex_lt(b.endpoints, c.endpoints) {
        lemma_eps_lex_lt_trans(a.endpoints, b.endpoints, c.endpoints);
    }
}

/// The natural order is total: two locators are strictly ordered one way
/// or the other, or agree on every ordering key.
pub proof fn lemma_locator_order_total(a: LocatorView, b: LocatorView)
    ensures
        locator_lt(a, b) || locator_lt(b, a) || locator_ord_eq(a, b),
{
    lemma_eps_lex_lt_total(a.endpoints, b.endpoints);
}

/// Three-way comparison of endpoint lists from position `i` on.
fn eps_cmp_from(a: &Vec<Endpoint>, b: &Vec<Endpoint>, i: usize) -> (r: core::cmp::Ordering)
    requires
        i <= a@.len(),
        i <= b@.len(),
    ensures
        (r == core::cmp::Ordering::Less) == eps_lex_lt(a@.skip(i as int), b@.skip(i as int)),
        (r == core::cmp::Ordering::Greater) == eps_lex_lt(b@.skip(i as int), a@.skip(i as int)),
        (r == core::cmp::Ordering::Equal) == (a@.skip(i as int) == b@.skip(i as int)),
    decreases a@.len() - i,
{
    let ghost xa = a@.skip(i as int);
    let ghost xb = b@.skip(i as int);
    if i == a.len() && i == b.len() {
        proof {
            assert(xa =~= xb);
        }
        core::cmp::Ordering::Equal
    } else if i == a.len() {
        proof {
            assert(xa.len() == 0 && xb.len() > 0);
        }
        core::cmp::Ordering::Less
    } else if i == b.len() {
        proof {
            assert(xb.len() == 0 && xa.len() > 0);
        }
        core::cmp::Ordering::Greater
    } else {
        let ea = a[i];
        let eb2 = b[i];
        proof {
            assert(xa[0] == a@[i as int] && xb[0] == b@[i as int]);
        }
        if ea.less_than(&eb2) {
            proof {
                assert(xa != xb) by {
                    if xa == xb {
                        assert(xa[0] == xb[0]);
                    }
                }
            }
            core::cmp::Ordering::Less
        } else if eb2.less_than(&ea) {
            proof {
                assert(xa != xb) by {
                    if xa == xb {
                        assert(xa[0] == xb[0]);
                    }
                }
            }
            core::cmp::Ordering::Greater
        } else {
            proof {
                assert(ea == eb2);
            }
            let sub = eps_cmp_from(a, b, i + 1);
            proof {
                let ta = a@.skip(i as int + 1);
                let tb = b@.skip(i as int + 1);
                assert(xa.subrange(1, xa.len() as int) =~= ta);
                assert(xb.subrange(1, xb.len() as int) =~= tb);
                assert(eps_lex_lt(xa, xb) == eps_lex_lt(ta, tb));
                assert(eps_lex_lt(xb, xa) == eps_lex_lt(tb, ta));
                assert((xa == xb) == (ta == tb)) by {
                    if ta == tb {
                        assert forall|m: int| 0 <= m < xa.len() implies xa[m] == xb[m] by {
                            if m > 0 {
                                assert(ta[m - 1] == tb[m - 1]);
                            }
                        }
                        assert(xa =~= xb);
                    }
                    if xa == xb {
                        assert(xa.subrange(1, xa.len() as int) == xb.subrange(
                            1,
                            xb.len() as int,
                        ));
                    }
                }
            }
            sub
        }
    }
}

/// Whether two endpoint lists are equal.
fn eps_eq(a: &Vec<Endpoint>, b: &Vec<Endpoint>) -> (r: bool)
    ensures
        r == (a@ == b@),
{
    if a.len() != b.len() {
        proof {
            assert(a@ != b@);
        }
        false
    } else {
        let mut k: usize = 0;
        while k < a.len()
            invariant
                k <= a@.len(),
                a@.len() == b@.len(),
                forall|j: int| 0 <= j < k ==> a@[j] == b@[j],
            decreases a@.len() - k,
        {
            if !(a[k] == b[k]) {
                proof {
                    assert(a@ != b@);
                }
                return false;
            }
            k = k + 1;
        }
        proof {
            assert(a@ =~= b@);
        }
        true
    }
}

impl Locator {
    /// Three-way comparison in the natural order: subject, timestamp,
    /// signer, then the endpoint sequence.
    pub fn order_cmp(&self, other: &Self) -> (r: core::cmp::Ordering)
        ensures
            (r == core::cmp::Ordering::Less) == locator_lt(self@, other@),
            (r == core::cmp::Ordering::Greater) == locator_lt(other@, self@),
            (r == core::cmp::Ordering::Equal) == locator_ord_eq(self@, other@),
    {
        if self.subject.0 < other.subject.0 {
            core::cmp::Ordering::Less
        } else if other.subject.0 < self.subject.0 {
            core::cmp::Ordering::Greater
        } else if self.timestamp < other.timestamp {
            core::cmp::Ordering::Less
        } else if other.timestamp < self.timestamp {
            core::cmp::Ordering::Greater
        } else if self.signer.0 < other.signer.0 {
            core::cmp::Ordering::Less
        } else if other.signer.0 < self.signer.0 {
            core::cmp::Ordering::Greater
        } else {
            proof {
                assert(self@.endpoints.skip(0) =~= self@.endpoints);
                assert(other@.endpoints.skip(0) =~= other@.endpoints);
            }
            eps_cmp_from(&self.endpoints, &other.endpoints, 0)
        }
    }
}

impl PartialEq for Locator {
    /// Deep equality of every field, signature included.
    fn eq(&self, other: &Self) -> (r: bool) {
        let fields_eq = self.subject == other.subject && self.signer == other.signer
            && self.timestamp == other.timestamp;
        if !fields_eq {
            proof {
                assert(self@ != other@);
            }
            false
        } else {
            let r = eps_eq(&self.endpoints, &other.endpoints) && bytes_eq(
                &self.signature,
                &other.signature,
            );
            proof {
                if r {
                    assert(self@ =~= other@);
                }
            }
            r
        }
    }
}

impl vstd::std_specs::cmp::PartialEqSpecImpl for Locator {
    open spec fn obeys_eq_spec() -> bool {
        true
    }

    open spec fn eq_spec(&self, other: &Locator) -> bool {
        self@ == other@
    }
}

// ---------------------------------------------------------------------------
// The identity-hash key: the bytes a hasher should see. A signed locator
// is identified by its signature alone — the signature is unforgeable and
// unique per signed content — with a fallback for the unsigned case.
// ---------------------------------------------------------------------------

/// The bytes that identify a locator for hashing.
pub open spec fn identity_hash_input(l: LocatorView) -> Seq<u8> {
    if l.signature.len() > 0 {
        l.signature
    } else {
        address_bytes(l.signer) + be_bytes(u64_of_i64(l.timestamp) as nat, 8) + eps_bytes(
            l.endpoints,
        )
    }
}

impl Locator {
    /// The key a hash table should feed its hasher for this locator:
    /// the signature bytes when present, else signer, timestamp and
    /// endpoints.
    #[verifier::loop_isolation(false)]
    pub fn identity_hash_bytes(&self) -> (r: Vec<u8>)
        requires
            locator_wf(self@),
            ENDPOINT_SIZE * self@.endpoints.len() + 13 <= usize::MAX,
        ensures
            r@ == identity_hash_input(self@),
    {
        if self.signature.len() > 0 {
            let mut v: Vec<u8> = Vec::new();
            append_bytes(&mut v, &self.signature);
            v
        } else {
            proof {
                lemma_eps_bytes_len(self@.endpoints);
                lemma_address_bytes_len_pair(self@.subject, self@.signer);
                lemma_be_bytes_len(u64_of_i64(self@.timestamp) as nat, 8);
                assert(pow256(8) == 0x10000000000000000nat) by {
                    reveal_with_fuel(pow256, 9);
                }
            }
            let mut buf: Vec<u8> = Vec::new();
            self.signer.marshal(&mut buf);
            write_be(&mut buf, ts_to_wire(self.timestamp), 8);
            let ghost pre_eps = buf@;
            let mut k: usize = 0;
            proof {
                assert(self@.endpoints.subrange(0, 0) =~= Seq::<Endpoint>::empty());
                assert(buf@ =~= pre_eps + eps_bytes(self@.endpoints.subrange(0, 0)));
            }
            while k < self.endpoints.len()
                invariant
                    k <= self@.endpoints.len(),
                    buf@ == pre_eps + eps_bytes(self@.endpoints.subrange(0, k as int)),
                decreases self@.endpoints.len() - k,
            {
                proof {
                    lemma_eps_bytes_len(self@.endpoints.subrange(0, k as int));
                }
                self.endpoints[k].marshal(&mut buf);
                proof {
                    let pre = self@.endpoints.subrange(0, k as int);
                    assert(self@.endpoints.subrange(0, k + 1) =~= pre.push(
                        self@.endpoints[k as int],
                    ));
                    lemma_eps_bytes_push(pre, self@.endpoints[k as int]);
                    assert(buf@ =~= pre_eps + eps_bytes(self@.endpoints.subrange(0, k + 1)));
                }
                k = k + 1;
            }
            proof {
                assert(self@.endpoints.subrange(0, self@.endpoints.len() as int)
                    =~= self@.endpoints);
                assert(buf@ =~= identity_hash_input(self@));
            }
            buf
        }
    }
}

// ---------------------------------------------------------------------------
// Laws.
// ---------------------------------------------------------------------------

/// Wherever an endpoint list's wire bytes sit in a buffer, parsing that
/// many endpoints from their start yields the list and stops just past it.
pub proof fn lemma_eps_roundtrip(s: Seq<u8>, i: int, eps: Seq<Endpoint>)
    requires
        0 <= i,
        i + eps_bytes(eps).len() <= s.len(),
        s.subrange(i, i + eps_bytes(eps).len()) == eps_bytes(eps),
    ensures
        parse_eps_r(s, i, eps.len()) == Ok::<_, WireError>((eps, i + eps_bytes(eps).len())),
    decreases eps.len(),
{
    if eps.len() == 0 {
        assert(eps =~= Seq::<Endpoint>::empty());
    } else {
        let e0 = eps[0];
        let tail = eps.subrange(1, eps.len() as int);
        let eb0 = endpoint_bytes(e0);
        let ebt = eps_bytes(tail);
        lemma_endpoint_bytes_len(e0);
        lemma_eps_bytes_len(tail);
        crate::codec::lemma_split_at(s, i, eb0, ebt);
        lemma_endpoint_roundtrip(s, i, e0);
        let j = i + ENDPOINT_SIZE;
        lemma_eps_roundtrip(s, j, tail);
        assert(seq![e0] + tail =~= eps);
    }
}

/// Round trip: the wire form of any locator in canonical form — as
/// `create` produces — parses back to the same subject, signer,
/// timestamp, endpoint sequence and signature, consuming exactly its
/// own bytes.
#[verifier::rlimit(100)]
pub proof fn lemma_locator_roundtrip(l: LocatorView)
    requires
        locator_wf(l),
        eps_sorted(l.endpoints),
        l.endpoints.len() <= u64::MAX,
        l.signature.len() <= u64::MAX,
    ensures
        parse_locator(locator_bytes(l), 0) == Ok::<_, WireError>(
            (l, locator_bytes(l).len() as int),
        ),
{
    let a1 = address_bytes(l.subject);
    let a2 = address_bytes(l.signer);
    let t8 = be_bytes(u64_of_i64(l.timestamp) as nat, 8);
    let nv = varint_bytes(l.endpoints.len());
    let eb = eps_bytes(l.endpoints);
    let z = varint_bytes(0);
    let sv = varint_bytes(l.signature.len());
    let sg = l.signature;
    let s = locator_bytes(l);

    crate::address::lemma_address_roundtrip(l.subject);
    crate::address::lemma_address_roundtrip(l.signer);
    lemma_be_bytes_len(u64_of_i64(l.timestamp) as nat, 8);
    lemma_eps_bytes_len(l.endpoints);
    assert(z.len() == 1);

    let r7 = sv + sg;
    let r6 = z + r7;
    let r5 = eb + r6;
    let r4 = nv + r5;
    let r3 = t8 + r4;
    let r2 = a2 + r3;
    assert(s =~= a1 + r2);
    assert(s.subrange(0, s.len() as int) =~= s);

    crate::codec::lemma_split_at(s, 0, a1, r2);
    lemma_address_parse(s, 0, l.subject);
    let o1 = a1.len() as int;
    crate::codec::lemma_split_at(s, o1, a2, r3);
    lemma_address_parse(s, o1, l.signer);
    let o2 = o1 + ADDRESS_SIZE;
    crate::codec::lemma_split_at(s, o2, t8, r4);
    assert(pow256(8) == 0x10000000000000000nat) by {
        reveal_with_fuel(pow256, 9);
    }
    lemma_be_roundtrip(u64_of_i64(l.timestamp) as nat, 8);
    assert(parse_be_r(s, o2, 8) == Ok::<_, WireError>((u64_of_i64(l.timestamp), o2 + 8)));
    lemma_i64_roundtrip(l.timestamp);
    let o3 = o2 + 8;
    crate::codec::lemma_split_at(s, o3, nv, r5);
    lemma_varint_roundtrip(s, o3, l.endpoints.len());
    let o4 = o3 + nv.len() as int;
    assert(parse_varint_r(s, o3) == Ok::<_, WireError>((l.endpoints.len() as u64, o4)));
    crate::codec::lemma_split_at(s, o4, eb, r6);
    lemma_eps_roundtrip(s, o4, l.endpoints);
    let o5 = o4 + eb.len() as int;
    assert(parse_eps_r(s, o4, (l.endpoints.len() as u64) as nat) == Ok::<_, WireError>(
        (l.endpoints, o5),
    ));
    crate::codec::lemma_split_at(s, o5, z, r7);
    lemma_varint_roundtrip(s, o5, 0);
    let o6 = o5 + 1;
    assert(parse_varint_r(s, o5) == Ok::<_, WireError>((0u64, o6)));
    crate::codec::lemma_split_at(s, o6, sv, sg);
    lemma_varint_roundtrip(s, o6, l.signature.len());
    let o8 = o6 + sv.len() as int;
    assert(parse_varint_r(s, o6) == Ok::<_, WireError>((l.signature.len() as u64, o8)));
    assert(s.subrange(o8, o8 + sg.len()) == sg);
    assert(o8 + sg.len() == s.len());

    match parse_locator(s, 0) {
        Ok((lv, end)) => {
            assert(lv =~= l);
            assert(end == s.len() as int);
        },
        Err(_) => {
            assert(false);
        },
    }
}

/// A locator freshly produced by `create` verifies under the identity
/// that signed it.
pub proof fn lemma_verify_created(
    signer_identity: Identity,
    subject: Address,
    ts: i64,
    endpoints: Seq<Endpoint>,
)
    requires
        payload_bytes(subject, signer_identity.address, ts, normalize_eps(endpoints)).len()
            <= PACKET_SIZE_MAX,
    ensures
        verify_signature_spec(
            created_locator(signer_identity, subject, ts, endpoints),
            signer_identity,
        ),
{
}

/// The trust hierarchy of supersession: a self-signed locator always
/// beats a proxy-signed one regardless of timestamps; within one signing
/// class only a strictly newer timestamp wins, so equal timestamps
/// supersede in neither direction.
pub proof fn lemma_should_replace_trust(a: LocatorView, b: LocatorView)
    ensures
        a.subject == a.signer && b.subject != b.signer ==> should_replace_spec(a, b),
        a.subject != a.signer && b.subject == b.signer ==> !should_replace_spec(a, b),
        ((a.subject != a.signer) == (b.subject != b.signer)) ==> (should_replace_spec(a, b) == (
        a.timestamp > b.timestamp)),
        ((a.subject != a.signer) == (b.subject != b.signer)) && a.timestamp == b.timestamp
            ==> !should_replace_spec(a, b) && !should_replace_spec(b, a),
{
}

/// Construction is canonical: inputs holding the same endpoints in any
/// order and multiplicity yield identical locators, signature included.
pub proof fn lemma_create_canonical(
    signer_identity: Identity,
    subject: Address,
    ts: i64,
    eps_a: Seq<Endpoint>,
    eps_b: Seq<Endpoint>,
)
    requires
        forall|x: Endpoint| #[trigger] eps_a.contains(x) <==> eps_b.contains(x),
    ensures
        created_locator(signer_identity, subject, ts, eps_a) == created_locator(
            signer_identity,
            subject,
            ts,
            eps_b,
        ),
{
    lemma_normalize_same_set(eps_a, eps_b);
    assert(created_locator(signer_identity, subject, ts, eps_a) =~= created_locator(
        signer_identity,
        subject,
        ts,
        eps_b,
    ));
}

proof fn lemma_address_bytes_len_pair(a: Address, b: Address)
    ensures
        address_bytes(a).len() == ADDRESS_SIZE,
        address_bytes(b).len() == ADDRESS_SIZE,
{
    lemma_be_bytes_len(a.0 as nat, ADDRESS_SIZE as nat);
    lemma_be_bytes_len(b.0 as nat, ADDRESS_SIZE as nat);
}

} // verus!
