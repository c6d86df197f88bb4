//! One in-progress packet reassembly: the fragments received so far for
//! a single packet identifier, the count expected, and when the assembly
//! began. The surrounding policy — eviction, expiration, removal on
//! completion — lives with the path; this record only absorbs fragments
//! and says when it is complete.

use vstd::prelude::*;

verus! {

/// The most fragments one packet may be split into.
pub const FRAGMENT_COUNT_MAX: usize = 8;

/// How many of the first `upto` slots hold a fragment.
pub open spec fn count_present(s: Seq<Option<Vec<u8>>>, upto: int) -> int
    decreases upto,
{
    if upto <= 0 {
        0
    } else {
        count_present(s, upto - 1) + if s[upto - 1] is Some {
            1int
        } else {
            0int
        }
    }
}

proof fn lemma_count_present_bound(s: Seq<Option<Vec<u8>>>, upto: int)
    requires
        0 <= upto <= s.len(),
    ensures
        0 <= count_present(s, upto) <= upto,
    decreases upto,
{
    if upto > 0 {
        lemma_count_present_bound(s, upto - 1);
    }
}

proof fn lemma_count_present_full(s: Seq<Option<Vec<u8>>>, upto: int)
    requires
        0 <= upto <= s.len(),
        count_present(s, upto) == upto,
    ensures
        forall|i: int| 0 <= i < upto ==> s[i] is Some,
    decreases upto,
{
    if upto > 0 {
        lemma_count_present_bound(s, upto - 1);
        lemma_count_present_full(s, upto - 1);
    }
}

proof fn lemma_count_present_none(s: Seq<Option<Vec<u8>>>, upto: int)
    requires
        0 <= upto <= s.len(),
        forall|i: int| 0 <= i < upto ==> s[i] is None,
    ensures
        count_present(s, upto) == 0,
    decreases upto,
{
    if upto > 0 {
        lemma_count_present_none(s, upto - 1);
    }
}

proof fn lemma_count_present_update(s: Seq<Option<Vec<u8>>>, upto: int, i: int, v: Vec<u8>)
    requires
        0 <= i < upto <= s.len(),
        s[i] is None,
    ensures
        count_present(s.update(i, Some(v)), upto) == count_present(s, upto) + 1,
    decreases upto,
{
    let t = s.update(i, Some(v));
    if upto - 1 == i {
        lemma_count_present_same(s, t, upto - 1);
    } else {
        lemma_count_present_update(s, upto - 1, i, v);
    }
}

proof fn lemma_count_present_same(a: Seq<Option<Vec<u8>>>, b: Seq<Option<Vec<u8>>>, upto: int)
    requires
        upto <= a.len(),
        upto <= b.len(),
        forall|i: int| 0 <= i < upto ==> a[i] == b[i],
    ensures
        count_present(a, upto) == count_present(b, upto),
    decreases upto,
{
    if upto > 0 {
        lemma_count_present_same(a, b, upto - 1);
    }
}

/// What locks in the expected count: the first fragment carrying a
/// plausible total fixes it; later claims cannot change it.
pub open spec fn new_expecting(old_expecting: u8, claim: u8) -> u8 {
    if old_expecting == 0 && 1 <= claim <= FRAGMENT_COUNT_MAX {
        claim
    } else {
        old_expecting
    }
}

/// How one `add_fragment` call relates the record after to the record
/// before: the expected count may lock in, and a fragment with a fresh
/// in-range number is stored; anything else leaves the slots unchanged.
pub open spec fn add_fragment_rel(
    pre: FragmentedPacket,
    post: FragmentedPacket,
    payload: Vec<u8>,
    fragment_no: u8,
    claim: u8,
) -> bool {
    &&& post.ts_ticks == pre.ts_ticks
    &&& post.expecting == new_expecting(pre.expecting, claim)
    &&& if fragment_no < post.expecting && pre.frags@[fragment_no as int] is None {
        &&& post.frags@ == pre.frags@.update(fragment_no as int, Some(payload))
        &&& post.have == pre.have + 1
    } else {
        &&& post.frags@ == pre.frags@
        &&& post.have == pre.have
    }
}

/// Completion happens exactly when the last missing expected fragment
/// arrives: one `add_fragment` call leaves the record complete if and
/// only if it was already complete, or it stored a fresh in-range
/// fragment that brought the count up to the (possibly just locked-in)
/// expected total. In particular, duplicates and out-of-range numbers
/// never complete a packet.
pub proof fn lemma_completion_condition(
    pre: FragmentedPacket,
    post: FragmentedPacket,
    payload: Vec<u8>,
    fragment_no: u8,
    claim: u8,
)
    requires
        pre.wf(),
        add_fragment_rel(pre, post, payload, fragment_no, claim),
    ensures
        post.is_complete() <==> {
            ||| pre.is_complete()
            ||| {
                let exp = new_expecting(pre.expecting, claim);
                &&& fragment_no < exp
                &&& pre.frags@[fragment_no as int] is None
                &&& pre.have + 1 == exp
            }
        },
{
    if pre.is_complete() {
        lemma_count_present_full(pre.frags@, pre.expecting as int);
    }
}

/// An in-progress reassembly.
pub struct FragmentedPacket {
    /// When this assembly was first created, in ticks.
    pub ts_ticks: i64,
    /// Fragment payloads by fragment number.
    pub frags: Vec<Option<Vec<u8>>>,
    /// How many distinct expected fragments have arrived.
    pub have: u8,
    /// The locked-in expected count; zero until the first fragment.
    pub expecting: u8,
}

impl FragmentedPacket {
    /// Structural validity: a full slot table, a plausible expected
    /// count, `have` counting exactly the filled expected slots, and
    /// nothing stored beyond the expected range.
    pub open spec fn wf(self) -> bool {
        &&& self.frags@.len() == FRAGMENT_COUNT_MAX
        &&& self.expecting <= FRAGMENT_COUNT_MAX
        &&& self.have as int == count_present(self.frags@, self.expecting as int)
        &&& forall|i: int| self.expecting <= i < FRAGMENT_COUNT_MAX ==> self.frags@[i] is None
    }

    /// Complete: every expected fragment is present.
    pub open spec fn is_complete(self) -> bool {
        self.expecting > 0 && self.have == self.expecting
    }

    /// A fresh, empty assembly created at `time_ticks`.
    pub fn new(time_ticks: i64) -> (r: Self)
        ensures
            r.wf(),
            r.ts_ticks == time_ticks,
            r.expecting == 0,
            r.have == 0,
            forall|i: int| 0 <= i < FRAGMENT_COUNT_MAX ==> r.frags@[i] is None,
    {
        let mut frags: Vec<Option<Vec<u8>>> = Vec::new();
        let mut k: usize = 0;
        while k < FRAGMENT_COUNT_MAX
            invariant
                k <= FRAGMENT_COUNT_MAX,
                frags@.len() == k,
                forall|i: int| 0 <= i < k ==> frags@[i] is None,
            decreases FRAGMENT_COUNT_MAX - k,
        {
            frags.push(None);
            k = k + 1;
        }
        let r = FragmentedPacket { ts_ticks: time_ticks, frags, have: 0, expecting: 0 };
        proof {
            lemma_count_present_none(r.frags@, 0);
        }
        r
    }

    /// Absorbs one fragment; true when this completed the packet.
    pub fn add_fragment(&mut self, payload: Vec<u8>, fragment_no: u8, fragment_expecting_count: u8)
        -> (done: bool)
        requires
            old(self).wf(),
        ensures
            final(self).wf(),
            add_fragment_rel(
                *old(self),
                *final(self),
                payload,
                fragment_no,
                fragment_expecting_count,
            ),
            done == final(self).is_complete(),
    {
        if self.expecting == 0 && fragment_expecting_count >= 1 && (
        fragment_expecting_count as usize) <= FRAGMENT_COUNT_MAX {
            proof {
                lemma_count_present_none(self.frags@, fragment_expecting_count as int);
            }
            self.expecting = fragment_expecting_count;
        }
        if fragment_no < self.expecting {
            if self.frags[fragment_no as usize].is_none() {
                proof {
                    lemma_count_present_bound(self.frags@, self.expecting as int);
                    lemma_count_present_update(
                        self.frags@,
                        self.expecting as int,
                        fragment_no as int,
                        payload,
                    );
                }
                self.frags[fragment_no as usize] = Some(payload);
                self.have = self.have + 1;
            }
        }
        self.expecting > 0 && self.have == self.expecting
    }
}

} // verus!
