//! A remote endpoint paired with a local socket and a local interface:
//! the canonical record of one transport path. It reassembles inbound
//! fragments — memory-bounded under floods of bogus packet identifiers —
//! tracks send/receive activity, and classifies its own liveness on a
//! periodic service tick. The registry that owns paths injects the
//! instance counter value and the random hash seed at construction and
//! removes a path once `service` reports it dead.

use vstd::prelude::*;

use crate::endpoint::Endpoint;
use crate::fragment::{add_fragment_rel, FragmentedPacket, FRAGMENT_COUNT_MAX};
use crate::hasher::{hash_packet_id, packet_id_hash};

verus! {

/// How often a path needs a keepalive while it is receiving.
pub const PATH_KEEPALIVE_INTERVAL: i64 = 20000;

/// How long a path may go without inbound traffic before it is dead.
pub const PATH_EXPIRATION_TIME: i64 = PATH_KEEPALIVE_INTERVAL * 2 + 10000;

/// How long a partial assembly may wait for its missing fragments.
pub const FRAGMENT_EXPIRATION: i64 = 1000;

/// The sanity bound on distinct in-progress assemblies per path.
pub const FRAGMENT_MAX_INBOUND_PACKETS_PER_PATH: usize = 64;

/// A send/receive timestamp meaning "never": far enough in the past that
/// every interval test reads it as long expired.
pub const NEVER_HAPPENED_TICKS: i64 = -0x2000000000000000;

/// The latest tick value this layer accepts; keeps every interval
/// subtraction representable.
pub const TICKS_MAX: i64 = 0x2000000000000000;

/// What a periodic service pass concluded about the path.
#[derive(Clone, Copy, PartialEq, Eq, Structural, Debug)]
pub enum PathServiceResult {
    /// The path is in active use or within its startup grace period.
    Alive,
    /// The path is alive but idle on the send side: the caller must
    /// transmit a keepalive now.
    NeedsKeepalive,
    /// The path has expired; the registry must drop it.
    Dead,
}

/// One reassembly table slot: the packet identifier, its hash under the
/// path's seed (cached so lookups touch the mixer once per call), and
/// the assembly itself.
pub struct FragEntry {
    pub packet_id: u64,
    pub id_hash: u64,
    pub packet: FragmentedPacket,
}

/// Whether the table holds an assembly for `id`.
pub open spec fn tbl_contains(t: Seq<FragEntry>, id: u64) -> bool {
    exists|i: int| 0 <= i < t.len() && t[i].packet_id == id
}

/// No two slots share a packet identifier.
pub open spec fn tbl_keys_unique(t: Seq<FragEntry>) -> bool {
    forall|i: int, j: int| 0 <= i < j < t.len() ==> t[i].packet_id != t[j].packet_id
}

/// The index of the slot holding `id`; meaningful when `tbl_contains`.
pub open spec fn tbl_index_of(t: Seq<FragEntry>, id: u64) -> int {
    choose|i: int| 0 <= i < t.len() && t[i].packet_id == id
}

/// The slot holding `id`; meaningful when `tbl_contains`.
pub open spec fn tbl_entry(t: Seq<FragEntry>, id: u64) -> FragEntry {
    t[tbl_index_of(t, id)]
}

proof fn lemma_tbl_entry(t: Seq<FragEntry>, i: int)
    requires
        tbl_keys_unique(t),
        0 <= i < t.len(),
    ensures
        tbl_contains(t, t[i].packet_id),
        tbl_entry(t, t[i].packet_id) == t[i],
{
    let id = t[i].packet_id;
    assert(tbl_contains(t, id));
    let j = tbl_index_of(t, id);
    assert(0 <= j < t.len() && t[j].packet_id == id);
    if i < j {
        assert(t[i].packet_id != t[j].packet_id);
    } else if j < i {
        assert(t[j].packet_id != t[i].packet_id);
    }
}

/// What the count-bound defense does to the table on one call: under the
/// bound nothing; over it, exactly a third of the entries leave, every
/// departed assembly no younger than every survivor, survivors carried
/// over unchanged.
pub open spec fn evict_rel(before: Seq<FragEntry>, after: Seq<FragEntry>) -> bool {
    if before.len() <= FRAGMENT_MAX_INBOUND_PACKETS_PER_PATH {
        after == before
    } else {
        &&& after.len() == before.len() - before.len() / 3
        &&& tbl_keys_unique(after)
        &&& forall|j: int| 0 <= j < after.len() ==> before.contains(#[trigger] after[j])
        &&& forall|x: FragEntry, y: FragEntry|
            #![trigger before.contains(x), after.contains(y)]
            before.contains(x) && !after.contains(x) && after.contains(y)
                ==> x.packet.ts_ticks <= y.packet.ts_ticks
    }
}

/// The flood defense keeps the table bounded: starting from any table
/// the invariant admits, one eviction pass leaves it at or under the
/// sanity bound, so an insertion never carries it past one over.
pub proof fn lemma_eviction_bounds(before: Seq<FragEntry>, after: Seq<FragEntry>)
    requires
        evict_rel(before, after),
        before.len() <= FRAGMENT_MAX_INBOUND_PACKETS_PER_PATH + 1,
    ensures
        after.len() <= FRAGMENT_MAX_INBOUND_PACKETS_PER_PATH,
{
}

/// A brand-new assembly created at `t`: nothing received yet.
pub open spec fn fresh_assembly(fp: FragmentedPacket, t: i64) -> bool {
    &&& fp.ts_ticks == t
    &&& fp.expecting == 0
    &&& fp.have == 0
    &&& fp.frags@.len() == FRAGMENT_COUNT_MAX
    &&& forall|i: int| 0 <= i < FRAGMENT_COUNT_MAX ==> fp.frags@[i] is None
}

/// The liveness verdict as a pure function of the three timestamps and
/// the current tick. The classification is re-derived on every call; no
/// other state takes part.
pub open spec fn service_verdict(
    last_receive: i64,
    last_send: i64,
    create: i64,
    t: i64,
) -> PathServiceResult {
    if t - last_receive < PATH_EXPIRATION_TIME {
        if t - last_send >= PATH_KEEPALIVE_INTERVAL {
            PathServiceResult::NeedsKeepalive
        } else {
            PathServiceResult::Alive
        }
    } else if t - create < PATH_EXPIRATION_TIME {
        PathServiceResult::Alive
    } else {
        PathServiceResult::Dead
    }
}

/// A tick that is `NEVER_HAPPENED_TICKS` or a real, bounded tick value.
pub open spec fn tick_wf(t: i64) -> bool {
    t == NEVER_HAPPENED_TICKS || 0 <= t <= TICKS_MAX
}

/// One transport path, canonical for its (endpoint, local socket, local
/// interface) tuple. The type of the two local binding identifiers is
/// the transport's business; this layer never looks inside them.
#[verifier::reject_recursive_types(S)]
#[verifier::reject_recursive_types(I)]
pub struct Path<S, I> {
    pub endpoint: Endpoint,
    pub local_socket: S,
    pub local_interface: I,
    /// Registry-assigned value of a process-wide strictly increasing
    /// counter: a cheap local identity distinct from the tuple.
    pub internal_instance_id: u64,
    pub last_send_time_ticks: i64,
    pub last_receive_time_ticks: i64,
    pub create_time_ticks: i64,
    /// Random seed for the fragment-identity hasher, injected at
    /// construction.
    pub hash_seed: u64,
    pub fragmented_packets: Vec<FragEntry>,
}

impl<S, I> Path<S, I> {
    /// Structural validity of the reassembly table and the timestamps.
    pub open spec fn wf(self) -> bool {
        &&& tbl_keys_unique(self.fragmented_packets@)
        &&& forall|i: int|
            0 <= i < self.fragmented_packets@.len()
                ==> (#[trigger] self.fragmented_packets@[i]).packet.wf()
        &&& forall|i: int|
            0 <= i < self.fragmented_packets@.len()
                ==> (#[trigger] self.fragmented_packets@[i]).id_hash == packet_id_hash(
                self.hash_seed,
                self.fragmented_packets@[i].packet_id,
            )
        &&& forall|i: int|
            0 <= i < self.fragmented_packets@.len() ==> 0 <= (
            #[trigger] self.fragmented_packets@[i]).packet.ts_ticks <= TICKS_MAX
        &&& self.fragmented_packets@.len() <= FRAGMENT_MAX_INBOUND_PACKETS_PER_PATH + 1
        &&& tick_wf(self.last_send_time_ticks)
        &&& tick_wf(self.last_receive_time_ticks)
        &&& 0 <= self.create_time_ticks <= TICKS_MAX
    }

    /// All fields that `receive_fragment` and `service` leave alone.
    pub open spec fn same_identity(self, other: Self) -> bool {
        &&& self.endpoint == other.endpoint
        &&& self.local_socket == other.local_socket
        &&& self.local_interface == other.local_interface
        &&& self.internal_instance_id == other.internal_instance_id
        &&& self.create_time_ticks == other.create_time_ticks
        &&& self.hash_seed == other.hash_seed
    }

    /// A new path for a freshly observed tuple. The registry supplies
    /// the next instance-counter value and a random hash seed.
    pub fn new(
        endpoint: Endpoint,
        local_socket: S,
        local_interface: I,
        time_ticks: i64,
        instance_id: u64,
        hash_seed: u64,
    ) -> (r: Self)
        requires
            0 <= time_ticks <= TICKS_MAX,
        ensures
            r.wf(),
            r.endpoint == endpoint,
            r.local_socket == local_socket,
            r.local_interface == local_interface,
            r.internal_instance_id == instance_id,
            r.hash_seed == hash_seed,
            r.create_time_ticks == time_ticks,
            r.last_send_time_ticks == NEVER_HAPPENED_TICKS,
            r.last_receive_time_ticks == NEVER_HAPPENED_TICKS,
            r.fragmented_packets@.len() == 0,
    {
        Path {
            endpoint,
            local_socket,
            local_interface,
            internal_instance_id: instance_id,
            last_send_time_ticks: NEVER_HAPPENED_TICKS,
            last_receive_time_ticks: NEVER_HAPPENED_TICKS,
            create_time_ticks: time_ticks,
            hash_seed,
            fragmented_packets: Vec::new(),
        }
    }

    /// Must be called on every successful receive, fragment or not.
    pub fn log_receive_anything(&mut self, time_ticks: i64)
        requires
            old(self).wf(),
            0 <= time_ticks <= TICKS_MAX,
        ensures
            final(self).wf(),
            *final(self) == (Path { last_receive_time_ticks: time_ticks, ..*old(self) }),
    {
        self.last_receive_time_ticks = time_ticks;
    }

    /// Must be called on every successful send.
    pub fn log_send_anything(&mut self, time_ticks: i64)
        requires
            old(self).wf(),
            0 <= time_ticks <= TICKS_MAX,
        ensures
            final(self).wf(),
            *final(self) == (Path { last_send_time_ticks: time_ticks, ..*old(self) }),
    {
        self.last_send_time_ticks = time_ticks;
    }

    /// How many assemblies are currently in progress.
    pub fn fragment_backlog(&self) -> (r: usize)
        ensures
            r == self.fragmented_packets@.len(),
    {
        self.fragmented_packets.len()
    }

    /// Whether an assembly for `packet_id` is currently in progress.
    pub fn has_assembly(&self, packet_id: u64) -> (r: bool)
        requires
            self.wf(),
        ensures
            r == tbl_contains(self.fragmented_packets@, packet_id),
    {
        let mut i: usize = 0;
        while i < self.fragmented_packets.len()
            invariant
                i <= self.fragmented_packets@.len(),
                forall|j: int| 0 <= j < i ==> self.fragmented_packets@[j].packet_id != packet_id,
            decreases self.fragmented_packets@.len() - i,
        {
            if self.fragmented_packets[i].packet_id == packet_id {
                return true;
            }
            i = i + 1;
        }
        false
    }

    /// Absorbs one inbound fragment; returns the completed assembly when
    /// this fragment was the last one missing, else nothing. When the
    /// table has grown past the sanity bound, first discards the oldest
    /// third of the in-progress assemblies — a bounded-cost defense
    /// against identifier floods; the operation itself never fails.
    #[verifier::loop_isolation(false)]
    #[verifier::rlimit(100)]
    pub fn receive_fragment(
        &mut self,
        packet_id: u64,
        fragment_no: u8,
        fragment_expecting_count: u8,
        fragment_payload: Vec<u8>,
        time_ticks: i64,
    ) -> (r: Option<FragmentedPacket>)
        requires
            old(self).wf(),
            0 <= time_ticks <= TICKS_MAX,
        ensures
            final(self).wf(),
            old(self).same_identity(*final(self)),
            final(self).last_send_time_ticks == old(self).last_send_time_ticks,
            final(self).last_receive_time_ticks == old(self).last_receive_time_ticks,
            exists|mid: Seq<FragEntry>, base: FragmentedPacket, upd: FragmentedPacket|
                #![trigger evict_rel(old(self).fragmented_packets@, mid), add_fragment_rel(base, upd, fragment_payload, fragment_no, fragment_expecting_count)]
                {
                    &&& evict_rel(old(self).fragmented_packets@, mid)
                    &&& if tbl_contains(mid, packet_id) {
                        base == tbl_entry(mid, packet_id).packet
                    } else {
                        fresh_assembly(base, time_ticks)
                    }
                    &&& add_fragment_rel(
                        base,
                        upd,
                        fragment_payload,
                        fragment_no,
                        fragment_expecting_count,
                    )
                    &&& if upd.is_complete() {
                        &&& r == Some(upd)
                        &&& forall|id2: u64|
                            #[trigger] tbl_contains(final(self).fragmented_packets@, id2) <==> (
                            tbl_contains(mid, id2) && id2 != packet_id)
                        &&& forall|id2: u64|
                            tbl_contains(final(self).fragmented_packets@, id2) ==> #[trigger] tbl_entry(
                                final(self).fragmented_packets@,
                                id2,
                            ) == tbl_entry(mid, id2)
                    } else {
                        &&& r is None
                        &&& forall|id2: u64|
                            #[trigger] tbl_contains(final(self).fragmented_packets@, id2) <==> (
                            tbl_contains(mid, id2) || id2 == packet_id)
                        &&& tbl_entry(final(self).fragmented_packets@, packet_id).packet == upd
                        &&& forall|id2: u64|
                            tbl_contains(mid, id2) && id2 != packet_id ==> #[trigger] tbl_entry(
                                final(self).fragmented_packets@,
                                id2,
                            ) == tbl_entry(mid, id2)
                    }
                },
    {
        let ghost orig = self.fragmented_packets@;
        let len = self.fragmented_packets.len();
        if len > FRAGMENT_MAX_INBOUND_PACKETS_PER_PATH {
            let to_remove = len / 3;
            let mut rem: usize = 0;
            while rem < to_remove
                invariant
                    rem <= to_remove,
                    old(self).same_identity(*self),
                    self.last_send_time_ticks == old(self).last_send_time_ticks,
                    self.last_receive_time_ticks == old(self).last_receive_time_ticks,
                    self.fragmented_packets@.len() == orig.len() - rem,
                    tbl_keys_unique(self.fragmented_packets@),
                    forall|j: int|
                        0 <= j < self.fragmented_packets@.len() ==> orig.contains(
                            #[trigger] self.fragmented_packets@[j],
                        ),
                    forall|x: FragEntry, y: FragEntry|
                        #![trigger orig.contains(x), self.fragmented_packets@.contains(y)]
                        orig.contains(x) && !self.fragmented_packets@.contains(x)
                            && self.fragmented_packets@.contains(y) ==> x.packet.ts_ticks
                            <= y.packet.ts_ticks,
                decreases to_remove - rem,
            {
                let cur_len = self.fragmented_packets.len();
                let mut min_idx: usize = 0;
                let mut mi: usize = 1;
                while mi < cur_len
                    invariant
                        min_idx < mi <= cur_len,
                        cur_len == self.fragmented_packets@.len(),
                        forall|j: int|
                            0 <= j < mi
                                ==> self.fragmented_packets@[min_idx as int].packet.ts_ticks <= (
                            #[trigger] self.fragmented_packets@[j]).packet.ts_ticks,
                    decreases cur_len - mi,
                {
                    if self.fragmented_packets[mi].packet.ts_ticks
                        < self.fragmented_packets[min_idx].packet.ts_ticks {
                        min_idx = mi;
                    }
                    mi = mi + 1;
                }
                let ghost pre = self.fragmented_packets@;
                let _ = self.fragmented_packets.remove(min_idx);
                proof {
                    let post = self.fragmented_packets@;
                    assert forall|j: int| 0 <= j < post.len() implies orig.contains(
                        #[trigger] post[j],
                    ) by {
                        if j < min_idx {
                            assert(post[j] == pre[j]);
                        } else {
                            assert(post[j] == pre[j + 1]);
                        }
                        assert(pre.contains(post[j]));
                    }
                    assert forall|i: int, j: int| 0 <= i < j < post.len() implies post[i].packet_id
                        != post[j].packet_id by {
                        let pi: int = if i < min_idx {
                            i
                        } else {
                            i + 1
                        };
                        let pj: int = if j < min_idx {
                            j
                        } else {
                            j + 1
                        };
                        assert(post[i] == pre[pi] && post[j] == pre[pj]);
                    }
                    assert forall|x: FragEntry, y: FragEntry|
                        #![trigger orig.contains(x), post.contains(y)]
                        orig.contains(x) && !post.contains(x) && post.contains(y)
                            implies x.packet.ts_ticks <= y.packet.ts_ticks by {
                        let jy = choose|jy: int| 0 <= jy < post.len() && post[jy] == y;
                        let py: int = if jy < min_idx {
                            jy
                        } else {
                            jy + 1
                        };
                        assert(pre[py] == y);
                        assert(pre.contains(y));
                        if pre.contains(x) {
                            let ix = choose|ix: int| 0 <= ix < pre.len() && pre[ix] == x;
                            if ix < min_idx {
                                assert(post[ix] == x);
                                assert(post.contains(x));
                            } else if ix > min_idx {
                                assert(post[ix - 1] == x);
                                assert(post.contains(x));
                            } else {
                                assert(x == pre[min_idx as int]);
                                assert(x.packet.ts_ticks <= pre[py].packet.ts_ticks);
                            }
                        }
                    }
                }
                rem = rem + 1;
            }
            proof {
                assert(evict_rel(orig, self.fragmented_packets@));
            }
        } else {
            proof {
                assert(evict_rel(orig, self.fragmented_packets@));
            }
        }
        let ghost mid = self.fragmented_packets@;
        proof {
            assert forall|j: int| 0 <= j < mid.len() implies {
                &&& (#[trigger] mid[j]).id_hash == packet_id_hash(self.hash_seed, mid[j].packet_id)
                &&& mid[j].packet.wf()
                &&& 0 <= mid[j].packet.ts_ticks <= TICKS_MAX
            } by {
                if orig.len() > FRAGMENT_MAX_INBOUND_PACKETS_PER_PATH {
                    assert(orig.contains(mid[j]));
                    let p = choose|p: int| 0 <= p < orig.len() && orig[p] == mid[j];
                    assert(orig[p].id_hash == packet_id_hash(self.hash_seed, orig[p].packet_id));
                    assert(orig[p].packet.wf());
                } else {
                    assert(mid[j] == orig[j]);
                }
            }
        }
        let h = hash_packet_id(self.hash_seed, packet_id);

        match find_slot(&self.fragmented_packets, h, packet_id) {
            Some(idx) => {
                proof {
                    lemma_tbl_entry(mid, idx as int);
                }
                let ghost base = mid[idx as int].packet;
                let done = self.fragmented_packets[idx].packet.add_fragment(
                    fragment_payload,
                    fragment_no,
                    fragment_expecting_count,
                );
                let ghost e2 = self.fragmented_packets@[idx as int];
                let ghost upd = e2.packet;
                proof {
                    assert(self.fragmented_packets@ == mid.update(idx as int, e2));
                    assert(e2.packet_id == packet_id);
                }
                if done {
                    let entry = self.fragmented_packets.remove(idx);
                    proof {
                        let fin = self.fragmented_packets@;
                        assert forall|id2: u64| #[trigger] tbl_contains(fin, id2) implies (
                        tbl_contains(mid, id2) && id2 != packet_id) by {
                            let j = choose|j: int| 0 <= j < fin.len() && fin[j].packet_id == id2;
                            let pj: int = if j < idx {
                                j
                            } else {
                                j + 1
                            };
                            assert(mid[pj].packet_id == fin[j].packet_id);
                            assert(tbl_contains(mid, id2));
                        }
                        assert forall|id2: u64| (tbl_contains(mid, id2) && id2 != packet_id)
                            implies #[trigger] tbl_contains(fin, id2) by {
                            let j = tbl_index_of(mid, id2);
                            if j < idx {
                                assert(fin[j].packet_id == id2);
                            } else {
                                assert(fin[j - 1].packet_id == id2);
                            }
                        }
                        assert forall|id2: u64| tbl_contains(fin, id2) implies #[trigger] tbl_entry(
                            fin,
                            id2,
                        ) == tbl_entry(mid, id2) by {
                            let j = tbl_index_of(fin, id2);
                            assert(fin[j].packet_id == id2);
                            let pj: int = if j < idx {
                                j
                            } else {
                                j + 1
                            };
                            assert(fin[j] == mid[pj]);
                            lemma_tbl_entry(mid, pj);
                            lemma_tbl_entry(fin, j);
                        }
                        assert(tbl_keys_unique(fin)) by {
                            assert forall|i2: int, j2: int| 0 <= i2 < j2 < fin.len() implies
                                fin[i2].packet_id != fin[j2].packet_id by {
                                let pi: int = if i2 < idx {
                                    i2
                                } else {
                                    i2 + 1
                                };
                                let pj: int = if j2 < idx {
                                    j2
                                } else {
                                    j2 + 1
                                };
                                assert(fin[i2] == mid[pi] && fin[j2] == mid[pj]);
                            }
                        }
                        assert forall|j: int| 0 <= j < fin.len() implies ((
                        #[trigger] fin[j]).packet.wf() && fin[j].id_hash == packet_id_hash(
                            self.hash_seed,
                            fin[j].packet_id,
                        ) && 0 <= fin[j].packet.ts_ticks <= TICKS_MAX) by {
                            let pj: int = if j < idx {
                                j
                            } else {
                                j + 1
                            };
                            assert(fin[j] == mid[pj]);
                        }
                        assert(self.wf());
                        assert(evict_rel(old(self).fragmented_packets@, mid) && add_fragment_rel(
                            base,
                            upd,
                            fragment_payload,
                            fragment_no,
                            fragment_expecting_count,
                        ));
                    }
                    Some(entry.packet)
                } else {
                    proof {
                        let fin = self.fragmented_packets@;
                        assert(tbl_keys_unique(fin)) by {
                            assert forall|i2: int, j2: int| 0 <= i2 < j2 < fin.len() implies
                                fin[i2].packet_id != fin[j2].packet_id by {
                                assert(fin[i2].packet_id == mid[i2].packet_id);
                                assert(fin[j2].packet_id == mid[j2].packet_id);
                            }
                        }
                        assert forall|id2: u64| #[trigger] tbl_contains(fin, id2) implies (
                        tbl_contains(mid, id2) || id2 == packet_id) by {
                            let j = choose|j: int| 0 <= j < fin.len() && fin[j].packet_id == id2;
                            assert(mid[j].packet_id == id2);
                        }
                        assert forall|id2: u64| (tbl_contains(mid, id2) || id2 == packet_id)
                            implies #[trigger] tbl_contains(fin, id2) by {
                            if id2 == packet_id {
                                assert(fin[idx as int].packet_id == id2);
                            } else {
                                let j = tbl_index_of(mid, id2);
                                assert(fin[j].packet_id == id2);
                            }
                        }
                        lemma_tbl_entry(fin, idx as int);
                        assert forall|id2: u64| tbl_contains(mid, id2) && id2 != packet_id implies
                            #[trigger] tbl_entry(fin, id2) == tbl_entry(mid, id2) by {
                            let j = tbl_index_of(mid, id2);
                            assert(mid[j].packet_id == id2);
                            assert(j != idx);
                            assert(fin[j] == mid[j]);
                            lemma_tbl_entry(fin, j);
                            lemma_tbl_entry(mid, j);
                        }
                        assert forall|j: int| 0 <= j < fin.len() implies ((
                        #[trigger] fin[j]).packet.wf() && fin[j].id_hash == packet_id_hash(
                            self.hash_seed,
                            fin[j].packet_id,
                        ) && 0 <= fin[j].packet.ts_ticks <= TICKS_MAX) by {
                            if j != idx {
                                assert(fin[j] == mid[j]);
                            } else {
                                assert(fin[j] == e2);
                                assert(e2.id_hash == mid[idx as int].id_hash);
                            }
                        }
                        assert(self.wf());
                        assert(evict_rel(old(self).fragmented_packets@, mid) && add_fragment_rel(
                            base,
                            upd,
                            fragment_payload,
                            fragment_no,
                            fragment_expecting_count,
                        ));
                    }
                    None
                }
            },
            None => {
            let mut fresh = FragmentedPacket::new(time_ticks);
            let ghost base = fresh;
            let done = fresh.add_fragment(
                fragment_payload,
                fragment_no,
                fragment_expecting_count,
            );
            let ghost upd = fresh;
            proof {
                assert(!tbl_contains(mid, packet_id));
                assert(fresh_assembly(base, time_ticks));
            }
            if done {
                proof {
                    assert forall|id2: u64| #[trigger] tbl_contains(
                        self.fragmented_packets@,
                        id2,
                    ) implies (tbl_contains(mid, id2) && id2 != packet_id) by {}
                    assert forall|id2: u64| tbl_contains(
                        self.fragmented_packets@,
                        id2,
                    ) implies #[trigger] tbl_entry(self.fragmented_packets@, id2) == tbl_entry(
                        mid,
                        id2,
                    ) by {}
                    assert(self.wf());
                    assert(evict_rel(old(self).fragmented_packets@, mid) && add_fragment_rel(
                        base,
                        upd,
                        fragment_payload,
                        fragment_no,
                        fragment_expecting_count,
                    ));
                }
                Some(fresh)
            } else {
                self.fragmented_packets.push(FragEntry { packet_id, id_hash: h, packet: fresh });
                proof {
                    let fin = self.fragmented_packets@;
                    let newlen = fin.len();
                    assert(fin[newlen - 1].packet_id == packet_id);
                    assert(tbl_keys_unique(fin)) by {
                        assert forall|i2: int, j2: int| 0 <= i2 < j2 < fin.len() implies fin[i2].packet_id
                            != fin[j2].packet_id by {
                            if j2 < newlen - 1 {
                                assert(fin[i2] == mid[i2] && fin[j2] == mid[j2]);
                            } else {
                                assert(fin[i2] == mid[i2]);
                                assert(!tbl_contains(mid, packet_id));
                                if fin[i2].packet_id == packet_id {
                                    assert(tbl_contains(mid, packet_id));
                                }
                            }
                        }
                    }
                    assert forall|id2: u64| #[trigger] tbl_contains(fin, id2) implies (
                    tbl_contains(mid, id2) || id2 == packet_id) by {
                        let j = choose|j: int| 0 <= j < fin.len() && fin[j].packet_id == id2;
                        if j < newlen - 1 {
                            assert(mid[j].packet_id == id2);
                        }
                    }
                    assert forall|id2: u64| (tbl_contains(mid, id2) || id2 == packet_id) implies
                        #[trigger] tbl_contains(fin, id2) by {
                        if id2 == packet_id {
                            assert(fin[newlen - 1].packet_id == id2);
                        } else {
                            let j = tbl_index_of(mid, id2);
                            assert(fin[j].packet_id == id2);
                        }
                    }
                    lemma_tbl_entry(fin, newlen - 1);
                    assert forall|id2: u64| tbl_contains(mid, id2) && id2 != packet_id implies
                        #[trigger] tbl_entry(fin, id2) == tbl_entry(mid, id2) by {
                        let j = tbl_index_of(mid, id2);
                        assert(fin[j] == mid[j]);
                        lemma_tbl_entry(fin, j);
                        lemma_tbl_entry(mid, j);
                    }
                    assert forall|j: int| 0 <= j < fin.len() implies ((
                    #[trigger] fin[j]).packet.wf() && fin[j].id_hash == packet_id_hash(
                        self.hash_seed,
                        fin[j].packet_id,
                    ) && 0 <= fin[j].packet.ts_ticks <= TICKS_MAX) by {
                        if j < newlen - 1 {
                            assert(fin[j] == mid[j]);
                        }
                    }
                    assert(self.wf());
                    assert(evict_rel(old(self).fragmented_packets@, mid) && add_fragment_rel(
                        base,
                        upd,
                        fragment_payload,
                        fragment_no,
                        fragment_expecting_count,
                    ));
                }
                None
            }
            },
        }
    }

    /// The periodic service pass: drops assemblies older than the
    /// expiration window, then re-derives the liveness verdict from the
    /// activity timestamps alone. On `NeedsKeepalive` the last-send
    /// stamp is advanced to now, so calls within the same interval do
    /// not re-trigger; transmitting the probe is the caller's job.
    #[verifier::loop_isolation(false)]
    pub fn service(&mut self, time_ticks: i64) -> (r: PathServiceResult)
        requires
            old(self).wf(),
            0 <= time_ticks <= TICKS_MAX,
        ensures
            final(self).wf(),
            old(self).same_identity(*final(self)),
            r == service_verdict(
                old(self).last_receive_time_ticks,
                old(self).last_send_time_ticks,
                old(self).create_time_ticks,
                time_ticks,
            ),
            final(self).last_send_time_ticks == if r == PathServiceResult::NeedsKeepalive {
                time_ticks
            } else {
                old(self).last_send_time_ticks
            },
            final(self).last_receive_time_ticks == old(self).last_receive_time_ticks,
            forall|id2: u64|
                #[trigger] tbl_contains(final(self).fragmented_packets@, id2) <==> (tbl_contains(
                    old(self).fragmented_packets@,
                    id2,
                ) && time_ticks - tbl_entry(old(self).fragmented_packets@, id2).packet.ts_ticks
                    < FRAGMENT_EXPIRATION),
            forall|id2: u64|
                tbl_contains(final(self).fragmented_packets@, id2) ==> #[trigger] tbl_entry(
                    final(self).fragmented_packets@,
                    id2,
                ) == tbl_entry(old(self).fragmented_packets@, id2),
    {
        let ghost orig = self.fragmented_packets@;
        // Prune assemblies whose creation time has fallen out of the
        // expiration window, in place.
        let mut i: usize = 0;
        while i < self.fragmented_packets.len()
            invariant
                i <= self.fragmented_packets@.len(),
                old(self).same_identity(*self),
                self.last_send_time_ticks == old(self).last_send_time_ticks,
                self.last_receive_time_ticks == old(self).last_receive_time_ticks,
                self.fragmented_packets@.len() <= orig.len(),
                tbl_keys_unique(self.fragmented_packets@),
                forall|j: int|
                    0 <= j < self.fragmented_packets@.len() ==> orig.contains(
                        #[trigger] self.fragmented_packets@[j],
                    ),
                forall|x: FragEntry|
                    #[trigger] orig.contains(x) && time_ticks - x.packet.ts_ticks
                        < FRAGMENT_EXPIRATION ==> self.fragmented_packets@.contains(x),
                forall|j: int|
                    0 <= j < i ==> time_ticks - (
                    #[trigger] self.fragmented_packets@[j]).packet.ts_ticks
                        < FRAGMENT_EXPIRATION,
            decreases self.fragmented_packets@.len() - i,
        {
            if time_ticks - self.fragmented_packets[i].packet.ts_ticks >= FRAGMENT_EXPIRATION {
                let ghost pre = self.fragmented_packets@;
                let _ = self.fragmented_packets.remove(i);
                proof {
                    let cur = self.fragmented_packets@;
                    assert forall|j: int| 0 <= j < cur.len() implies orig.contains(
                        #[trigger] cur[j],
                    ) by {
                        if j < i {
                            assert(cur[j] == pre[j]);
                        } else {
                            assert(cur[j] == pre[j + 1]);
                        }
                        assert(pre.contains(cur[j]));
                    }
                    assert(tbl_keys_unique(cur)) by {
                        assert forall|i2: int, j2: int| 0 <= i2 < j2 < cur.len() implies
                            cur[i2].packet_id != cur[j2].packet_id by {
                            let pi: int = if i2 < i {
                                i2
                            } else {
                                i2 + 1
                            };
                            let pj: int = if j2 < i {
                                j2
                            } else {
                                j2 + 1
                            };
                            assert(cur[i2] == pre[pi] && cur[j2] == pre[pj]);
                        }
                    }
                    assert forall|x: FragEntry|
                        #[trigger] orig.contains(x) && time_ticks - x.packet.ts_ticks
                            < FRAGMENT_EXPIRATION implies cur.contains(x) by {
                        assert(pre.contains(x));
                        let jx = choose|jx: int| 0 <= jx < pre.len() && pre[jx] == x;
                        if jx < i {
                            assert(cur[jx] == x);
                        } else if jx > i {
                            assert(cur[jx - 1] == x);
                        }
                    }
                    assert forall|j: int| 0 <= j < i implies time_ticks - (
                    #[trigger] cur[j]).packet.ts_ticks < FRAGMENT_EXPIRATION by {
                        assert(cur[j] == pre[j]);
                    }
                }
            } else {
                i = i + 1;
            }
        }
        proof {
            let fin = self.fragmented_packets@;
            assert forall|id2: u64| #[trigger] tbl_contains(fin, id2) implies (tbl_contains(
                orig,
                id2,
            ) && time_ticks - tbl_entry(orig, id2).packet.ts_ticks < FRAGMENT_EXPIRATION) by {
                let j = tbl_index_of(fin, id2);
                assert(0 <= j < fin.len() && fin[j].packet_id == id2);
                assert(orig.contains(fin[j]));
                let p = choose|p: int| 0 <= p < orig.len() && orig[p] == fin[j];
                lemma_tbl_entry(orig, p);
                assert(time_ticks - fin[j].packet.ts_ticks < FRAGMENT_EXPIRATION);
            }
            assert forall|id2: u64| (tbl_contains(orig, id2) && time_ticks - tbl_entry(
                orig,
                id2,
            ).packet.ts_ticks < FRAGMENT_EXPIRATION) implies #[trigger] tbl_contains(fin, id2) by {
                let p = tbl_index_of(orig, id2);
                assert(0 <= p < orig.len() && orig[p].packet_id == id2);
                lemma_tbl_entry(orig, p);
                assert(tbl_entry(orig, id2) == orig[p]);
                assert(orig.contains(orig[p]));
                assert(time_ticks - orig[p].packet.ts_ticks < FRAGMENT_EXPIRATION);
                assert(fin.contains(orig[p]));
                let j = choose|j: int| 0 <= j < fin.len() && fin[j] == orig[p];
                assert(fin[j].packet_id == id2);
            }
            assert forall|id2: u64| tbl_contains(fin, id2) implies #[trigger] tbl_entry(fin, id2)
                == tbl_entry(orig, id2) by {
                let j = tbl_index_of(fin, id2);
                assert(0 <= j < fin.len() && fin[j].packet_id == id2);
                assert(orig.contains(fin[j]));
                let p = choose|p: int| 0 <= p < orig.len() && orig[p] == fin[j];
                lemma_tbl_entry(orig, p);
                lemma_tbl_entry(fin, j);
            }
            assert forall|j: int| 0 <= j < fin.len() implies ((#[trigger] fin[j]).packet.wf()
                && fin[j].id_hash == packet_id_hash(self.hash_seed, fin[j].packet_id) && 0
                <= fin[j].packet.ts_ticks <= TICKS_MAX) by {
                assert(orig.contains(fin[j]));
                let p = choose|p: int| 0 <= p < orig.len() && orig[p] == fin[j];
                assert(orig[p].packet.wf());
                assert(orig[p].id_hash == packet_id_hash(self.hash_seed, orig[p].packet_id));
            }
            assert(tick_wf(self.last_receive_time_ticks));
            assert(tick_wf(self.last_send_time_ticks));
        }
        // Stateless liveness classification.
        if time_ticks - self.last_receive_time_ticks < PATH_EXPIRATION_TIME {
            if time_ticks - self.last_send_time_ticks >= PATH_KEEPALIVE_INTERVAL {
                self.last_send_time_ticks = time_ticks;
                PathServiceResult::NeedsKeepalive
            } else {
                PathServiceResult::Alive
            }
        } else if time_ticks - self.create_time_ticks < PATH_EXPIRATION_TIME {
            PathServiceResult::Alive
        } else {
            PathServiceResult::Dead
        }
    }
}

/// Finds the slot holding `packet_id`, comparing the cached hash first;
/// sound because a slot with this identifier always carries this hash.
#[verifier::loop_isolation(false)]
fn find_slot(t: &Vec<FragEntry>, h: u64, packet_id: u64) -> (r: Option<usize>)
    requires
        forall|j: int|
            0 <= j < t@.len() ==> ((#[trigger] t@[j]).packet_id == packet_id ==> t@[j].id_hash
                == h),
    ensures
        match r {
            Some(i) => i < t@.len() && t@[i as int].packet_id == packet_id,
            None => !tbl_contains(t@, packet_id),
        },
{
    let mut i: usize = 0;
    while i < t.len()
        invariant
            i <= t@.len(),
            forall|j: int| 0 <= j < i ==> (#[trigger] t@[j]).packet_id != packet_id,
        decreases t@.len() - i,
    {
        if t[i].id_hash == h {
            if t[i].packet_id == packet_id {
                return Some(i);
            }
        }
        i = i + 1;
    }
    None
}

// ---------------------------------------------------------------------------
// Laws of the service classification.
// ---------------------------------------------------------------------------

/// A fresh path — no sends, no receives — is alive until its creation
/// time falls out of the expiration window, and dead after.
pub proof fn lemma_fresh_path_grace(create: i64, t: i64)
    requires
        0 <= create <= TICKS_MAX,
        0 <= t <= TICKS_MAX,
    ensures
        t - create < PATH_EXPIRATION_TIME ==> service_verdict(
            NEVER_HAPPENED_TICKS,
            NEVER_HAPPENED_TICKS,
            create,
            t,
        ) == PathServiceResult::Alive,
        t - create >= PATH_EXPIRATION_TIME ==> service_verdict(
            NEVER_HAPPENED_TICKS,
            NEVER_HAPPENED_TICKS,
            create,
            t,
        ) == PathServiceResult::Dead,
{
}

/// A keepalive fires at most once per interval: after a pass reports
/// `NeedsKeepalive` (stamping the send clock), any pass within the next
/// interval on a still-receiving path reports plain `Alive`.
pub proof fn lemma_keepalive_once_per_interval(
    last_receive: i64,
    last_send: i64,
    create: i64,
    t1: i64,
    t2: i64,
)
    requires
        service_verdict(last_receive, last_send, create, t1) == PathServiceResult::NeedsKeepalive,
        t1 <= t2 < t1 + PATH_KEEPALIVE_INTERVAL,
        t2 - last_receive < PATH_EXPIRATION_TIME,
    ensures
        service_verdict(last_receive, t1, create, t2) == PathServiceResult::Alive,
{
}

} // verus!
