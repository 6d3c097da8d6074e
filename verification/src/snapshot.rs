//! Snapshot records over the paged vector. A snapshot is a sampled value and
//! its timestamp; `candid` turns it into a bounded byte string, and the paged
//! vector stores those bytes. Decoding the stored bytes of a slot recovers
//! exactly the snapshot that was pushed.

use vstd::prelude::*;

use crate::codec::le64_val;
use crate::errors::Error;
use crate::region::RegionManager;
use crate::vector::PagedVec;
use crate::vector::HEADER_SIZE;
use crate::vector::MAX_RECORD_SIZE;
use crate::vector::SLOT_STRIDE;

verus! {

/// One stored record: a sampled value and its timestamp (milliseconds).
#[derive(Clone, Copy, Debug, PartialEq, Eq, Structural)]
pub struct Snapshot {
    pub value: u64,
    pub timestamp: u64,
}

/// The bytes `candid` produces for a record of these two fields; a function
/// of the two integers alone.
pub uninterp spec fn snapshot_encoding(value: u64, timestamp: u64) -> Seq<u8>;

/// Relies on `candid::encode_one`: the encoding of a pair of 64-bit integers
/// is deterministic, and serializing two integers into an in-memory buffer
/// does not fail.
#[verifier::external_body]
fn encode_snapshot(s: &Snapshot) -> (r: Vec<u8>)
    ensures
        r@ == snapshot_encoding(s.value, s.timestamp),
{
    candid::encode_one((s.value, s.timestamp)).unwrap()
}

/// Relies on `candid::decode_one`: decoding inverts `candid::encode_one`, so
/// on the encoding of a pair of integers it returns exactly that pair.
#[verifier::external_body]
fn decode_snapshot(bytes: &Vec<u8>) -> (r: Option<Snapshot>)
    ensures
        forall|v: u64, t: u64|
            bytes@ == snapshot_encoding(v, t) ==> r == Some(Snapshot { value: v, timestamp: t }),
{
    match candid::decode_one::<(u64, u64)>(bytes.as_slice()) {
        Ok((value, timestamp)) => Some(Snapshot { value, timestamp }),
        Err(_) => None,
    }
}

/// A durable, append-only sequence of snapshots over one logical region.
pub struct SnapshotVec {
    inner: PagedVec,
}

impl SnapshotVec {
    /// Attached and consistent (see the paged vector's invariant).
    pub closed spec fn wf(self) -> bool {
        self.inner.wf()
    }

    /// Number of snapshots currently stored.
    pub closed spec fn vlen(self) -> int {
        self.inner.vlen()
    }

    /// The manager this vector owns.
    pub closed spec fn manager(self) -> RegionManager {
        self.inner.manager()
    }

    /// The id of the region this vector is bound to.
    pub closed spec fn id(self) -> u8 {
        self.inner.id()
    }

    /// The backing region's current bytes.
    pub closed spec fn region(self) -> Seq<u8> {
        self.inner.region()
    }

    /// The stored bytes of record `i`, when its frame is intact.
    pub closed spec fn record_opt(self, i: int) -> Option<Seq<u8>> {
        self.inner.record_opt(i)
    }

    /// Whether `count` more records fit in the store's remaining pages.
    pub closed spec fn can_push(self, count: int) -> bool {
        self.inner.can_push(count)
    }

    /// Record `i` holds exactly the encoding of snapshot `s`.
    pub open spec fn record_is(self, i: int, s: Snapshot) -> bool {
        self.record_opt(i) == Some(snapshot_encoding(s.value, s.timestamp))
    }

    /// Record `i` holds the encoding of some snapshot.
    pub open spec fn record_decodable(self, i: int) -> bool {
        exists|s: Snapshot| self.record_is(i, s)
    }

    /// Everything `get` promises about its result at index `i`: out-of-range
    /// indices fail with `IndexOutOfRange`; a stored encoding of `s` is read
    /// back as `Ok(s)`; only a corrupt record reports `StoreCorruption`.
    pub open spec fn get_post(self, i: int, r: Result<Snapshot, Error>) -> bool {
        &&& (i >= self.vlen() <==> r == Err::<Snapshot, Error>(Error::IndexOutOfRange))
        &&& (i < self.vlen() ==> {
            &&& (forall|s: Snapshot| self.record_is(i, s) ==> r == Ok::<Snapshot, Error>(s))
            &&& (r is Err ==> r == Err::<Snapshot, Error>(Error::StoreCorruption))
            &&& (self.record_decodable(i) ==> r is Ok)
        })
    }

    /// Attach to region `region_id`, reading the persisted length (0 for a
    /// fresh, empty region). Fails exactly when a nonempty region's length
    /// field does not fit its allocated extent.
    pub fn attach(mgr: RegionManager, region_id: u8) -> (r: Result<SnapshotVec, Error>)
        requires
            mgr.wf(),
        ensures
            r is Ok <==> (mgr.region(region_id).len() == 0 || HEADER_SIZE + le64_val(
                mgr.region(region_id).subrange(0, 8),
            ) * SLOT_STRIDE <= mgr.region(region_id).len()),
            match r {
                Ok(v) => {
                    &&& v.wf()
                    &&& v.manager() == mgr
                    &&& v.id() == region_id
                    &&& v.region() == mgr.region(region_id)
                    &&& (mgr.region(region_id).len() == 0 ==> v.vlen() == 0)
                    &&& (mgr.region(region_id).len() > 0 ==> v.vlen() == le64_val(
                        mgr.region(region_id).subrange(0, 8),
                    ))
                },
                Err(e) => e == Error::StoreCorruption,
            },
    {
        match PagedVec::attach(mgr, region_id) {
            Ok(inner) => Ok(SnapshotVec { inner }),
            Err(e) => Err(e),
        }
    }

    /// Detach: hand the region manager back, e.g. to simulate a restart.
    pub fn into_manager(self) -> (r: RegionManager)
        ensures
            r == self.manager(),
    {
        self.inner.into_manager()
    }

    /// The number of snapshots; no region traffic.
    pub fn len(&self) -> (r: u64)
        requires
            self.wf(),
        ensures
            r as int == self.vlen(),
    {
        self.inner.len()
    }

    /// Read the snapshot at `index`.
    pub fn get(&self, index: u64) -> (r: Result<Snapshot, Error>)
        requires
            self.wf(),
        ensures
            self.get_post(index as int, r),
    {
        let bytes = match self.inner.get_bytes(index) {
            Ok(b) => b,
            Err(e) => {
                return Err(e);
            },
        };
        match decode_snapshot(&bytes) {
            Some(s) => {
                proof {
                    assert forall|s2: Snapshot|
                        self.record_is(index as int, s2) implies Ok::<Snapshot, Error>(s)
                        == Ok::<Snapshot, Error>(s2) by {
                        assert(s2 == Snapshot { value: s2.value, timestamp: s2.timestamp });
                    }
                }
                Ok(s)
            },
            None => {
                proof {
                    if self.record_decodable(index as int) {
                        let s2 = choose|s2: Snapshot| self.record_is(index as int, s2);
                        assert(bytes@ == snapshot_encoding(s2.value, s2.timestamp));
                    }
                }
                Err(Error::StoreCorruption)
            },
        }
    }

    /// Append one snapshot: its encoding is rejected before any store write
    /// when it exceeds the slot bound; otherwise the record lands at index
    /// `len()` and the length grows by exactly one.
    pub fn push(&mut self, s: Snapshot) -> (r: Result<(), Error>)
        requires
            old(self).wf(),
        ensures
            final(self).wf(),
            ({
                let enc = snapshot_encoding(s.value, s.timestamp);
                &&& (r is Ok <==> (enc.len() <= MAX_RECORD_SIZE && old(self).can_push(1)))
                &&& (r is Err ==> *final(self) == *old(self))
                &&& (enc.len() > MAX_RECORD_SIZE ==> r == Err::<(), Error>(Error::EncodingTooLarge))
                &&& (enc.len() <= MAX_RECORD_SIZE && !old(self).can_push(1) ==> r == Err::<
                    (),
                    Error,
                >(Error::RegionGrowthFailure))
                &&& (r is Ok ==> {
                    &&& final(self).vlen() == old(self).vlen() + 1
                    &&& final(self).record_is(old(self).vlen(), s)
                    &&& forall|i: int|
                        0 <= i < old(self).vlen() ==> #[trigger] final(self).record_opt(i) == old(
                            self,
                        ).record_opt(i)
                    &&& forall|c: int|
                        0 <= c ==> (#[trigger] final(self).can_push(c) <==> old(self).can_push(
                            c + 1,
                        ))
                })
            }),
    {
        let enc = encode_snapshot(&s);
        self.inner.push_bytes(&enc)
    }

    /// Append one already-built snapshot record (the vector's update entry
    /// point); same contract as `push`.
    pub fn _add_datum(&mut self, datum: Snapshot) -> (r: Result<(), Error>)
        requires
            old(self).wf(),
        ensures
            final(self).wf(),
            ({
                let enc = snapshot_encoding(datum.value, datum.timestamp);
                &&& (r is Ok <==> (enc.len() <= MAX_RECORD_SIZE && old(self).can_push(1)))
                &&& (r is Err ==> *final(self) == *old(self))
                &&& (r is Ok ==> {
                    &&& final(self).vlen() == old(self).vlen() + 1
                    &&& final(self).record_is(old(self).vlen(), datum)
                    &&& forall|i: int|
                        0 <= i < old(self).vlen() ==> #[trigger] final(self).record_opt(i) == old(
                            self,
                        ).record_opt(i)
                })
            }),
    {
        self.push(datum)
    }

    /// The most recent snapshot, or `None` on an empty vector (never an
    /// underflowing index).
    pub fn last(&self) -> (r: Result<Option<Snapshot>, Error>)
        requires
            self.wf(),
        ensures
            self.vlen() == 0 ==> r == Ok::<Option<Snapshot>, Error>(None),
            self.vlen() > 0 ==> {
                &&& (forall|s: Snapshot|
                    self.record_is(self.vlen() - 1, s) ==> r == Ok::<Option<Snapshot>, Error>(
                        Some(s),
                    ))
                &&& (r is Err ==> r == Err::<Option<Snapshot>, Error>(Error::StoreCorruption))
                &&& (self.record_decodable(self.vlen() - 1) ==> r is Ok)
                &&& (r matches Ok(o) ==> o is Some)
            },
    {
        let l = self.len();
        if l == 0 {
            return Ok(None);
        }
        match self.get(l - 1) {
            Ok(s) => Ok(Some(s)),
            Err(e) => Err(e),
        }
    }

    /// Up to `n` snapshots, most recent first: indices `len()-1` down to
    /// `max(0, len()-n)`; exactly `min(n, len())` of them, never padded.
    pub fn top(&self, n: u64) -> (r: Result<Vec<Snapshot>, Error>)
        requires
            self.wf(),
        ensures
            match r {
                Ok(items) => {
                    &&& items@.len() == (if (n as int) <= self.vlen() {
                        n as int
                    } else {
                        self.vlen()
                    })
                    &&& forall|j: int, s: Snapshot|
                        0 <= j < items@.len() && #[trigger] self.record_is(self.vlen() - 1 - j, s)
                            ==> items@[j] == s
                },
                Err(e) => e == Error::StoreCorruption,
            },
            (forall|j: int|
                0 <= j < (if (n as int) <= self.vlen() {
                    n as int
                } else {
                    self.vlen()
                }) ==> #[trigger] self.record_decodable(self.vlen() - 1 - j)) ==> r is Ok,
    {
        let l = self.len();
        let mut items: Vec<Snapshot> = Vec::new();
        let mut i: u64 = 0;
        while i < n && i < l
            invariant
                self.wf(),
                i <= n,
                l as int == self.vlen(),
                i <= l,
                items@.len() == i,
                forall|j: int| 0 <= j < i ==> self.get_post(l - 1 - j, Ok(items@[j])),
            decreases n - i,
        {
            match self.get(l - i - 1) {
                Ok(s) => {
                    items.push(s);
                },
                Err(e) => {
                    proof {
                        assert(e == Error::StoreCorruption);
                        assert(!self.record_decodable(l - 1 - i));
                    }
                    return Err(Error::StoreCorruption);
                },
            }
            i = i + 1;
        }
        proof {
            assert forall|j: int, s: Snapshot|
                0 <= j < items@.len() && #[trigger] self.record_is(
                    self.vlen() - 1 - j,
                    s,
                ) implies items@[j] == s by {
                assert(self.get_post(l - 1 - j, Ok(items@[j])));
            }
        }
        Ok(items)
    }

    /// Append `count` snapshots sharing one value and one timestamp, each
    /// pushed individually in order; stops at the first failure, leaving the
    /// earlier appends in place (the batch is not atomic).
    pub fn add_many(&mut self, value: u64, timestamp: u64, count: u64) -> (r: Result<(), Error>)
        requires
            old(self).wf(),
        ensures
            final(self).wf(),
            r is Ok <==> (count == 0 || (snapshot_encoding(value, timestamp).len()
                <= MAX_RECORD_SIZE && old(self).can_push(count as int))),
            r is Ok ==> {
                &&& final(self).vlen() == old(self).vlen() + count
                &&& forall|j: int|
                    0 <= j < count ==> #[trigger] final(self).record_is(
                        old(self).vlen() + j,
                        (Snapshot { value, timestamp }),
                    )
                &&& forall|i: int|
                    0 <= i < old(self).vlen() ==> #[trigger] final(self).record_opt(i) == old(
                        self,
                    ).record_opt(i)
            },
            r is Err ==> {
                &&& (r == Err::<(), Error>(Error::EncodingTooLarge) || r == Err::<(), Error>(
                    Error::RegionGrowthFailure,
                ))
                &&& old(self).vlen() <= final(self).vlen() < old(self).vlen() + count
                &&& forall|j: int|
                    0 <= j < final(self).vlen() - old(self).vlen()
                        ==> #[trigger] final(self).record_is(
                        old(self).vlen() + j,
                        (Snapshot { value, timestamp }),
                    )
                &&& forall|i: int|
                    0 <= i < old(self).vlen() ==> #[trigger] final(self).record_opt(i) == old(
                        self,
                    ).record_opt(i)
            },
    {
        proof {
            old(self).inner.lemma_vlen_nonneg();
        }
        let mut i: u64 = 0;
        while i < count
            invariant
                old(self).vlen() >= 0,
                self.wf(),
                i <= count,
                self.vlen() == old(self).vlen() + i,
                forall|j: int|
                    0 <= j < i ==> #[trigger] self.record_is(
                        old(self).vlen() + j,
                        (Snapshot { value, timestamp }),
                    ),
                forall|k: int|
                    0 <= k < old(self).vlen() ==> #[trigger] self.record_opt(k) == old(
                        self,
                    ).record_opt(k),
                forall|c: int|
                    0 <= c ==> (#[trigger] self.can_push(c) <==> old(self).can_push(c + i)),
                i > 0 ==> snapshot_encoding(value, timestamp).len() <= MAX_RECORD_SIZE,
            decreases count - i,
        {
            let ghost pre = *self;
            let r = self.push(Snapshot { value, timestamp });
            match r {
                Ok(()) => {
                    proof {
                        assert forall|j: int|
                            0 <= j < i + 1 implies #[trigger] self.record_is(
                            old(self).vlen() + j,
                            (Snapshot { value, timestamp }),
                        ) by {
                            if j < i {
                                assert(pre.record_is(
                                    old(self).vlen() + j,
                                    (Snapshot { value, timestamp }),
                                ));
                                assert(self.record_opt(old(self).vlen() + j) == pre.record_opt(
                                    old(self).vlen() + j,
                                ));
                            } else {
                                assert(self.record_is(pre.vlen(), (Snapshot { value, timestamp })));
                            }
                        }
                        assert forall|k: int|
                            0 <= k < old(self).vlen() implies #[trigger] self.record_opt(k) == old(
                            self,
                        ).record_opt(k) by {
                            assert(pre.record_opt(k) == old(self).record_opt(k));
                            assert(self.record_opt(k) == pre.record_opt(k));
                        }
                    }
                },
                Err(e) => {
                    proof {
                        if e == Error::RegionGrowthFailure {
                            assert(!pre.can_push(1));
                            assert(!old(self).can_push(i + 1));
                            if old(self).can_push(count as int) {
                                old(self).inner.lemma_can_push_mono(i + 1, count as int);
                            }
                        }
                    }
                    return Err(e);
                },
            }
            i = i + 1;
        }
        proof {
            if count > 0 {
                self.inner.lemma_can_push_zero();
                assert(self.can_push(0) <==> old(self).can_push(count as int));
            }
        }
        Ok(())
    }

    /// Round trip: a snapshot just appended is read back exactly. Whatever
    /// `push` left at the new index, any result `get`'s contract admits there
    /// equals the pushed snapshot.
    pub proof fn lemma_round_trip(
        pre: SnapshotVec,
        post: SnapshotVec,
        s: Snapshot,
        r: Result<Snapshot, Error>,
    )
        requires
            pre.vlen() >= 0,
            post.vlen() == pre.vlen() + 1,
            post.record_is(pre.vlen(), s),
            post.get_post(pre.vlen(), r),
        ensures
            r == Ok::<Snapshot, Error>(s),
    {
    }

    /// Restart durability: two vectors attached to one region (e.g. before a
    /// detach and after the reattach) hold the same length and records.
    pub proof fn lemma_reattach_preserves(v1: SnapshotVec, v2: SnapshotVec)
        requires
            v1.wf(),
            v2.wf(),
            v2.region() == v1.region(),
        ensures
            v2.vlen() == v1.vlen(),
            forall|i: int| #[trigger] v2.record_opt(i) == v1.record_opt(i),
    {
        PagedVec::lemma_reattach_preserves(v1.inner, v2.inner);
    }
}

} // verus!
