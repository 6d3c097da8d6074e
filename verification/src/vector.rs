//! The paged append-only vector: a growable, randomly-indexable sequence of
//! variable-but-bounded-size byte records over one logical region. The first
//! eight region bytes persist the record count; record `i` occupies the
//! fixed-stride slot starting at `8 + i * 10008`, framed by an 8-byte length.
//! An append writes the record's slot first and commits the new length last.

use vstd::prelude::*;

use crate::codec::le64_val;
use crate::codec::lemma_u64_le_bytes_inj;
use crate::codec::u64_from_le;
use crate::codec::u64_le_bytes;
use crate::codec::u64_to_le;
use crate::errors::Error;
use crate::region::pages_for;
use crate::region::write_result;
use crate::region::RegionManager;
use crate::region::PAGE_SIZE;

verus! {

/// Bytes of the persisted length field at the start of the region.
pub const HEADER_SIZE: u64 = 8;

/// Largest encoded record a slot accepts.
pub const MAX_RECORD_SIZE: u64 = 10000;

/// Fixed distance between consecutive slots: an 8-byte length frame plus the
/// maximum record size.
pub const SLOT_STRIDE: u64 = 10008;

/// A durable, growable, randomly-indexable sequence of byte records, bound to
/// one region of a region manager.
pub struct PagedVec {
    mgr: RegionManager,
    region_id: u8,
    length: u64,
}

impl PagedVec {
    /// The manager this vector owns.
    pub closed spec fn manager(self) -> RegionManager {
        self.mgr
    }

    /// The id of the region this vector is bound to.
    pub closed spec fn id(self) -> u8 {
        self.region_id
    }

    /// The backing region's current bytes.
    pub closed spec fn region(self) -> Seq<u8> {
        self.mgr.region(self.region_id)
    }

    /// Number of records currently stored.
    pub closed spec fn vlen(self) -> int {
        self.length as int
    }

    /// Byte offset of slot `i` within the region.
    pub open spec fn slot_offset(i: int) -> int {
        HEADER_SIZE + i * (SLOT_STRIDE as int)
    }

    /// The stored bytes of record `i`, or `None` when its length frame is
    /// corrupt (larger than the slot bound).
    pub closed spec fn record_opt(self, i: int) -> Option<Seq<u8>> {
        let off = Self::slot_offset(i);
        let flen = le64_val(self.region().subrange(off, off + 8));
        if flen <= MAX_RECORD_SIZE {
            Some(self.region().subrange(off + 8, off + 8 + flen))
        } else {
            None
        }
    }

    /// Attached and consistent: the cached length equals the persisted one
    /// and every assigned slot lies inside the region's extent.
    pub closed spec fn wf(self) -> bool {
        &&& self.mgr.wf()
        &&& (self.region().len() == 0 ==> self.length == 0)
        &&& (self.region().len() > 0 ==> {
            &&& self.region().subrange(0, 8) == u64_le_bytes(self.length)
            &&& HEADER_SIZE + self.length * SLOT_STRIDE <= self.region().len()
        })
    }

    /// Whether `count` more records fit in the store's remaining pages.
    pub closed spec fn can_push(self, count: int) -> bool {
        self.mgr.write_fits(
            self.region_id,
            Self::slot_offset(self.vlen()),
            count * (SLOT_STRIDE as int),
        )
    }

    /// Needing pages is monotone in the byte count.
    proof fn lemma_pages_mono(a: int, b: int)
        requires
            0 <= a <= b,
        ensures
            pages_for(a) <= pages_for(b),
    {
        vstd::arithmetic::div_mod::lemma_div_is_ordered(
            a + PAGE_SIZE - 1,
            b + PAGE_SIZE - 1,
            PAGE_SIZE as int,
        );
    }

    /// Room for more records is room for fewer.
    pub proof fn lemma_can_push_mono(self, c1: int, c2: int)
        requires
            0 <= c1 <= c2,
            self.can_push(c2),
        ensures
            self.can_push(c1),
    {
        let l = self.vlen();
        assert(8 + l * 10008 + c1 * 10008 <= 8 + l * 10008 + c2 * 10008) by (nonlinear_arith)
            requires
                0 <= c1 <= c2,
        ;
        Self::lemma_pages_mono(
            Self::slot_offset(l) + c1 * (SLOT_STRIDE as int),
            Self::slot_offset(l) + c2 * (SLOT_STRIDE as int),
        );
    }

    /// A vector never holds a negative number of records.
    pub proof fn lemma_vlen_nonneg(self)
        ensures
            self.vlen() >= 0,
    {
    }

    /// A nonempty well-formed vector always has room for zero more records.
    pub proof fn lemma_can_push_zero(self)
        requires
            self.wf(),
            self.vlen() > 0,
        ensures
            self.can_push(0),
    {
        let p = PAGE_SIZE as int;
        self.mgr.lemma_region_shape(self.region_id);
        let rl = self.region().len() as int;
        let cur = rl / p;
        assert(0 * (SLOT_STRIDE as int) == 0) by (nonlinear_arith);
        Self::lemma_pages_mono(Self::slot_offset(self.vlen()), rl);
        assert(pages_for(rl) == cur) by (nonlinear_arith)
            requires
                rl % p == 0,
                rl > 0,
                cur == rl / p,
                p == 65536,
        ;
    }

    /// Bounds every well-formed vector provides (all slots fit the store).
    proof fn lemma_len_bound(self)
        requires
            self.wf(),
        ensures
            HEADER_SIZE + self.length * SLOT_STRIDE <= 65528 * 65536,
            self.region().len() <= 65528 * 65536,
    {
        self.mgr.lemma_region_shape(self.region_id);
        assert(self.region().len() <= 65528 * 65536) by (nonlinear_arith)
            requires
                self.region().len() <= self.mgr.total_pages() * (PAGE_SIZE as int),
                0 <= self.mgr.total_pages() <= 65528,
                PAGE_SIZE == 65536,
        ;
    }

    /// Attach to region `region_id`, reading the persisted length (0 for a
    /// fresh, empty region). Fails exactly when a nonempty region's length
    /// field does not fit its allocated extent.
    pub fn attach(mgr: RegionManager, region_id: u8) -> (r: Result<PagedVec, Error>)
        requires
            mgr.wf(),
        ensures
            r is Ok <==> (mgr.region(region_id).len() == 0 || HEADER_SIZE + le64_val(
                mgr.region(region_id).subrange(0, 8),
            ) * SLOT_STRIDE <= mgr.region(region_id).len()),
            match r {
                Ok(v) => {
                    &&& v.wf()
                    &&& v.manager() == mgr
                    &&& v.id() == region_id
                    &&& v.region() == mgr.region(region_id)
                    &&& (mgr.region(region_id).len() == 0 ==> v.vlen() == 0)
                    &&& (mgr.region(region_id).len() > 0 ==> v.vlen() == le64_val(
                        mgr.region(region_id).subrange(0, 8),
                    ))
                },
                Err(e) => e == Error::StoreCorruption,
            },
    {
        let pages = mgr.region_size_pages(region_id);
        if pages == 0 {
            return Ok(PagedVec { mgr, region_id, length: 0 });
        }
        proof {
            assert(pages as int * 65536 <= 65528 * 65536 && pages as int * 65536 >= 65536)
                by (nonlinear_arith)
                requires
                    1 <= pages as int <= 65528,
            ;
        }
        let rl = pages * PAGE_SIZE;
        let hdr = match mgr.region_read(region_id, 0, HEADER_SIZE) {
            Ok(h) => h,
            Err(_) => {
                proof {
                    assert(false);
                }
                return Err(Error::StoreCorruption);
            },
        };
        let len64 = u64_from_le(&hdr);
        if len64 > (rl - HEADER_SIZE) / SLOT_STRIDE {
            proof {
                assert(8 + len64 * 10008 > rl) by (nonlinear_arith)
                    requires
                        len64 as int > (rl as int - 8) / 10008,
                        rl >= 8,
                ;
            }
            return Err(Error::StoreCorruption);
        }
        proof {
            assert(8 + len64 * 10008 <= rl) by (nonlinear_arith)
                requires
                    len64 as int <= (rl as int - 8) / 10008,
                    rl >= 8,
            ;
        }
        Ok(PagedVec { mgr, region_id, length: len64 })
    }

    /// Detach: hand the region manager back, e.g. to simulate a restart.
    pub fn into_manager(self) -> (r: RegionManager)
        ensures
            r == self.manager(),
    {
        self.mgr
    }

    /// The number of records; no region traffic.
    pub fn len(&self) -> (r: u64)
        requires
            self.wf(),
        ensures
            r as int == self.vlen(),
    {
        self.length
    }

    /// Read the stored bytes of record `index`.
    pub fn get_bytes(&self, index: u64) -> (r: Result<Vec<u8>, Error>)
        requires
            self.wf(),
        ensures
            index as int >= self.vlen() <==> r == Err::<Vec<u8>, Error>(Error::IndexOutOfRange),
            (index as int) < self.vlen() ==> match self.record_opt(index as int) {
                Some(bs) => r is Ok && r->Ok_0@ == bs,
                None => r == Err::<Vec<u8>, Error>(Error::StoreCorruption),
            },
    {
        if index >= self.length {
            return Err(Error::IndexOutOfRange);
        }
        proof {
            self.lemma_len_bound();
            assert(8 + (index + 1) * 10008 <= 8 + self.length * 10008) by (nonlinear_arith)
                requires
                    index < self.length,
            ;
        }
        let off = HEADER_SIZE + index * SLOT_STRIDE;
        let frame = match self.mgr.region_read(self.region_id, off, 8) {
            Ok(f) => f,
            Err(_) => {
                proof {
                    assert(false);
                }
                return Err(Error::StoreCorruption);
            },
        };
        let flen = u64_from_le(&frame);
        if flen > MAX_RECORD_SIZE {
            return Err(Error::StoreCorruption);
        }
        let data = match self.mgr.region_read(self.region_id, off + HEADER_SIZE, flen) {
            Ok(d) => d,
            Err(_) => {
                proof {
                    assert(false);
                }
                return Err(Error::StoreCorruption);
            },
        };
        Ok(data)
    }

    /// Append one record: reject oversized records before touching the store,
    /// write the slot (frame, data, zero padding), then commit the new length.
    #[verifier::rlimit(100)]
    pub fn push_bytes(&mut self, bytes: &Vec<u8>) -> (r: Result<(), Error>)
        requires
            old(self).wf(),
        ensures
            final(self).wf(),
            final(self).manager().wf(),
            final(self).id() == old(self).id(),
            bytes@.len() > MAX_RECORD_SIZE ==> r == Err::<(), Error>(Error::EncodingTooLarge)
                && *final(self) == *old(self),
            bytes@.len() <= MAX_RECORD_SIZE ==> {
                &&& (r is Ok <==> old(self).can_push(1))
                &&& (r is Err ==> *final(self) == *old(self) && r == Err::<(), Error>(
                    Error::RegionGrowthFailure,
                ))
                &&& (r is Ok ==> {
                    &&& final(self).vlen() == old(self).vlen() + 1
                    &&& final(self).record_opt(old(self).vlen()) == Some(bytes@)
                    &&& forall|i: int|
                        0 <= i < old(self).vlen() ==> #[trigger] final(self).record_opt(i) == old(
                            self,
                        ).record_opt(i)
                    &&& forall|c: int|
                        0 <= c ==> (#[trigger] final(self).can_push(c) <==> old(self).can_push(
                            c + 1,
                        ))
                })
            },
    {
        if bytes.len() > MAX_RECORD_SIZE as usize {
            return Err(Error::EncodingTooLarge);
        }
        let n = bytes.len() as u64;
        let mut slot = u64_to_le(n);
        let mut i: usize = 0;
        while i < bytes.len()
            invariant
                i <= bytes@.len(),
                bytes@.len() == n <= MAX_RECORD_SIZE,
                slot@.len() == 8 + i,
                forall|k: int| 0 <= k < 8 ==> slot@[k] == u64_le_bytes(n)[k],
                forall|k: int| 8 <= k < 8 + i ==> slot@[k] == bytes@[k - 8],
            decreases bytes@.len() - i,
        {
            slot.push(bytes[i]);
            i = i + 1;
        }
        while slot.len() < SLOT_STRIDE as usize
            invariant
                bytes@.len() == n <= MAX_RECORD_SIZE,
                8 + n <= slot@.len() <= SLOT_STRIDE,
                forall|k: int| 0 <= k < 8 ==> slot@[k] == u64_le_bytes(n)[k],
                forall|k: int| 8 <= k < 8 + n ==> slot@[k] == bytes@[k - 8],
                forall|k: int| 8 + n <= k < slot@.len() ==> slot@[k] == 0u8,
            decreases SLOT_STRIDE - slot@.len(),
        {
            slot.push(0u8);
        }
        proof {
            old(self).lemma_len_bound();
        }
        let off = HEADER_SIZE + self.length * SLOT_STRIDE;
        let ghost r0 = old(self).region();
        match self.mgr.region_write(self.region_id, off, &slot) {
            Ok(()) => {},
            Err(e) => {
                return Err(e);
            },
        }
        let ghost r1 = self.region();
        proof {
            self.mgr.lemma_region_shape(self.region_id);
            assert(r1 == write_result(r0, off as int, slot@));
            assert(pages_for(off + 10008) * (PAGE_SIZE as int) >= off + 10008) by {
                crate::region::lemma_pages_cover(off + 10008);
            }
            assert(r1.len() >= off + 10008);
            assert(r1.len() >= PAGE_SIZE) by (nonlinear_arith)
                requires
                    r1.len() >= off + 10008,
                    off >= 8,
                    (r1.len() as int) % (PAGE_SIZE as int) == 0,
                    PAGE_SIZE == 65536,
            ;
        }
        let newlen = self.length + 1;
        let hdr = u64_to_le(newlen);
        match self.mgr.region_write(self.region_id, 0, &hdr) {
            Ok(()) => {},
            Err(_) => {
                proof {
                    assert(pages_for(8) == 1);
                    assert((r1.len() as int) / (PAGE_SIZE as int) >= 1) by (nonlinear_arith)
                        requires
                            r1.len() >= PAGE_SIZE,
                            PAGE_SIZE == 65536,
                    ;
                    assert(false);
                }
                return Err(Error::RegionGrowthFailure);
            },
        }
        self.length = newlen;
        proof {
            let r2 = self.region();
            assert(r2 == write_result(r1, 0, hdr@));
            assert(pages_for(8) == 1);
            assert((r1.len() as int) / (PAGE_SIZE as int) >= 1) by (nonlinear_arith)
                requires
                    r1.len() >= PAGE_SIZE,
                    PAGE_SIZE == 65536,
            ;
            assert(r2.len() == r1.len());
            assert forall|j: int| 8 <= j < r2.len() implies r2[j] == r1[j] by {}
            assert(r2.subrange(0, 8) =~= u64_le_bytes(newlen));
            let l0 = old(self).length as int;
            let l1 = self.length as int;
            assert(l0 * 10008 <= l1 * 10008) by (nonlinear_arith)
                requires
                    l0 <= l1,
            ;
            assert(self.record_opt(old(self).vlen()) == Some(bytes@)) by {
                assert(r2.subrange(off as int, off + 8) =~= u64_le_bytes(n));
                crate::codec::lemma_le64_val_of_bytes(n);
                assert(r2.subrange(off + 8, off + 8 + n) =~= bytes@);
            }
            assert forall|i: int| 0 <= i < old(self).vlen() implies #[trigger] self.record_opt(i)
                == old(self).record_opt(i) by {
                let so = Self::slot_offset(i);
                assert(so + 10008 <= off) by (nonlinear_arith)
                    requires
                        so == 8 + i * 10008,
                        off == 8 + l0 * 10008,
                        0 <= i < l0,
                ;
                assert(r2.subrange(so, so + 8) =~= r0.subrange(so, so + 8));
                let flen = le64_val(r0.subrange(so, so + 8));
                if 0 <= flen <= MAX_RECORD_SIZE {
                    assert(r2.subrange(so + 8, so + 8 + flen) =~= r0.subrange(
                        so + 8,
                        so + 8 + flen,
                    ));
                }
            }
            let p = PAGE_SIZE as int;
            let tot0 = old(self).manager().total_pages();
            let tot2 = self.mgr.total_pages();
            let need1 = pages_for(off + 10008);
            let cur0 = (r0.len() as int) / p;
            let cur2 = (r2.len() as int) / p;
            old(self).manager().lemma_region_shape(self.region_id);
            assert(r0.len() == cur0 * p) by (nonlinear_arith)
                requires
                    (r0.len() as int) % p == 0,
                    cur0 == (r0.len() as int) / p,
                    p == 65536,
            ;
            assert(old(self).mgr.write_fits(self.region_id, off as int, 10008));
            if need1 > cur0 {
                assert(need1 * p > cur0 * p) by (nonlinear_arith)
                    requires
                        need1 > cur0,
                        p == 65536,
                ;
                assert(r1.len() == need1 * p);
                assert(cur2 == need1) by (nonlinear_arith)
                    requires
                        r2.len() == need1 * p,
                        cur2 == (r2.len() as int) / p,
                        p == 65536,
                        need1 >= 0,
                ;
                assert(tot2 == tot0 + need1 - cur0);
            } else {
                assert(need1 * p <= cur0 * p) by (nonlinear_arith)
                    requires
                        need1 <= cur0,
                        p == 65536,
                ;
                assert(r1.len() == r0.len());
                assert(cur2 == cur0 && tot2 == tot0);
            }
            assert forall|c: int| 0 <= c implies (#[trigger] self.can_push(c) <==> old(
                self,
            ).can_push(c + 1)) by {
                let argn = Self::slot_offset(l1) + c * (SLOT_STRIDE as int);
                let argo = Self::slot_offset(l0) + (c + 1) * (SLOT_STRIDE as int);
                assert(argn == argo) by (nonlinear_arith)
                    requires
                        argn == 8 + l1 * 10008 + c * 10008,
                        argo == 8 + l0 * 10008 + (c + 1) * 10008,
                        l1 == l0 + 1,
                ;
                assert(c * 10008 >= 0) by (nonlinear_arith)
                    requires
                        c >= 0,
                ;
                Self::lemma_pages_mono(off + 10008, argn);
                let needc = pages_for(argn);
                if need1 > cur0 {
                    if needc <= cur2 {
                        assert(needc == need1);
                    }
                }
            }
        }
        Ok(())
    }

    /// Reattaching to the same region restores the same length and the same
    /// records: a vector's whole state is recoverable from its region alone.
    pub proof fn lemma_reattach_preserves(v1: PagedVec, v2: PagedVec)
        requires
            v1.wf(),
            v2.wf(),
            v2.region() == v1.region(),
        ensures
            v2.vlen() == v1.vlen(),
            forall|i: int| #[trigger] v2.record_opt(i) == v1.record_opt(i),
    {
        if v1.region().len() > 0 {
            lemma_u64_le_bytes_inj(v1.length, v2.length);
        }
    }
}

} // verus!
