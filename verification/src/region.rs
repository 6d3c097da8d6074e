//! The persistent region manager: carves the single physical store into named
//! logical regions. Physical page 0 is the bootstrap header: an 8-byte count
//! of assigned data pages followed by one byte per data page naming its owning
//! region. Data page `k` is physical page `k + 1`; pages are handed out from
//! the store's free tail and never reassigned, so a region's pages are an
//! ascending subsequence of the data pages.

use vstd::prelude::*;

use crate::codec::le64_val;
use crate::codec::lemma_le64_val_of_bytes;
use crate::codec::u64_from_le;
use crate::codec::u64_le_bytes;
use crate::codec::u64_to_le;
use crate::errors::Error;
use crate::store::store_bytes;
use crate::store::zero_bytes;
use crate::store::StableStore;

verus! {

/// Fixed page size of the store, in bytes.
pub const PAGE_SIZE: u64 = 65536;

/// Byte offset of the page-owner table inside the header page.
pub const TABLE_OFFSET: u64 = 8;

/// Data pages the header page can describe: one byte each after the count.
pub const TABLE_CAPACITY: u64 = 65528;

/// The data pages owned by region `id`, in ascending order, as indices into
/// the page-owner table (data page `k` lives at physical page `k + 1`).
pub open spec fn page_list(table: Seq<u8>, id: u8) -> Seq<int>
    decreases table.len(),
{
    if table.len() == 0 {
        Seq::empty()
    } else if table.last() == id {
        page_list(table.drop_last(), id).push(table.len() - 1)
    } else {
        page_list(table.drop_last(), id)
    }
}

/// Physical store offset of logical byte `b` of region `id`.
pub open spec fn phys_of(table: Seq<u8>, id: u8, b: int) -> int {
    (page_list(table, id)[b / (PAGE_SIZE as int)] + 1) * (PAGE_SIZE as int) + b % (PAGE_SIZE as int)
}

/// The bytes of region `id`: the concatenation of its pages, in order.
pub open spec fn region_of(table: Seq<u8>, s: Seq<u8>, id: u8) -> Seq<u8> {
    Seq::new(page_list(table, id).len() * (PAGE_SIZE as nat), |b: int| s[phys_of(table, id, b)])
}

/// Division bounds used to locate a logical byte's page.
proof fn lemma_div_bound(b: int, n: int, p: int)
    by (nonlinear_arith)
    requires
        0 <= b,
        b < n * p,
        0 < p,
    ensures
        0 <= b / p < n,
        0 <= b % p < p,
        b == (b / p) * p + b % p,
{
}

/// A byte in page `k`'s range has quotient `k` and the matching remainder.
proof fn lemma_div_interval(b: int, k: int, p: int)
    by (nonlinear_arith)
    requires
        0 < p,
        0 <= k,
        k * p <= b < (k + 1) * p,
    ensures
        b / p == k,
        b % p == b - k * p,
{
}

/// The page list names distinct, ascending data pages, all owned by `id`,
/// and every data page owned by `id` appears in it.
proof fn lemma_page_list_props(table: Seq<u8>, id: u8)
    ensures
        page_list(table, id).len() <= table.len(),
        forall|k: int|
            0 <= k < page_list(table, id).len() ==> 0 <= #[trigger] page_list(table, id)[k]
                < table.len(),
        forall|k1: int, k2: int|
            0 <= k1 < k2 < page_list(table, id).len() ==> page_list(table, id)[k1] < page_list(
                table,
                id,
            )[k2],
        forall|k: int|
            0 <= k < page_list(table, id).len() ==> table[#[trigger] page_list(table, id)[k]]
                == id,
    decreases table.len(),
{
    if table.len() > 0 {
        lemma_page_list_props(table.drop_last(), id);
    }
}

/// Appending one table entry extends exactly the matching region's page list.
proof fn lemma_page_list_push(table: Seq<u8>, id: u8, entry: u8)
    ensures
        entry == id ==> page_list(table.push(entry), id) == page_list(table, id).push(
            table.len() as int,
        ),
        entry != id ==> page_list(table.push(entry), id) == page_list(table, id),
{
    assert(table.push(entry).drop_last() =~= table);
}

/// The page list of a table prefix is a prefix of the full page list, and the
/// remaining entries all name pages at or past the cut.
proof fn lemma_page_list_take(table: Seq<u8>, id: u8, m: int)
    requires
        0 <= m <= table.len(),
    ensures
        page_list(table.take(m), id).len() <= page_list(table, id).len(),
        page_list(table.take(m), id) == page_list(table, id).take(
            page_list(table.take(m), id).len() as int,
        ),
        forall|k: int|
            page_list(table.take(m), id).len() <= k < page_list(table, id).len()
                ==> #[trigger] page_list(table, id)[k] >= m,
    decreases table.len() - m,
{
    if m == table.len() {
        assert(table.take(m) =~= table);
        assert(page_list(table, id).take(page_list(table, id).len() as int) =~= page_list(
            table,
            id,
        ));
    } else {
        let t1 = table.drop_last();
        assert(table.take(m) =~= t1.take(m));
        lemma_page_list_take(t1, id, m);
        lemma_page_list_props(t1, id);
        let pre = page_list(table.take(m), id);
        let full = page_list(table, id);
        let p1 = page_list(t1, id);
        if table.last() == id {
            assert(full =~= p1.push(table.len() - 1));
        }
        assert(pre == full.take(pre.len() as int)) by {
            assert(pre =~= full.take(pre.len() as int));
        }
    }
}

/// Every physical offset a region reaches lies in the data pages.
proof fn lemma_phys_range(table: Seq<u8>, id: u8, b: int)
    requires
        0 <= b < page_list(table, id).len() * (PAGE_SIZE as int),
    ensures
        PAGE_SIZE <= phys_of(table, id, b) < (1 + table.len()) * (PAGE_SIZE as int),
{
    let p = PAGE_SIZE as int;
    lemma_page_list_props(table, id);
    lemma_div_bound(b, page_list(table, id).len() as int, p);
    let pg = page_list(table, id)[b / p];
    assert((pg + 1) * p + b % p < (1 + table.len()) * p) by (nonlinear_arith)
        requires
            0 <= pg < table.len(),
            0 <= b % p < p,
            p == 65536,
    ;
    assert((pg + 1) * p + b % p >= p) by (nonlinear_arith)
        requires
            0 <= pg,
            0 <= b % p,
            p == 65536,
    ;
}

/// Distinct (region, logical byte) pairs map to distinct physical offsets.
proof fn lemma_phys_inj(table: Seq<u8>, id1: u8, b1: int, id2: u8, b2: int)
    requires
        0 <= b1 < page_list(table, id1).len() * (PAGE_SIZE as int),
        0 <= b2 < page_list(table, id2).len() * (PAGE_SIZE as int),
        phys_of(table, id1, b1) == phys_of(table, id2, b2),
    ensures
        id1 == id2,
        b1 == b2,
{
    let p = PAGE_SIZE as int;
    lemma_page_list_props(table, id1);
    lemma_page_list_props(table, id2);
    lemma_div_bound(b1, page_list(table, id1).len() as int, p);
    lemma_div_bound(b2, page_list(table, id2).len() as int, p);
    let k1 = b1 / p;
    let k2 = b2 / p;
    let pg1 = page_list(table, id1)[k1];
    let pg2 = page_list(table, id2)[k2];
    assert(pg1 == pg2 && b1 % p == b2 % p) by (nonlinear_arith)
        requires
            (pg1 + 1) * p + b1 % p == (pg2 + 1) * p + b2 % p,
            0 <= b1 % p < p,
            0 <= b2 % p < p,
            p == 65536,
    ;
    assert(table[pg1] == id1);
    assert(table[pg2] == id2);
    assert(k1 == k2) by {
        if k1 < k2 {
            assert(page_list(table, id1)[k1] < page_list(table, id1)[k2]);
        } else if k2 < k1 {
            assert(page_list(table, id1)[k2] < page_list(table, id1)[k1]);
        }
    }
}

/// Regions read only data pages: stores that agree there give equal regions.
proof fn lemma_region_frame(table: Seq<u8>, s1: Seq<u8>, s2: Seq<u8>)
    requires
        s1.len() >= (1 + table.len()) * (PAGE_SIZE as int),
        s2.len() >= (1 + table.len()) * (PAGE_SIZE as int),
        forall|i: int|
            PAGE_SIZE <= i < (1 + table.len()) * (PAGE_SIZE as int) ==> s1[i] == #[trigger] s2[i],
    ensures
        forall|id: u8| #[trigger] region_of(table, s1, id) == region_of(table, s2, id),
{
    assert forall|id: u8| #[trigger] region_of(table, s1, id) == region_of(table, s2, id) by {
        assert forall|b: int|
            0 <= b < page_list(table, id).len() * (PAGE_SIZE as int) implies s1[phys_of(
            table,
            id,
            b,
        )] == s2[phys_of(table, id, b)] by {
            lemma_phys_range(table, id, b);
        }
        assert(region_of(table, s1, id) =~= region_of(table, s2, id));
    }
}

/// Writing one byte of region `id` updates that region pointwise and leaves
/// every other region unchanged.
proof fn lemma_region_update(table: Seq<u8>, s: Seq<u8>, id: u8, b: int, v: u8)
    requires
        s.len() == (1 + table.len()) * (PAGE_SIZE as int),
        0 <= b < page_list(table, id).len() * (PAGE_SIZE as int),
    ensures
        region_of(table, s.update(phys_of(table, id, b), v), id) == region_of(table, s, id).update(
            b,
            v,
        ),
        forall|id2: u8|
            id2 != id ==> #[trigger] region_of(table, s.update(phys_of(table, id, b), v), id2)
                == region_of(table, s, id2),
{
    let p = PAGE_SIZE as int;
    let s2 = s.update(phys_of(table, id, b), v);
    lemma_phys_range(table, id, b);
    assert forall|id2: u8, b2: int|
        0 <= b2 < page_list(table, id2).len() * p && !(id2 == id && b2 == b) implies s2[#[trigger] phys_of(
        table,
        id2,
        b2,
    )] == s[phys_of(table, id2, b2)] by {
        lemma_phys_range(table, id2, b2);
        if phys_of(table, id2, b2) == phys_of(table, id, b) {
            lemma_phys_inj(table, id2, b2, id, b);
        }
    }
    assert(region_of(table, s2, id) =~= region_of(table, s, id).update(b, v));
    assert forall|id2: u8| id2 != id implies #[trigger] region_of(table, s2, id2) == region_of(
        table,
        s,
        id2,
    ) by {
        assert(region_of(table, s2, id2) =~= region_of(table, s, id2));
    }
}

/// Growing the store by one zero page assigned to `id` appends a zero page to
/// that region and leaves every other region unchanged.
proof fn lemma_region_grow_one(table: Seq<u8>, s: Seq<u8>, id: u8)
    requires
        s.len() == (1 + table.len()) * (PAGE_SIZE as int),
    ensures
        region_of(table.push(id), s + zero_bytes(PAGE_SIZE as nat), id) == region_of(table, s, id)
            + zero_bytes(PAGE_SIZE as nat),
        forall|id2: u8|
            id2 != id ==> #[trigger] region_of(
                table.push(id),
                s + zero_bytes(PAGE_SIZE as nat),
                id2,
            ) == region_of(table, s, id2),
{
    let p = PAGE_SIZE as int;
    let t2 = table.push(id);
    let s2 = s + zero_bytes(PAGE_SIZE as nat);
    lemma_page_list_push(table, id, id);
    lemma_page_list_props(table, id);
    let n0 = page_list(table, id).len() as int;
    assert(page_list(t2, id).len() == n0 + 1);
    assert forall|b: int| 0 <= b < (n0 + 1) * p implies #[trigger] region_of(t2, s2, id)[b] == (
    region_of(table, s, id) + zero_bytes(PAGE_SIZE as nat))[b] by {
        if b < n0 * p {
            lemma_div_bound(b, n0, p);
            assert(page_list(t2, id)[b / p] == page_list(table, id)[b / p]);
            lemma_phys_range(table, id, b);
            assert(s2[phys_of(table, id, b)] == s[phys_of(table, id, b)]);
        } else {
            lemma_div_interval(b, n0, p);
            assert(page_list(t2, id)[b / p] == table.len());
            assert(phys_of(t2, id, b) == (table.len() + 1) * p + (b - n0 * p));
            assert(s2[phys_of(t2, id, b)] == 0u8);
        }
    }
    assert(region_of(t2, s2, id) =~= region_of(table, s, id) + zero_bytes(PAGE_SIZE as nat));
    assert forall|id2: u8| id2 != id implies #[trigger] region_of(t2, s2, id2) == region_of(
        table,
        s,
        id2,
    ) by {
        lemma_page_list_push(table, id2, id);
        lemma_page_list_props(table, id2);
        assert forall|b: int|
            0 <= b < page_list(table, id2).len() * p implies s2[#[trigger] phys_of(
            table,
            id2,
            b,
        )] == s[phys_of(table, id2, b)] by {
            lemma_phys_range(table, id2, b);
        }
        assert(region_of(t2, s2, id2) =~= region_of(table, s, id2));
    }
}

/// Pages needed to hold `len` bytes.
pub open spec fn pages_for(len: int) -> int {
    (len + PAGE_SIZE - 1) / (PAGE_SIZE as int)
}

/// Region bytes after writing `data` at `offset`: the region is first grown
/// (whole zero-filled pages) to cover the write, then overlaid with `data`.
pub open spec fn write_result(r0: Seq<u8>, offset: int, data: Seq<u8>) -> Seq<u8> {
    let newlen = if pages_for(offset + data.len()) * (PAGE_SIZE as int) > r0.len() {
        (pages_for(offset + data.len()) * (PAGE_SIZE as int)) as nat
    } else {
        r0.len()
    };
    Seq::new(
        newlen,
        |j: int|
            if offset <= j < offset + data.len() {
                data[j - offset]
            } else if j < r0.len() {
                r0[j]
            } else {
                0u8
            },
    )
}

/// Ceiling division step used to compute the pages a write needs.
proof fn lemma_ceil_div(e: int, p: int)
    by (nonlinear_arith)
    requires
        0 <= e,
        0 < p,
    ensures
        (e + p - 1) / p == e / p + (if e % p == 0 {
            0int
        } else {
            1int
        }),
        e <= ((e + p - 1) / p) * p,
{
}

/// The pages needed for `len` bytes do cover them.
pub proof fn lemma_pages_cover(len: int)
    requires
        0 <= len,
    ensures
        pages_for(len) * (PAGE_SIZE as int) >= len,
{
    lemma_ceil_div(len, PAGE_SIZE as int);
}

/// Whether raw store bytes carry a well-formed bootstrap header.
pub open spec fn store_valid(s: Seq<u8>) -> bool {
    &&& (s.len() as int) % (PAGE_SIZE as int) == 0
    &&& (s.len() > 0 ==> {
        let cnt = le64_val(s.subrange(0, 8));
        &&& s.len() == (1 + cnt) * (PAGE_SIZE as int)
        &&& cnt <= TABLE_CAPACITY
    })
}

/// The page-owner table recorded in raw store bytes.
pub open spec fn store_table(s: Seq<u8>) -> Seq<u8> {
    s.subrange(TABLE_OFFSET as int, TABLE_OFFSET + le64_val(s.subrange(0, 8)))
}

/// The bytes of region `id` as recoverable from raw store bytes alone.
pub open spec fn region_in_store(s: Seq<u8>, id: u8) -> Seq<u8> {
    if s.len() == 0 {
        Seq::empty()
    } else {
        region_of(store_table(s), s, id)
    }
}

/// Owns the physical store and the in-memory copy of the page-owner table,
/// kept consistent with the bootstrap header at all times.
pub struct RegionManager {
    store: StableStore,
    table: Vec<u8>,
}

impl RegionManager {
    /// The in-memory table mirrors the persisted bootstrap header, and the
    /// store holds exactly the header page plus the assigned data pages.
    pub closed spec fn wf(self) -> bool {
        &&& self.table@.len() <= TABLE_CAPACITY
        &&& store_bytes(self.store).len() == (1 + self.table@.len()) * (PAGE_SIZE as int)
        &&& (forall|k: int|
            0 <= k < 8 ==> store_bytes(self.store)[k] == u64_le_bytes(
                self.table@.len() as u64,
            )[k])
        &&& (forall|k: int|
            0 <= k < self.table@.len() ==> store_bytes(self.store)[TABLE_OFFSET + k]
                == self.table@[k])
    }

    /// The current bytes of region `id`.
    pub closed spec fn region(self, id: u8) -> Seq<u8> {
        region_of(self.table@, store_bytes(self.store), id)
    }

    /// Data pages assigned so far, over all regions.
    pub closed spec fn total_pages(self) -> int {
        self.table@.len() as int
    }

    /// Structural facts every well-formed manager provides about a region.
    pub proof fn lemma_region_shape(self, id: u8)
        requires
            self.wf(),
        ensures
            (self.region(id).len() as int) % (PAGE_SIZE as int) == 0,
            self.region(id).len() <= self.total_pages() * (PAGE_SIZE as int),
            0 <= self.total_pages() <= TABLE_CAPACITY,
    {
        lemma_page_list_props(self.table@, id);
        let n = page_list(self.table@, id).len() as int;
        let p = PAGE_SIZE as int;
        assert((n * p) % p == 0 && n * p <= self.table@.len() * p) by (nonlinear_arith)
            requires
                0 <= n <= self.table@.len(),
                p == 65536,
        ;
    }

    /// Count the data pages assigned to region `id`.
    fn count_pages(&self, id: u8) -> (r: u64)
        requires
            self.table@.len() <= TABLE_CAPACITY,
        ensures
            r as int == page_list(self.table@, id).len(),
    {
        let ghost t = self.table@;
        let mut cnt: u64 = 0;
        let mut j: usize = 0;
        while j < self.table.len()
            invariant
                self.table@ == t,
                t.len() <= TABLE_CAPACITY,
                j <= t.len(),
                cnt as int == page_list(t.take(j as int), id).len(),
                cnt <= j,
            decreases t.len() - j,
        {
            proof {
                assert(t.take(j + 1) =~= t.take(j as int).push(t[j as int]));
                lemma_page_list_push(t.take(j as int), id, t[j as int]);
            }
            if self.table[j] == id {
                cnt = cnt + 1;
            }
            j = j + 1;
        }
        proof {
            assert(t.take(t.len() as int) =~= t);
        }
        cnt
    }

    /// Find the `k`-th data page of region `id` (an index into the table).
    fn nth_page(&self, id: u8, k: u64) -> (r: u64)
        requires
            self.table@.len() <= TABLE_CAPACITY,
            (k as int) < page_list(self.table@, id).len(),
        ensures
            r as int == page_list(self.table@, id)[k as int],
    {
        let ghost t = self.table@;
        let mut cnt: u64 = 0;
        let mut j: usize = 0;
        while j < self.table.len()
            invariant
                self.table@ == t,
                t.len() <= TABLE_CAPACITY,
                j <= t.len(),
                cnt as int == page_list(t.take(j as int), id).len(),
                page_list(t.take(j as int), id) == page_list(t, id).take(cnt as int),
                cnt <= k,
                (k as int) < page_list(t, id).len(),
            decreases t.len() - j,
        {
            proof {
                assert(t.take(j + 1) =~= t.take(j as int).push(t[j as int]));
                lemma_page_list_push(t.take(j as int), id, t[j as int]);
                lemma_page_list_take(t, id, j + 1);
            }
            if self.table[j] == id {
                if cnt == k {
                    proof {
                        assert(page_list(t.take(j + 1), id) == page_list(t, id).take(cnt + 1));
                        assert(page_list(t.take(j + 1), id).last() == j as int);
                    }
                    return j as u64;
                }
                cnt = cnt + 1;
            }
            j = j + 1;
        }
        proof {
            assert(t.take(t.len() as int) =~= t);
            assert(false);
        }
        0
    }

    /// Physical store offset of logical byte `b` of region `id`.
    fn phys_index(&self, id: u8, b: u64) -> (r: u64)
        requires
            self.wf(),
            (b as int) < self.region(id).len(),
        ensures
            r as int == phys_of(self.table@, id, b as int),
            (r as int) < store_bytes(self.store).len(),
    {
        let p = PAGE_SIZE;
        proof {
            lemma_page_list_props(self.table@, id);
            lemma_div_bound(b as int, page_list(self.table@, id).len() as int, p as int);
            lemma_phys_range(self.table@, id, b as int);
        }
        let pg = b / p;
        let off = b % p;
        let d = self.nth_page(id, pg);
        (d + 1) * p + off
    }

    /// Attach to the store, replaying the bootstrap header; a fresh (empty)
    /// store is initialized with an empty header page. Fails exactly when a
    /// nonempty store's header is malformed.
    pub fn attach(store: StableStore) -> (r: Result<RegionManager, Error>)
        requires
            (store_bytes(store).len() as int) % (PAGE_SIZE as int) == 0,
        ensures
            r is Ok <==> store_valid(store_bytes(store)),
            match r {
                Ok(m) => {
                    &&& m.wf()
                    &&& (store_bytes(store).len() == 0 ==> m.total_pages() == 0)
                    &&& forall|id: u8|
                        #[trigger] m.region(id) == region_in_store(store_bytes(store), id)
                },
                Err(e) => e == Error::StoreCorruption,
            },
    {
        let ghost s = store_bytes(store);
        let pages = store.size_pages();
        if pages == 0 {
            let mut st = store;
            st.grow_pages(1);
            let m = RegionManager { store: st, table: Vec::new() };
            proof {
                assert(0u64 & 0xff == 0 && (0u64 >> 8) & 0xff == 0 && (0u64 >> 16) & 0xff == 0 && (
                0u64 >> 24) & 0xff == 0 && (0u64 >> 32) & 0xff == 0 && (0u64 >> 40) & 0xff == 0 && (
                0u64 >> 48) & 0xff == 0 && (0u64 >> 56) & 0xff == 0) by (bit_vector);
                assert forall|id: u8| #[trigger] m.region(id) == region_in_store(s, id) by {
                    assert(m.region(id) =~= Seq::<u8>::empty());
                }
            }
            Ok(m)
        } else {
            let mut hdr: Vec<u8> = Vec::new();
            let mut k: u64 = 0;
            while k < 8
                invariant
                    k <= 8,
                    hdr@.len() == k,
                    forall|j: int| 0 <= j < k ==> hdr@[j] == s[j],
                    s == store_bytes(store),
                    s.len() >= PAGE_SIZE,
                decreases 8 - k,
            {
                hdr.push(store.read_byte(k));
                k = k + 1;
            }
            proof {
                assert(hdr@ =~= s.subrange(0, 8));
            }
            let cnt = u64_from_le(&hdr);
            proof {
                assert((1 + cnt as int) * (PAGE_SIZE as int) == s.len() ==> pages as int == 1
                    + cnt as int) by (nonlinear_arith)
                    requires
                        pages as int * (PAGE_SIZE as int) == s.len(),
                ;
                assert(pages as int == 1 + cnt as int ==> (1 + cnt as int) * (PAGE_SIZE as int)
                    == s.len()) by (nonlinear_arith)
                    requires
                        pages as int * (PAGE_SIZE as int) == s.len(),
                ;
            }
            if cnt > TABLE_CAPACITY || cnt != pages - 1 {
                return Err(Error::StoreCorruption);
            }
            let mut table: Vec<u8> = Vec::new();
            let mut k2: u64 = 0;
            while k2 < cnt
                invariant
                    k2 <= cnt,
                    cnt <= TABLE_CAPACITY,
                    table@.len() == k2,
                    forall|j: int| 0 <= j < k2 ==> table@[j] == s[TABLE_OFFSET + j],
                    s == store_bytes(store),
                    s.len() >= PAGE_SIZE,
                decreases cnt - k2,
            {
                table.push(store.read_byte(TABLE_OFFSET + k2));
                k2 = k2 + 1;
            }
            let m = RegionManager { store, table };
            proof {
                assert(m.table@ =~= store_table(s));
                assert forall|j: int| 0 <= j < 8 implies store_bytes(m.store)[j] == u64_le_bytes(
                    m.table@.len() as u64,
                )[j] by {
                    assert(u64_le_bytes(cnt) == hdr@);
                }
                assert forall|id: u8| #[trigger] m.region(id) == region_in_store(s, id) by {
                    assert(region_of(m.table@, s, id) == region_of(store_table(s), s, id));
                }
            }
            Ok(m)
        }
    }

    /// Detach: hand the underlying store back, e.g. to simulate a restart.
    /// The store alone still describes every region.
    pub fn into_store(self) -> (r: StableStore)
        requires
            self.wf(),
        ensures
            store_valid(store_bytes(r)),
            forall|id: u8| #[trigger] region_in_store(store_bytes(r), id) == self.region(id),
    {
        proof {
            let s = store_bytes(self.store);
            let n = self.table@.len() as int;
            let p = PAGE_SIZE as int;
            assert(s.subrange(0, 8) =~= u64_le_bytes(self.table@.len() as u64));
            lemma_le64_val_of_bytes(self.table@.len() as u64);
            assert(((1 + n) * p) % p == 0 && (1 + n) * p > 0) by (nonlinear_arith)
                requires
                    0 <= n,
                    p == 65536,
            ;
            assert(store_table(s) =~= self.table@);
            assert forall|id: u8| #[trigger] region_in_store(s, id) == self.region(id) by {
                assert(region_of(store_table(s), s, id) == region_of(self.table@, s, id));
            }
        }
        self.store
    }

    /// Grow region `id` by `additional` zero-filled pages taken from the
    /// store's free tail, then persist the updated header. Fails, changing
    /// nothing, exactly when the assignment table lacks room.
    pub fn grow_region(&mut self, id: u8, additional: u64) -> (r: Result<(), Error>)
        requires
            old(self).wf(),
        ensures
            final(self).wf(),
            r is Ok <==> old(self).total_pages() + additional <= TABLE_CAPACITY,
            r is Err ==> *final(self) == *old(self) && r == Err::<(), Error>(
                Error::RegionGrowthFailure,
            ),
            r is Ok ==> {
                &&& final(self).total_pages() == old(self).total_pages() + additional
                &&& final(self).region(id) == old(self).region(id) + zero_bytes(
                    (additional * PAGE_SIZE) as nat,
                )
                &&& forall|id2: u8|
                    id2 != id ==> #[trigger] final(self).region(id2) == old(self).region(id2)
            },
    {
        if additional > TABLE_CAPACITY - (self.table.len() as u64) {
            return Err(Error::RegionGrowthFailure);
        }
        let ghost t0 = self.table@;
        let ghost r0 = old(self).region(id);
        let mut i: u64 = 0;
        while i < additional
            invariant
                i <= additional,
                self.table@.len() == t0.len() + i,
                t0.len() + additional <= TABLE_CAPACITY,
                store_bytes(self.store).len() == (1 + self.table@.len()) * (PAGE_SIZE as int),
                forall|k: int|
                    0 <= k < 8 ==> store_bytes(self.store)[k] == u64_le_bytes(t0.len() as u64)[k],
                forall|k: int|
                    0 <= k < self.table@.len() ==> store_bytes(self.store)[TABLE_OFFSET + k]
                        == self.table@[k],
                self.region(id) == r0 + zero_bytes((i * PAGE_SIZE) as nat),
                forall|id2: u8| id2 != id ==> #[trigger] self.region(id2) == old(self).region(id2),
            decreases additional - i,
        {
            let ghost m0 = *self;
            let ghost t = self.table@;
            let ghost s = store_bytes(self.store);
            proof {
                assert((1 + t.len()) * (PAGE_SIZE as int) + 65536 <= 0x1_0000_0000 && ((1 + t.len())
                    * (PAGE_SIZE as int)) % 65536 == 0 && (1 + t.len()) * (PAGE_SIZE as int) >= 8
                    + t.len()) by (nonlinear_arith)
                    requires
                        0 <= t.len(),
                        t.len() + 1 <= 65528,
                ;
            }
            self.store.grow_pages(1);
            let pos = TABLE_OFFSET + (self.table.len() as u64);
            self.store.write_byte(pos, id);
            self.table.push(id);
            proof {
                let s2 = s + zero_bytes(PAGE_SIZE as nat);
                let s3 = s2.update(pos as int, id);
                let t2 = t.push(id);
                assert(store_bytes(self.store) == s3);
                assert(self.table@ == t2);
                lemma_region_grow_one(t, s, id);
                assert(s3.len() == (1 + t2.len()) * (PAGE_SIZE as int)) by (nonlinear_arith)
                    requires
                        s3.len() == s.len() + 65536,
                        s.len() == (1 + t.len()) * (PAGE_SIZE as int),
                        t2.len() == t.len() + 1,
                ;
                lemma_region_frame(t2, s2, s3);
                assert(self.region(id) =~= r0 + zero_bytes(((i + 1) * PAGE_SIZE) as nat));
                assert forall|id2: u8| id2 != id implies #[trigger] self.region(id2) == old(
                    self,
                ).region(id2) by {
                    assert(m0.region(id2) == old(self).region(id2));
                    assert(m0.region(id2) == region_of(t, s, id2));
                    assert(region_of(t2, s2, id2) == region_of(t, s, id2));
                    assert(region_of(t2, s3, id2) == region_of(t2, s2, id2));
                    assert(self.region(id2) == region_of(t2, s3, id2));
                }
            }
            i = i + 1;
        }
        let ghost m_a = *self;
        let enc = u64_to_le(self.table.len() as u64);
        let ghost s_a = store_bytes(self.store);
        let ghost t_a = self.table@;
        let mut k: u64 = 0;
        while k < 8
            invariant
                k <= 8,
                enc@ == u64_le_bytes(t_a.len() as u64),
                self.table@ == t_a,
                t_a.len() <= TABLE_CAPACITY,
                store_bytes(self.store).len() == s_a.len(),
                s_a.len() == (1 + t_a.len()) * (PAGE_SIZE as int),
                s_a.len() >= PAGE_SIZE,
                forall|j: int| 0 <= j < k ==> store_bytes(self.store)[j] == enc@[j],
                forall|j: int| k <= j < s_a.len() ==> store_bytes(self.store)[j] == s_a[j],
            decreases 8 - k,
        {
            let b = enc[k as usize];
            self.store.write_byte(k, b);
            k = k + 1;
        }
        proof {
            lemma_region_frame(t_a, s_a, store_bytes(self.store));
            assert forall|id2: u8| #[trigger] self.region(id2) == m_a.region(id2) by {
                assert(region_of(t_a, s_a, id2) == region_of(t_a, store_bytes(self.store), id2));
                assert(m_a.region(id2) == region_of(t_a, s_a, id2));
                assert(self.region(id2) == region_of(t_a, store_bytes(self.store), id2));
            }
            assert(m_a.region(id) == r0 + zero_bytes((additional * PAGE_SIZE) as nat));
            assert forall|id2: u8| id2 != id implies #[trigger] self.region(id2) == old(
                self,
            ).region(id2) by {
                assert(m_a.region(id2) == old(self).region(id2));
            }
        }
        Ok(())
    }

    /// Whether a write of `n` bytes at `offset` into region `id` fits: either
    /// no growth is needed, or the needed pages are still available.
    pub open spec fn write_fits(self, id: u8, offset: int, n: int) -> bool {
        let need = pages_for(offset + n);
        let cur = (self.region(id).len() as int) / (PAGE_SIZE as int);
        need <= cur || self.total_pages() + (need - cur) <= TABLE_CAPACITY
    }

    /// Allocated extent of region `id`, in pages.
    pub fn region_size_pages(&self, id: u8) -> (r: u64)
        requires
            self.wf(),
        ensures
            r as int * (PAGE_SIZE as int) == self.region(id).len(),
            r <= TABLE_CAPACITY,
    {
        proof {
            lemma_page_list_props(self.table@, id);
        }
        self.count_pages(id)
    }

    /// Read `len` bytes of region `id` starting at `offset`. Fails exactly
    /// when the range reaches past the region's currently allocated extent;
    /// a read never crosses into another region's pages.
    pub fn region_read(&self, id: u8, offset: u64, len: u64) -> (r: Result<Vec<u8>, Error>)
        requires
            self.wf(),
        ensures
            r is Ok <==> offset + len <= self.region(id).len(),
            match r {
                Ok(bytes) => bytes@ == self.region(id).subrange(
                    offset as int,
                    offset + len,
                ),
                Err(e) => e == Error::OutOfBounds,
            },
    {
        let pages = self.region_size_pages(id);
        proof {
            assert(pages as int * 65536 <= 65528 * 65536) by (nonlinear_arith)
                requires
                    0 <= pages as int <= 65528,
            ;
        }
        let rl = pages * PAGE_SIZE;
        if offset > rl || len > rl - offset {
            return Err(Error::OutOfBounds);
        }
        let mut out: Vec<u8> = Vec::new();
        let mut i: u64 = 0;
        while i < len
            invariant
                self.wf(),
                i <= len,
                offset + len <= self.region(id).len(),
                self.region(id).len() <= 65528 * 65536,
                out@.len() == i,
                forall|j: int| 0 <= j < i ==> out@[j] == self.region(id)[offset + j],
            decreases len - i,
        {
            let phys = self.phys_index(id, offset + i);
            let b = self.store.read_byte(phys);
            out.push(b);
            i = i + 1;
        }
        proof {
            assert(out@ =~= self.region(id).subrange(offset as int, offset + len));
        }
        Ok(out)
    }

    /// Write `bytes` into region `id` at `offset`, first growing the region
    /// (whole zero-filled pages, taken from the store's free tail) when the
    /// write reaches past its current extent. On failure nothing changes.
    pub fn region_write(&mut self, id: u8, offset: u64, bytes: &Vec<u8>) -> (r: Result<(), Error>)
        requires
            old(self).wf(),
        ensures
            final(self).wf(),
            r is Ok <==> old(self).write_fits(id, offset as int, bytes@.len() as int),
            r is Err ==> *final(self) == *old(self) && r == Err::<(), Error>(
                Error::RegionGrowthFailure,
            ),
            r is Ok ==> {
                let need = pages_for(offset + bytes@.len());
                let cur = (old(self).region(id).len() as int) / (PAGE_SIZE as int);
                &&& final(self).region(id) == write_result(
                    old(self).region(id),
                    offset as int,
                    bytes@,
                )
                &&& forall|id2: u8|
                    id2 != id ==> #[trigger] final(self).region(id2) == old(self).region(id2)
                &&& final(self).total_pages() == old(self).total_pages() + (if need > cur {
                    need - cur
                } else {
                    0int
                })
            },
    {
        let ghost r0 = old(self).region(id);
        let n = bytes.len() as u64;
        let end = match offset.checked_add(n) {
            Some(e) => e,
            None => {
                proof {
                    lemma_ceil_div(offset + n, PAGE_SIZE as int);
                    assert((offset + n) / (PAGE_SIZE as int) >= 65529) by (nonlinear_arith)
                        requires
                            offset + n >= 0x1_0000_0000_0000_0000,
                    ;
                    self.lemma_region_shape(id);
                    assert((r0.len() as int) / (PAGE_SIZE as int) <= 65528) by (nonlinear_arith)
                        requires
                            0 <= r0.len() <= 65528 * 65536,
                    ;
                }
                return Err(Error::RegionGrowthFailure);
            },
        };
        let need = end / PAGE_SIZE + (if end % PAGE_SIZE != 0 {
            1
        } else {
            0
        });
        proof {
            lemma_ceil_div(end as int, PAGE_SIZE as int);
            assert(need as int == pages_for(offset + n));
        }
        let cur = self.region_size_pages(id);
        proof {
            assert(cur as int == (r0.len() as int) / (PAGE_SIZE as int)) by (nonlinear_arith)
                requires
                    cur as int * 65536 == r0.len(),
            ;
        }
        if need > cur {
            match self.grow_region(id, need - cur) {
                Ok(()) => {},
                Err(e) => {
                    return Err(e);
                },
            }
        }
        let ghost r1 = self.region(id);
        let ghost newlen = r1.len();
        let ghost tp1 = self.total_pages();
        proof {
            self.lemma_region_shape(id);
            assert(newlen <= 65528 * 65536) by (nonlinear_arith)
                requires
                    newlen <= self.total_pages() * (PAGE_SIZE as int),
                    0 <= self.total_pages() <= 65528,
                    PAGE_SIZE == 65536,
            ;
            if need > cur {
                assert(r1.len() == r0.len() + (need - cur) * 65536);
                assert(need as int * 65536 == r0.len() + (need - cur) * 65536)
                    by (nonlinear_arith)
                    requires
                        cur as int * 65536 == r0.len(),
                ;
                assert(end <= need as int * 65536);
            } else {
                assert(end <= cur as int * 65536) by (nonlinear_arith)
                    requires
                        end as int / 65536 + (if end as int % 65536 == 0 {
                            0int
                        } else {
                            1int
                        }) <= cur as int,
                        end as int / 65536 * 65536 + end as int % 65536 == end as int,
                        0 <= end as int % 65536 < 65536,
                ;
            }
            assert(write_result(r0, offset as int, bytes@).len() == newlen);
        }
        let mut i: u64 = 0;
        while i < n
            invariant
                self.wf(),
                i <= n,
                n == bytes@.len(),
                offset + n <= newlen,
                self.region(id).len() == newlen,
                newlen <= 65528 * 65536,
                forall|j: int|
                    0 <= j < newlen ==> self.region(id)[j] == (if offset <= j < offset + i {
                        bytes@[j - offset]
                    } else if j < r0.len() {
                        r0[j]
                    } else {
                        0u8
                    }),
                forall|id2: u8| id2 != id ==> #[trigger] self.region(id2) == old(self).region(id2),
                self.total_pages() == tp1,
            decreases n - i,
        {
            let ghost m0 = *self;
            let ghost t = self.table@;
            let ghost s = store_bytes(self.store);
            let phys = self.phys_index(id, offset + i);
            let b = bytes[i as usize];
            self.store.write_byte(phys, b);
            proof {
                lemma_region_update(t, s, id, offset + i, b);
                lemma_phys_range(t, id, offset + i);
                assert(self.region(id) == m0.region(id).update(offset + i, b));
                assert forall|id2: u8| id2 != id implies #[trigger] self.region(id2) == old(
                    self,
                ).region(id2) by {
                    assert(m0.region(id2) == old(self).region(id2));
                    assert(region_of(t, s.update(phys_of(t, id, offset + i), b), id2) == region_of(
                        t,
                        s,
                        id2,
                    ));
                }
            }
            i = i + 1;
        }
        proof {
            assert(self.region(id) =~= write_result(r0, offset as int, bytes@));
        }
        Ok(())
    }
}

} // verus!
