//! The physical persistent store: a flat, page-granular, byte-addressable
//! memory backed by `ic_stable_structures`. Verus cannot look inside it, so a
//! handful of trusted wrappers state what its `Memory` implementation does;
//! every reachable store keeps its byte length a multiple of the page size.

use vstd::prelude::*;

use ic_stable_structures::Memory;
use ic_stable_structures::VectorMemory;

verus! {

/// The single physical persistent store, organized as fixed-size pages.
///
/// Holds an `ic_stable_structures::VectorMemory`, whose declaration Verus
/// refuses (it is an alias for `Rc<RefCell<Vec<u8>>>`), so the whole struct is
/// opaque and its behaviour is stated by the wrappers below.
#[verifier::external_body]
pub struct StableStore {
    mem: VectorMemory,
}

/// The bytes the store currently holds; its length is the number of allocated
/// pages times 65536.
pub uninterp spec fn store_bytes(s: StableStore) -> Seq<u8>;

/// A run of `n` zero bytes.
pub open spec fn zero_bytes(n: nat) -> Seq<u8> {
    Seq::new(n, |i: int| 0u8)
}

impl StableStore {
    /// Relies on `VectorMemory::default`, which starts from an empty buffer.
    #[verifier::external_body]
    pub fn new() -> (r: StableStore)
        ensures
            store_bytes(r).len() == 0,
    {
        StableStore { mem: VectorMemory::default() }
    }

    /// Relies on `Memory::size` for `VectorMemory`: the current page count,
    /// the byte length divided by 65536.
    #[verifier::external_body]
    pub(crate) fn size_pages(&self) -> (r: u64)
        requires
            store_bytes(*self).len() % 65536 == 0,
        ensures
            r as int * 65536 == store_bytes(*self).len(),
    {
        self.mem.size()
    }

    /// Relies on `Memory::grow` for `VectorMemory`: appends zero-filled whole
    /// pages; below the page cap checked in its source it cannot fail.
    #[verifier::external_body]
    pub(crate) fn grow_pages(&mut self, pages: u64)
        requires
            store_bytes(*old(self)).len() % 65536 == 0,
            store_bytes(*old(self)).len() + pages * 65536 <= 0x1_0000_0000,
        ensures
            store_bytes(*final(self)) == store_bytes(*old(self)) + zero_bytes(
                (pages * 65536) as nat,
            ),
    {
        let _ = self.mem.grow(pages);
    }

    /// Relies on `Memory::read` for `VectorMemory`: copies the byte at
    /// `offset`; out-of-range reads panic in its source, so they are excluded.
    #[verifier::external_body]
    pub(crate) fn read_byte(&self, offset: u64) -> (r: u8)
        requires
            offset < store_bytes(*self).len(),
        ensures
            r == store_bytes(*self)[offset as int],
    {
        let mut buf: [u8; 1] = [0u8];
        self.mem.read(offset, &mut buf);
        buf[0]
    }

    /// Relies on `Memory::write` for `VectorMemory`: overwrites the byte at
    /// `offset`; out-of-range writes panic in its source, so they are excluded.
    #[verifier::external_body]
    pub(crate) fn write_byte(&mut self, offset: u64, value: u8)
        requires
            offset < store_bytes(*old(self)).len(),
        ensures
            store_bytes(*final(self)) == store_bytes(*old(self)).update(offset as int, value),
    {
        let buf: [u8; 1] = [value];
        self.mem.write(offset, &buf);
    }
}

} // verus!
