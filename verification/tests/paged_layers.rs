use paged_vec::codec::u64_from_le;
use paged_vec::codec::u64_to_le;
use paged_vec::Error;
use paged_vec::PagedVec;
use paged_vec::RegionManager;
use paged_vec::StableStore;

fn fresh_manager() -> RegionManager {
    RegionManager::attach(StableStore::new()).unwrap()
}

#[test]
fn le_codec_round_trip() {
    for x in [0u64, 1, 255, 256, 0xdead_beef, u64::MAX] {
        let b = u64_to_le(x);
        assert_eq!(b.len(), 8);
        assert_eq!(u64_from_le(&b), x);
    }
    assert_eq!(u64_to_le(0x0102_0304), vec![4, 3, 2, 1, 0, 0, 0, 0]);
}

#[test]
fn oversized_record_rejected() {
    let mgr = fresh_manager();
    let mut v = PagedVec::attach(mgr, 1).unwrap();
    let big = vec![7u8; 10001];
    assert_eq!(v.push_bytes(&big), Err(Error::EncodingTooLarge));
    assert_eq!(v.len(), 0);
    let ok = vec![7u8; 10000];
    v.push_bytes(&ok).unwrap();
    assert_eq!(v.len(), 1);
    assert_eq!(v.get_bytes(0).unwrap(), ok);
}

#[test]
fn byte_records_round_trip() {
    let mgr = fresh_manager();
    let mut v = PagedVec::attach(mgr, 3).unwrap();
    v.push_bytes(&vec![]).unwrap();
    v.push_bytes(&vec![1, 2, 3]).unwrap();
    v.push_bytes(&vec![0xff; 100]).unwrap();
    assert_eq!(v.len(), 3);
    assert_eq!(v.get_bytes(0).unwrap(), Vec::<u8>::new());
    assert_eq!(v.get_bytes(1).unwrap(), vec![1, 2, 3]);
    assert_eq!(v.get_bytes(2).unwrap(), vec![0xff; 100]);
    assert_eq!(v.get_bytes(3), Err(Error::IndexOutOfRange));
}

#[test]
fn region_read_bounds() {
    let mgr = fresh_manager();
    assert_eq!(mgr.region_read(5, 0, 1), Err(Error::OutOfBounds));
    assert_eq!(mgr.region_size_pages(5), 0);
}

#[test]
fn region_write_grows_and_reads_back() {
    let mut mgr = fresh_manager();
    let data = vec![9u8, 8, 7, 6, 5];
    mgr.region_write(2, 10, &data).unwrap();
    assert_eq!(mgr.region_size_pages(2), 1);
    assert_eq!(mgr.region_read(2, 10, 5).unwrap(), data);
    // bytes the write never touched read as zero
    assert_eq!(mgr.region_read(2, 0, 10).unwrap(), vec![0u8; 10]);
    // a write that crosses a page boundary grows by whole pages
    let span = vec![0xabu8; 10];
    mgr.region_write(2, 65530, &span).unwrap();
    assert_eq!(mgr.region_size_pages(2), 2);
    assert_eq!(mgr.region_read(2, 65530, 10).unwrap(), span);
}

#[test]
fn regions_do_not_overlap() {
    let mut mgr = fresh_manager();
    mgr.region_write(1, 0, &vec![0x11; 4]).unwrap();
    mgr.region_write(2, 0, &vec![0x22; 4]).unwrap();
    mgr.region_write(1, 2, &vec![0x33; 2]).unwrap();
    assert_eq!(mgr.region_read(1, 0, 4).unwrap(), vec![0x11, 0x11, 0x33, 0x33]);
    assert_eq!(mgr.region_read(2, 0, 4).unwrap(), vec![0x22; 4]);
}

#[test]
fn manager_state_survives_reattach() {
    let mut mgr = fresh_manager();
    mgr.region_write(4, 1, &vec![42u8; 3]).unwrap();
    let store = mgr.into_store();
    let mgr2 = RegionManager::attach(store).unwrap();
    assert_eq!(mgr2.region_size_pages(4), 1);
    assert_eq!(mgr2.region_read(4, 1, 3).unwrap(), vec![42u8; 3]);
}
