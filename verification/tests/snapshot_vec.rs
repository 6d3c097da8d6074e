use paged_vec::Error;
use paged_vec::RegionManager;
use paged_vec::Snapshot;
use paged_vec::SnapshotVec;
use paged_vec::StableStore;

fn fresh_vec() -> SnapshotVec {
    let store = StableStore::new();
    let mgr = RegionManager::attach(store).unwrap();
    SnapshotVec::attach(mgr, 1).unwrap()
}

#[test]
fn empty_vector_behavior() {
    let v = fresh_vec();
    assert_eq!(v.len(), 0);
    assert_eq!(v.last().unwrap(), None);
    assert_eq!(v.top(5).unwrap(), Vec::new());
}

#[test]
fn scenario_single_push() {
    let mut v = fresh_vec();
    assert_eq!(v.len(), 0);
    v.push(Snapshot { value: 42, timestamp: 1000 }).unwrap();
    assert_eq!(v.len(), 1);
    assert_eq!(v.get(0).unwrap(), Snapshot { value: 42, timestamp: 1000 });
    assert_eq!(v.last().unwrap(), Some(Snapshot { value: 42, timestamp: 1000 }));
    let t = v.top(10).unwrap();
    assert_eq!(t, vec![Snapshot { value: 42, timestamp: 1000 }]);
}

#[test]
fn round_trip_many() {
    let mut v = fresh_vec();
    for i in 0..8u64 {
        v.push(Snapshot { value: i * 7, timestamp: 1_000_000 + i }).unwrap();
    }
    for i in 0..8u64 {
        let s = v.get(i).unwrap();
        assert_eq!(s, Snapshot { value: i * 7, timestamp: 1_000_000 + i });
    }
}

#[test]
fn length_monotonic() {
    let mut v = fresh_vec();
    for i in 0..5u64 {
        let before = v.len();
        v.push(Snapshot { value: i, timestamp: i }).unwrap();
        assert_eq!(v.len(), before + 1);
    }
}

#[test]
fn index_bound() {
    let mut v = fresh_vec();
    assert_eq!(v.get(0), Err(Error::IndexOutOfRange));
    v.push(Snapshot { value: 1, timestamp: 2 }).unwrap();
    v.push(Snapshot { value: 3, timestamp: 4 }).unwrap();
    assert!(v.get(0).is_ok());
    assert!(v.get(1).is_ok());
    assert_eq!(v.get(2), Err(Error::IndexOutOfRange));
    assert_eq!(v.get(u64::MAX), Err(Error::IndexOutOfRange));
}

#[test]
fn top_n_order() {
    let mut v = fresh_vec();
    for i in 0..5u64 {
        v.push(Snapshot { value: 10 + i, timestamp: 100 + i }).unwrap();
    }
    assert_eq!(v.top(0).unwrap(), Vec::new());
    let t3 = v.top(3).unwrap();
    assert_eq!(t3.len(), 3);
    assert_eq!(t3[0], Snapshot { value: 14, timestamp: 104 });
    assert_eq!(t3[1], Snapshot { value: 13, timestamp: 103 });
    assert_eq!(t3[2], Snapshot { value: 12, timestamp: 102 });
    let t9 = v.top(9).unwrap();
    assert_eq!(t9.len(), 5);
    for (j, s) in t9.iter().enumerate() {
        assert_eq!(*s, Snapshot { value: 10 + 4 - j as u64, timestamp: 100 + 4 - j as u64 });
    }
}

#[test]
fn restart_durability_simulated() {
    let mut v = fresh_vec();
    let a = Snapshot { value: 1, timestamp: 11 };
    let b = Snapshot { value: 2, timestamp: 22 };
    let c = Snapshot { value: 3, timestamp: 33 };
    v.push(a).unwrap();
    v.push(b).unwrap();
    v.push(c).unwrap();
    let mgr = v.into_manager();
    let store = mgr.into_store();
    // reattach to the same store, as after a process restart
    let mgr2 = RegionManager::attach(store).unwrap();
    let v2 = SnapshotVec::attach(mgr2, 1).unwrap();
    assert_eq!(v2.len(), 3);
    assert_eq!(v2.get(0).unwrap(), a);
    assert_eq!(v2.get(1).unwrap(), b);
    assert_eq!(v2.get(2).unwrap(), c);
}

#[test]
fn add_many_batch() {
    let mut v = fresh_vec();
    v.push(Snapshot { value: 9, timestamp: 1 }).unwrap();
    v.add_many(7, 500, 3).unwrap();
    assert_eq!(v.len(), 4);
    assert_eq!(v.get(0).unwrap(), Snapshot { value: 9, timestamp: 1 });
    for i in 1..4u64 {
        assert_eq!(v.get(i).unwrap(), Snapshot { value: 7, timestamp: 500 });
    }
    v.add_many(8, 600, 0).unwrap();
    assert_eq!(v.len(), 4);
}

#[test]
fn corrupt_length_field_rejected_on_attach() {
    let store = StableStore::new();
    let mut mgr = RegionManager::attach(store).unwrap();
    // a length field far past any extent the region could hold
    let junk = vec![0xffu8; 8];
    mgr.region_write(1, 0, &junk).unwrap();
    assert!(matches!(SnapshotVec::attach(mgr, 1), Err(Error::StoreCorruption)));
}
