use sharded_cache::entry::Entry;
use sharded_cache::hashmap::SimpleHmap;
use sharded_cache::lru::LRUShared;
use sharded_cache::results::InsertResultShared;
use sharded_cache::scan::ScanFn;
use sharded_cache::slru::SLRUShared;

#[test]
fn lru_shared_scan_walks_toward_tail() {
    let mut h: SimpleHmap<u8> = SimpleHmap::with_capacity(4);
    let mut l = LRUShared::new(3, 1, ScanFn::Nothing);
    for k in 0..3u64 {
        let (_, i) = h.insert(Entry::new_entry(None, None, k, 0, 0));
        assert_eq!(l.insert_shared(&mut h, None, i), InsertResultShared::Success);
    }
    assert_eq!(l.len(), 3);
    assert!(!l.is_scan_running());
    l.start_scan(&mut h);
    assert!(l.is_scan_running());
    let head = h.get_full(2).unwrap().0;
    l.on_get(&mut h, head);
    l.on_get(&mut h, head);
    assert!(l.is_scan_running());
    l.on_get(&mut h, head);
    assert!(!l.is_scan_running());
}

#[test]
fn lru_shared_remove_moves_cursor_off() {
    let mut h: SimpleHmap<u8> = SimpleHmap::with_capacity(4);
    let mut l = LRUShared::new(3, 1, ScanFn::Nothing);
    for k in 0..2u64 {
        let (_, i) = h.insert(Entry::new_entry(None, None, k, 0, 0));
        l.insert_shared(&mut h, None, i);
    }
    l.start_scan(&mut h);
    let head = h.get_full(1).unwrap().0;
    l.remove_shared(&mut h, head);
    h.remove_idx(head);
    assert!(l.is_scan_running());
    assert_eq!(l.len(), 1);
}

#[test]
fn slru_shared_scan_starts_stopped_then_runs() {
    let mut h: SimpleHmap<u8> = SimpleHmap::with_capacity(5);
    let mut s = SLRUShared::new((2, 1), (2, 2), ScanFn::Nothing);
    assert!(!s.is_scan_running());
    assert_eq!(s.get_cache_ids(), (1, 2));
    assert_eq!(s.capacity(), 4);
    s.start_scan(&mut h);
    assert!(!s.is_scan_running());
    let (_, i) = h.insert(Entry::new_entry(None, None, 7, 0, 0));
    s.insert_shared(&mut h, None, i);
    s.start_scan(&mut h);
    assert!(s.is_scan_running());
}
