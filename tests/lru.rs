use sharded_cache::lru::LRU;
use sharded_cache::results::InsertResult;

#[test]
fn lru_basic_evicts_least_recent() {
    let mut c: LRU<&str> = LRU::new(3, 0, 0);
    assert!(matches!(c.insert(1, "a"), InsertResult::Success));
    assert!(matches!(c.insert(2, "b"), InsertResult::Success));
    assert!(matches!(c.insert(3, "c"), InsertResult::Success));
    let r = c.insert(4, "d");
    assert!(matches!(r, InsertResult::OldTail { clash: None, evicted: (1, "a") }));
    assert_eq!(c.get(2), Some(&"b"));
    assert_eq!(c.get(1), None);
    assert_eq!(c.len(), 3);
}

#[test]
fn lru_reinsert_reports_clash() {
    let mut c: LRU<&str> = LRU::new(2, 0, 0);
    c.insert(1, "a");
    c.insert(2, "b");
    let r = c.insert(1, "A");
    assert!(matches!(r, InsertResult::OldEntry { clash: Some((1, "a")), evicted: None }));
    assert_eq!(c.len(), 2);
    assert_eq!(c.get(1), Some(&"A"));
}

#[test]
fn lru_clear_then_refill_never_evicts() {
    let mut c: LRU<u32> = LRU::new(3, 0, 0);
    for k in 0..3u64 {
        c.insert(k, k as u32);
    }
    c.clear();
    assert_eq!(c.len(), 0);
    for k in 0..3u64 {
        assert_eq!(c.get(k), None);
    }
    for k in 10..13u64 {
        let r = c.insert(k, 0);
        assert!(matches!(
            r,
            InsertResult::Success | InsertResult::OldEntry { clash: None, evicted: None }
        ));
    }
    assert_eq!(c.len(), 3);
    assert_eq!(c.capacity(), 3);
}

#[test]
fn lru_len_never_exceeds_capacity() {
    let mut c: LRU<u64> = LRU::new(4, 2, 7);
    for k in 0..50u64 {
        c.insert(k * 13, k);
        assert!(c.len() <= c.capacity());
    }
    assert_eq!(c.len(), 4);
}

#[test]
fn lru_get_does_not_promote() {
    let mut c: LRU<&str> = LRU::new(2, 0, 0);
    c.insert(1, "a");
    c.insert(2, "b");
    assert_eq!(c.get(1), Some(&"a"));
    let r = c.insert(3, "c");
    assert!(matches!(r, InsertResult::OldTail { clash: None, evicted: (1, "a") }));
}

#[test]
fn lru_make_head_promotes() {
    let mut c: LRU<&str> = LRU::new(2, 0, 0);
    c.insert(1, "a");
    c.insert(2, "b");
    assert_eq!(c.make_head(1), Some(&"a"));
    assert_eq!(c.make_head(9), None);
    let r = c.insert(3, "c");
    assert!(matches!(r, InsertResult::OldTail { clash: None, evicted: (2, "b") }));
}

#[test]
fn lru_round_trip_insert_get_remove() {
    let mut c: LRU<String> = LRU::new(3, 1, 0);
    c.insert(5, String::from("five"));
    assert_eq!(c.get(5).map(|s| s.as_str()), Some("five"));
    assert!(c.contains_key(5));
    assert_eq!(c.remove(5), Some(String::from("five")));
    assert_eq!(c.get(5), None);
    assert!(!c.contains_key(5));
    assert_eq!(c.remove(5), None);
    assert_eq!(c.len(), 0);
}

#[test]
fn lru_insert_twice_keeps_one_entry() {
    let mut c: LRU<u8> = LRU::new(3, 0, 0);
    c.insert(7, 1);
    let r = c.insert(7, 2);
    assert!(matches!(r, InsertResult::OldEntry { clash: Some((7, 1)), evicted: None }));
    assert_eq!(c.len(), 1);
    assert_eq!(c.remove(7), Some(2));
    assert_eq!(c.remove(7), None);
}

#[test]
fn lru_zero_capacity_hands_back_the_new_pair() {
    let mut c: LRU<u8> = LRU::new(0, 0, 0);
    let r = c.insert(1, 9);
    assert!(matches!(r, InsertResult::OldTail { clash: None, evicted: (1, 9) }));
    assert_eq!(c.len(), 0);
    assert_eq!(c.get(1), None);
}

#[test]
fn lru_get_mut_changes_value_in_place() {
    let mut c: LRU<u32> = LRU::new(2, 0, 0);
    c.insert(1, 10);
    c.insert(2, 20);
    *c.get_mut(1).unwrap() = 11;
    assert!(c.get_mut(3).is_none());
    assert_eq!(c.get(1), Some(&11));
    let r = c.insert(3, 30);
    assert!(matches!(r, InsertResult::OldTail { clash: None, evicted: (1, 11) }));
}
