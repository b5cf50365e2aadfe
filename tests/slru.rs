use sharded_cache::results::InsertResult;
use sharded_cache::slru::SLRU;

#[test]
fn slru_promote_then_probation_overflows() {
    let mut c: SLRU<&str> = SLRU::new(1, 2, 0, 0);
    assert!(matches!(c.insert(1, "a"), InsertResult::Success));
    let r = c.insert(1, "a2");
    assert!(matches!(r, InsertResult::OldEntry { clash: Some((1, "a")), evicted: None }));
    assert!(matches!(c.insert(2, "b"), InsertResult::Success));
    let r = c.insert(3, "c");
    assert!(matches!(r, InsertResult::OldTail { clash: None, evicted: (2, "b") }));
    assert_eq!(c.get(1), Some(&"a2"));
    assert_eq!(c.get(3), Some(&"c"));
}

#[test]
fn slru_protected_overflow_is_reabsorbed() {
    let mut c: SLRU<u32> = SLRU::new(2, 2, 0, 0);
    c.insert(10, 0);
    c.insert(10, 1);
    c.insert(11, 0);
    c.insert(11, 1);
    assert!(matches!(c.insert(12, 0), InsertResult::Success));
    let r = c.insert(12, 1);
    assert!(matches!(r, InsertResult::OldEntry { clash: Some((12, 0)), evicted: None }));
    assert!(c.contains_key(10));
    assert_eq!(c.len(), 3);
    assert!(matches!(c.insert(13, 0), InsertResult::Success));
    let r = c.insert(14, 0);
    assert!(matches!(r, InsertResult::OldTail { clash: None, evicted: (10, 1) }));
    assert!(!c.contains_key(10));
    assert!(c.contains_key(11) && c.contains_key(12) && c.contains_key(13) && c.contains_key(14));
}

#[test]
fn slru_fresh_keys_fill_probation_only() {
    let mut c: SLRU<u8> = SLRU::new(2, 5, 0, 0);
    c.insert(1, 1);
    c.insert(2, 2);
    let r = c.insert(3, 3);
    assert!(matches!(r, InsertResult::OldTail { clash: None, evicted: (1, 1) }));
    assert_eq!(c.len(), 2);
}

#[test]
fn slru_protected_reinsert_stays() {
    let mut c: SLRU<u8> = SLRU::new(1, 1, 0, 0);
    c.insert(4, 1);
    c.insert(4, 2);
    let r = c.insert(4, 3);
    assert!(matches!(r, InsertResult::OldEntry { clash: Some((4, 2)), evicted: None }));
    assert_eq!(c.get(4), Some(&3));
}

#[test]
fn slru_clear_then_refill_never_evicts() {
    let mut c: SLRU<u8> = SLRU::new(2, 2, 1, 0);
    for k in 0..4u64 {
        c.insert(k, 0);
        c.insert(k, 1);
    }
    c.clear();
    assert_eq!(c.len(), 0);
    assert_eq!(c.get(0), None);
    for k in 20..22u64 {
        let r = c.insert(k, 0);
        assert!(matches!(r, InsertResult::Success));
    }
    assert_eq!(c.capacity(), 4);
}

#[test]
fn slru_round_trip_and_remove() {
    let mut c: SLRU<u8> = SLRU::new(2, 2, 0, 0);
    c.insert(1, 10);
    c.insert(2, 20);
    c.insert(2, 21);
    assert_eq!(c.remove(1), Some(10));
    assert_eq!(c.remove(2), Some(21));
    assert_eq!(c.remove(2), None);
    assert_eq!(c.get(1), None);
    assert_eq!(c.len(), 0);
}

#[test]
fn slru_get_mut_changes_value_in_place() {
    let mut c: SLRU<u32> = SLRU::new(1, 1, 0, 0);
    c.insert(1, 10);
    c.insert(1, 11);
    c.insert(2, 20);
    *c.get_mut(1).unwrap() = 12;
    *c.get_mut(2).unwrap() = 21;
    assert!(c.get_mut(3).is_none());
    assert_eq!(c.get(1), Some(&12));
    assert_eq!(c.get(2), Some(&21));
}
