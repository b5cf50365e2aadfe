use sharded_cache::entry::{Entry, Full, Generation};
use sharded_cache::hashmap::SimpleHmap;

#[test]
fn store_insert_lookup_remove() {
    let mut h: SimpleHmap<u8> = SimpleHmap::with_capacity(4);
    assert_eq!(h.capacity(), 4);
    let (clash, idx) = h.insert(Entry::new_entry(None, None, 9, 1, 0));
    assert!(clash.is_none());
    assert_eq!(h.len(), 1);
    let (i, e) = h.get_full(9).unwrap();
    assert_eq!(i, idx);
    assert_eq!(*e.get_val(), 1);
    assert!(h.get_index(idx).is_some());
    let (clash, idx2) = h.insert(Entry::new_entry(None, None, 9, 2, 0));
    assert_eq!(idx2, idx);
    assert_eq!(clash.unwrap().deconstruct(), (9, 1));
    assert_eq!(h.len(), 1);
    assert_eq!(h.remove(9).unwrap().deconstruct(), (9, 2));
    assert!(h.get_full(9).is_none());
    assert!(h.remove_idx(idx).is_none());
    assert!(h.remove_idx(100).is_none());
    assert_eq!(h.len(), 0);
}

#[test]
fn store_full_forces_a_clash() {
    let mut h: SimpleHmap<u8> = SimpleHmap::with_capacity_and_hasher(2, 3);
    assert_eq!(h.hasher(), 3);
    h.insert(Entry::new_entry(None, None, 1, 1, 0));
    h.insert(Entry::new_entry(None, None, 2, 2, 0));
    assert_eq!(h.len(), 2);
    let (clash, idx) = h.insert(Entry::new_entry(None, None, 3, 3, 0));
    let old = clash.unwrap();
    assert!(old.get_key() == 1 || old.get_key() == 2);
    assert_eq!(h.len(), 2);
    assert_eq!(h.get_full(3).unwrap().0, idx);
    assert!(h.get_full(old.get_key()).is_none());
}

#[test]
fn store_clear_empties_every_slot() {
    let mut h: SimpleHmap<u8> = SimpleHmap::with_capacity(3);
    for k in 0..3u64 {
        h.insert(Entry::new_entry(None, None, k, 0, 0));
    }
    h.clear();
    assert_eq!(h.len(), 0);
    assert_eq!(h.capacity(), 3);
    for i in 0..3usize {
        assert!(h.get_index(i).is_none());
    }
}

#[test]
fn store_links_and_tags() {
    let mut h: SimpleHmap<u8> = SimpleHmap::with_capacity(3);
    let (_, i) = h.insert(Entry::new_entry(None, None, 5, 0, 0));
    h.set_links(i, Some(1), Some(2));
    h.set_cache_id(i, 4);
    let e = h.get_index(i).unwrap();
    assert_eq!(e.get_head_ptr(), Some(1));
    assert_eq!(e.get_tail_ptr(), Some(2));
    assert_eq!(e.get_cache_id(), 4);
    h.set_head_ptr(i, None);
    h.set_tail_ptr(i, None);
    assert_eq!(h.get_index(i).unwrap().get_head_ptr(), None);
    assert_eq!(h.get_index(i).unwrap().get_tail_ptr(), None);
}

#[test]
fn counter_halves_once_per_generation() {
    let mut f = Full::new();
    for _ in 0..9 {
        f.add();
    }
    assert_eq!(f.get_counter(), 9);
    f.age(Generation::Night);
    assert_eq!(f.get_counter(), 4);
    assert_eq!(f.generation(), Generation::Night);
    f.age(Generation::Night);
    assert_eq!(f.get_counter(), 4);
    f.next(&Full { counter: 0, generation: Generation::Day });
    assert_eq!(f.get_counter(), 2);
    assert_eq!(f.generation(), Generation::Day);
    f.next(&Full { counter: 0, generation: Generation::Day });
    assert_eq!(f.get_counter(), 3);
    assert_eq!(Generation::Day.flip(), Generation::Night);
}

#[test]
fn counter_saturates() {
    let mut f = Full { counter: sharded_cache::entry::COUNTER_MAX, generation: Generation::Day };
    f.add();
    assert_eq!(f.get_counter(), sharded_cache::entry::COUNTER_MAX);
}
