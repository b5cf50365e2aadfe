use sharded_cache::entry::Entry;
use sharded_cache::hashmap::SimpleHmap;
use sharded_cache::results::InsertResultShared;
use sharded_cache::swtlfu::SWTLFUShared;

fn ins(h: &mut SimpleHmap<u32>, w: &mut SWTLFUShared, key: u64, val: u32) -> InsertResultShared {
    let (clash, idx) = h.insert(Entry::new_entry(None, None, key, val, 0));
    let r = w.insert_shared(h, clash.as_ref(), idx);
    if let InsertResultShared::OldTailPtr { evicted } = r {
        h.remove_idx(evicted);
    }
    r
}

fn get(h: &mut SimpleHmap<u32>, w: &mut SWTLFUShared, key: u64) -> Option<u32> {
    let i = h.get_full(key)?.0;
    w.on_get(h, i);
    h.get_index(i).map(|e| *e.get_val())
}

fn cache_id_of(h: &SimpleHmap<u32>, key: u64) -> Option<u8> {
    h.get_full(key).map(|(_, e)| e.get_cache_id())
}

fn fixed() -> (SimpleHmap<u32>, SWTLFUShared) {
    let h = SimpleHmap::with_capacity(101);
    let w = SWTLFUShared::new_with_salts((1, 1), (19, 2), (80, 3), (0, 0));
    (h, w)
}

#[test]
fn wtlfu_fresh_key_lands_in_window() {
    let (mut h, mut w) = fixed();
    assert_eq!(ins(&mut h, &mut w, 5, 50), InsertResultShared::Success);
    assert_eq!(cache_id_of(&h, 5), Some(1));
    assert_eq!(get(&mut h, &mut w, 5), Some(50));
    assert_eq!(w.len(), 1);
}

#[test]
fn wtlfu_reinsert_moves_window_key_to_probation() {
    let (mut h, mut w) = fixed();
    ins(&mut h, &mut w, 92, 0);
    ins(&mut h, &mut w, 92, 1);
    assert_eq!(cache_id_of(&h, 92), Some(2));
    ins(&mut h, &mut w, 92, 2);
    assert_eq!(cache_id_of(&h, 92), Some(3));
    assert_eq!(w.len(), 1);
}

#[test]
fn wtlfu_sampling_is_deterministic_for_fixed_salts() {
    let (_h, w) = fixed();
    assert_eq!(w.det_idx(91), (91, 92, 90));
    assert_eq!(w.capacity(), 100);
    assert_eq!(w.get_cache_ids(), (1, 2, 3));
}

#[test]
fn wtlfu_admission_keeps_frequent_key() {
    let (mut h, mut w) = fixed();
    ins(&mut h, &mut w, 92, 0);
    ins(&mut h, &mut w, 92, 0);
    ins(&mut h, &mut w, 90, 0);
    ins(&mut h, &mut w, 90, 0);
    assert_eq!(ins(&mut h, &mut w, 1000, 7), InsertResultShared::Success);
    for _ in 0..100 {
        assert_eq!(get(&mut h, &mut w, 1000), Some(7));
    }
    assert_eq!(h.get_full(1000).unwrap().1.freq.get_counter(), 101);
    assert_eq!(w.choose_evict(&h, 91), 92);
    let r = ins(&mut h, &mut w, 5, 0);
    assert_eq!(r, InsertResultShared::Success);
    assert_eq!(cache_id_of(&h, 1000), Some(2));
    assert_eq!(get(&mut h, &mut w, 1000), Some(7));
    assert_eq!(cache_id_of(&h, 5), Some(1));
}

#[test]
fn wtlfu_admission_drops_rare_window_tail() {
    let (mut h, mut w) = fixed();
    ins(&mut h, &mut w, 92, 0);
    ins(&mut h, &mut w, 92, 0);
    ins(&mut h, &mut w, 90, 0);
    ins(&mut h, &mut w, 90, 0);
    for _ in 0..5 {
        get(&mut h, &mut w, 92);
        get(&mut h, &mut w, 90);
    }
    ins(&mut h, &mut w, 1000, 7);
    assert_eq!(w.choose_evict(&h, 91), 91);
    let r = ins(&mut h, &mut w, 5, 0);
    assert_eq!(r, InsertResultShared::OldTailPtr { evicted: 91 });
    assert_eq!(get(&mut h, &mut w, 1000), None);
    assert_eq!(w.len(), 3);
}

#[test]
fn wtlfu_standard_split() {
    let w = SWTLFUShared::new_standard(1, 2, 3, 100);
    assert_eq!(w.capacity(), 100);
    let w = SWTLFUShared::new_standard(1, 2, 3, 2);
    assert_eq!(w.capacity(), 3);
    let w = SWTLFUShared::new_standard(1, 2, 3, 10);
    assert_eq!(w.capacity(), 10);
}

#[test]
fn wtlfu_remove_and_clear() {
    let (mut h, mut w) = fixed();
    ins(&mut h, &mut w, 92, 0);
    ins(&mut h, &mut w, 92, 0);
    ins(&mut h, &mut w, 8, 0);
    let i = h.get_full(92).unwrap().0;
    w.remove_shared(&mut h, i);
    h.remove_idx(i);
    assert!(h.get_full(92).is_none());
    assert_eq!(w.len(), 1);
    w.clear_shared();
    h.clear();
    assert_eq!(w.len(), 0);
    assert_eq!(ins(&mut h, &mut w, 92, 4), InsertResultShared::Success);
    assert_eq!(cache_id_of(&h, 92), Some(1));
    assert_eq!(w.len(), 1);
}

#[test]
fn wtlfu_generation_flips_every_capacity_inserts() {
    let mut h: SimpleHmap<u32> = SimpleHmap::with_capacity(4);
    let mut w = SWTLFUShared::new_with_salts((1, 1), (1, 2), (1, 3), (0, 0));
    assert_eq!(w.capacity(), 3);
    let g0 = w.get_generation();
    ins(&mut h, &mut w, 1, 0);
    ins(&mut h, &mut w, 2, 0);
    assert_eq!(w.get_generation(), g0);
    ins(&mut h, &mut w, 3, 0);
    assert_eq!(w.get_generation(), g0.flip());
}

#[test]
fn wtlfu_get_counts_and_scan_runs() {
    let (mut h, mut w) = fixed();
    ins(&mut h, &mut w, 5, 0);
    assert_eq!(h.get_full(5).unwrap().1.freq.get_counter(), 1);
    get(&mut h, &mut w, 5);
    assert_eq!(h.get_full(5).unwrap().1.freq.get_counter(), 2);
    w.start_scan(&mut h);
    assert!(w.is_scan_running());
}

#[test]
fn wtlfu_fresh_key_over_forced_clash_goes_to_window() {
    let mut h: SimpleHmap<u32> = SimpleHmap::with_capacity(2);
    let mut w = SWTLFUShared::new_with_salts((1, 1), (1, 2), (1, 3), (0, 0));
    ins(&mut h, &mut w, 10, 0);
    ins(&mut h, &mut w, 10, 1);
    assert_eq!(cache_id_of(&h, 10), Some(2));
    ins(&mut h, &mut w, 11, 0);
    assert_eq!(cache_id_of(&h, 11), Some(1));
    let (clash, idx) = h.insert(Entry::new_entry(None, None, 12, 2, 0));
    assert_eq!(idx, 0);
    assert_eq!(clash.as_ref().unwrap().get_key(), 10);
    let r = w.insert_shared(&mut h, clash.as_ref(), idx);
    assert_eq!(r, InsertResultShared::OldTailPtr { evicted: 1 });
    h.remove_idx(1);
    assert_eq!(cache_id_of(&h, 12), Some(1));
    assert_eq!(w.len(), 1);
}
