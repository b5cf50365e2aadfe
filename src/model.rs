//! The abstract view of a cache: its `(key, value)` pairs in chain order,
//! most recent first, and what each operation does to them.
use vstd::prelude::*;
use crate::results::InsertResult;

verus! {

pub open spec fn listed<V>(v: Seq<(u64, V)>, key: u64) -> bool {
    exists|p: int| 0 <= p < v.len() && v[p].0 == key
}

/// Position of `key`, meaningful where `listed(v, key)`.
pub open spec fn key_index<V>(v: Seq<(u64, V)>, key: u64) -> int {
    choose|p: int| 0 <= p < v.len() && v[p].0 == key
}

pub open spec fn lookup<V>(v: Seq<(u64, V)>, key: u64) -> Option<V> {
    if listed(v, key) {
        Some(v[key_index(v, key)].1)
    } else {
        None
    }
}

/// Lookup in a segmented cache: probation first, then protected.
pub open spec fn lookup2<V>(pv: Seq<(u64, V)>, qv: Seq<(u64, V)>, key: u64) -> Option<V> {
    if listed(pv, key) {
        lookup(pv, key)
    } else {
        lookup(qv, key)
    }
}

pub open spec fn keys_distinct<V>(v: Seq<(u64, V)>) -> bool {
    forall|a: int, b: int| 0 <= a < v.len() && 0 <= b < v.len() && a != b ==> v[a].0 != v[b].0
}

/// Push a fresh item at the head of a chain of capacity `cap`; where the
/// chain is full, its tail comes back (the item itself, at capacity zero).
pub open spec fn push_fresh<T>(v: Seq<T>, cap: nat, x: T) -> (Seq<T>, Option<T>) {
    if v.len() < cap {
        (seq![x].add(v), None)
    } else if v.len() > 0 {
        (seq![x].add(v.drop_last()), Some(v.last()))
    } else {
        (v, Some(x))
    }
}

/// What `push_fresh` keeps: every item of `v`, and `x`, either stays in
/// the chain or is the one that comes back; nothing else enters.
pub proof fn lemma_push_fresh<T>(v: Seq<T>, cap: nat, x: T)
    ensures
        forall|y: T|
            (v.contains(y) || y == x) ==> #[trigger] push_fresh(v, cap, x).0.contains(y) || push_fresh(v, cap, x).1
                == Some(y),
        forall|y: T| push_fresh(v, cap, x).0.contains(y) ==> v.contains(y) || y == x,
        forall|y: T| push_fresh(v, cap, x).1 == Some(y) ==> v.contains(y) || y == x,
        v.len() < cap ==> push_fresh(v, cap, x).1 is None,
        push_fresh(v, cap, x).0.len() <= v.len() + 1,
        v.len() <= cap ==> push_fresh(v, cap, x).0.len() <= cap,
{
    let r = push_fresh(v, cap, x).0;
    assert forall|y: T| (v.contains(y) || y == x) implies r.contains(y) || push_fresh(v, cap, x).1 == Some(y) by {
        if y == x {
            if v.len() < cap || v.len() > 0 {
                assert(r[0] == x);
            }
        } else {
            let i = choose|i: int| 0 <= i < v.len() && v[i] == y;
            if v.len() < cap {
                assert(r[i + 1] == y);
            } else if i < v.len() - 1 {
                assert(r[i + 1] == y);
            }
        }
    }
    if v.len() >= cap && v.len() > 0 {
        assert(v.contains(v.last())) by {
            assert(v[v.len() - 1] == v.last());
        }
    }
    assert forall|y: T| r.contains(y) implies v.contains(y) || y == x by {
        let i = choose|i: int| 0 <= i < r.len() && r[i] == y;
        if i > 0 && (v.len() < cap || v.len() > 0) {
            assert(v[i - 1] == y);
        }
    }
}

/// Insert into an LRU of capacity `cap`: a known key moves to the head
/// with its new value and its old pair comes back as the clash; a fresh
/// key goes to the head, and where the cache was full the tail leaves.
pub open spec fn lru_insert<V>(v: Seq<(u64, V)>, cap: nat, key: u64, val: V) -> (
    Seq<(u64, V)>,
    InsertResult<(u64, V)>,
) {
    if listed(v, key) {
        let p = key_index(v, key);
        (
            seq![(key, val)].add(v.remove(p)),
            InsertResult::OldEntry { clash: Some(v[p]), evicted: None },
        )
    } else if v.len() < cap {
        (seq![(key, val)].add(v), InsertResult::Success)
    } else if v.len() > 0 {
        (
            seq![(key, val)].add(v.drop_last()),
            InsertResult::OldTail { clash: None, evicted: v.last() },
        )
    } else {
        (v, InsertResult::OldTail { clash: None, evicted: (key, val) })
    }
}

/// Insert into a segmented LRU whose probation holds `pv` (capacity
/// `pcap`) and protected `qv` (capacity `qcap`). A fresh key goes to the
/// head of probation. A probation key is promoted to the head of
/// protected; the protected tail that this pushes out goes back to the
/// head of probation, and only what then overflows probation leaves the
/// cache. A protected key moves to the head of protected. The old pair of
/// a known key always comes back as the clash.
pub open spec fn slru_insert<V>(
    pv: Seq<(u64, V)>,
    qv: Seq<(u64, V)>,
    pcap: nat,
    qcap: nat,
    key: u64,
    val: V,
) -> (Seq<(u64, V)>, Seq<(u64, V)>, InsertResult<(u64, V)>) {
    if listed(pv, key) {
        let p = key_index(pv, key);
        let pv1 = pv.remove(p);
        let (qv2, out1) = push_fresh(qv, qcap, (key, val));
        match out1 {
            None => (pv1, qv2, InsertResult::OldEntry { clash: Some(pv[p]), evicted: None }),
            Some(t) => {
                let (pv2, out2) = push_fresh(pv1, pcap, t);
                match out2 {
                    None => (pv2, qv2, InsertResult::OldEntry { clash: Some(pv[p]), evicted: None }),
                    Some(e) => (pv2, qv2, InsertResult::OldTail { clash: Some(pv[p]), evicted: e }),
                }
            },
        }
    } else if listed(qv, key) {
        let p = key_index(qv, key);
        (pv, seq![(key, val)].add(qv.remove(p)), InsertResult::OldEntry { clash: Some(qv[p]), evicted: None })
    } else {
        let (pv2, out) = push_fresh(pv, pcap, (key, val));
        match out {
            None => (pv2, qv, InsertResult::Success),
            Some(e) => (pv2, qv, InsertResult::OldTail { clash: None, evicted: e }),
        }
    }
}

/// Remove `key`: its value comes back and its pair leaves the sequence.
pub open spec fn remove_key<V>(v: Seq<(u64, V)>, key: u64) -> (Seq<(u64, V)>, Option<V>) {
    if listed(v, key) {
        let p = key_index(v, key);
        (v.remove(p), Some(v[p].1))
    } else {
        (v, None)
    }
}

/// Move the pair of `key`, if any, to the head.
pub open spec fn to_head<V>(v: Seq<(u64, V)>, key: u64) -> Seq<(u64, V)> {
    if listed(v, key) {
        let p = key_index(v, key);
        seq![v[p]].add(v.remove(p))
    } else {
        v
    }
}

/// In a sequence without repeated keys, the position of a key is the one
/// where it stands.
pub proof fn lemma_key_index<V>(v: Seq<(u64, V)>, p: int)
    requires
        keys_distinct(v),
        0 <= p < v.len(),
    ensures
        listed(v, v[p].0),
        key_index(v, v[p].0) == p,
        lookup(v, v[p].0) == Some(v[p].1),
{
    assert(listed(v, v[p].0));
}


/// After an insert into a cache of non-zero capacity, a lookup of the key
/// finds the value just inserted.
pub proof fn law_insert_then_get<V>(v: Seq<(u64, V)>, cap: nat, key: u64, val: V)
    requires
        keys_distinct(v),
        v.len() <= cap,
        cap > 0,
    ensures
        lookup(lru_insert(v, cap, key, val).0, key) == Some(val),
        keys_distinct(lru_insert(v, cap, key, val).0),
{
    lemma_insert_keys(v, cap, key, val);
    lemma_key_index(lru_insert(v, cap, key, val).0, 0);
}

/// An insert keeps keys distinct and puts the key at the head.
pub proof fn lemma_insert_keys<V>(v: Seq<(u64, V)>, cap: nat, key: u64, val: V)
    requires
        keys_distinct(v),
        v.len() <= cap,
        cap > 0,
    ensures
        keys_distinct(lru_insert(v, cap, key, val).0),
        lru_insert(v, cap, key, val).0.len() > 0,
        lru_insert(v, cap, key, val).0[0] == (key, val),
        lru_insert(v, cap, key, val).0.len() <= cap,
{
    let v2 = lru_insert(v, cap, key, val).0;
    if listed(v, key) {
        let p = key_index(v, key);
        assert forall|a: int, b: int| 0 <= a < v2.len() && 0 <= b < v2.len() && a != b implies v2[a].0 != v2[b].0 by {
            if a > 0 && b > 0 {
                let a1 = if a - 1 < p { a - 1 } else { a };
                let b1 = if b - 1 < p { b - 1 } else { b };
                assert(v2[a] == v[a1] && v2[b] == v[b1]);
            } else if a == 0 {
                let b1 = if b - 1 < p { b - 1 } else { b };
                assert(v2[b] == v[b1]);
                assert(b1 != p);
            } else {
                let a1 = if a - 1 < p { a - 1 } else { a };
                assert(v2[a] == v[a1]);
                assert(a1 != p);
            }
        }
    } else {
        assert forall|a: int, b: int| 0 <= a < v2.len() && 0 <= b < v2.len() && a != b implies v2[a].0 != v2[b].0 by {
            if a > 0 && b > 0 {
                assert(v2[a] == v[a - 1] && v2[b] == v[b - 1]);
            } else if a == 0 {
                assert(v2[b] == v[b - 1]);
            } else {
                assert(v2[a] == v[a - 1]);
            }
        }
    }
}

/// After an insert, removing the key hands back the value just inserted,
/// and a lookup then finds nothing.
pub proof fn law_insert_then_remove<V>(v: Seq<(u64, V)>, cap: nat, key: u64, val: V)
    requires
        keys_distinct(v),
        v.len() <= cap,
        cap > 0,
    ensures
        remove_key(lru_insert(v, cap, key, val).0, key).1 == Some(val),
        lookup(remove_key(lru_insert(v, cap, key, val).0, key).0, key) is None,
{
    lemma_insert_keys(v, cap, key, val);
    let v2 = lru_insert(v, cap, key, val).0;
    lemma_key_index(v2, 0);
    law_remove_then_get(v2, key);
}

/// After a remove, a lookup of the key finds nothing.
pub proof fn law_remove_then_get<V>(v: Seq<(u64, V)>, key: u64)
    requires
        keys_distinct(v),
    ensures
        lookup(remove_key(v, key).0, key) is None,
{
    if listed(v, key) {
        let p = key_index(v, key);
        let v2 = v.remove(p);
        if listed(v2, key) {
            let j = choose|j: int| 0 <= j < v2.len() && v2[j].0 == key;
            let j1 = if j < p { j } else { j + 1 };
            assert(v[j1].0 == key);
        }
    }
}

/// Inserting a key twice leaves it once, with the second value, and the
/// second insert reports the first pair as its clash, evicting nothing.
pub proof fn law_insert_twice<V>(v: Seq<(u64, V)>, cap: nat, key: u64, a: V, b: V)
    requires
        keys_distinct(v),
        v.len() <= cap,
        cap > 0,
    ensures
        ({
            let v1 = lru_insert(v, cap, key, a).0;
            let (v2, r2) = lru_insert(v1, cap, key, b);
            &&& r2 == InsertResult::OldEntry { clash: Some((key, a)), evicted: None::<(u64, V)> }
            &&& keys_distinct(v2)
            &&& v2[0] == (key, b)
            &&& forall|i: int| 0 < i < v2.len() ==> v2[i].0 != key
        }),
{
    lemma_insert_keys(v, cap, key, a);
    let v1 = lru_insert(v, cap, key, a).0;
    lemma_key_index(v1, 0);
    lemma_insert_keys(v1, cap, key, b);
}

/// In a full cache, a fresh key evicts the least recent pair: the tail,
/// the one inserted or moved to the head longest ago.
pub proof fn law_evicts_least_recent<V>(v: Seq<(u64, V)>, cap: nat, key: u64, val: V)
    requires
        !listed(v, key),
        v.len() == cap,
        cap > 0,
    ensures
        lru_insert(v, cap, key, val).1 == (InsertResult::OldTail { clash: None, evicted: v[v.len() - 1] }),
{
}

/// Below capacity a fresh key is linked without displacing anything: after
/// a clear, `capacity` fresh keys all go in with `Success`.
pub proof fn law_room_below_capacity<V>(v: Seq<(u64, V)>, cap: nat, key: u64, val: V)
    requires
        !listed(v, key),
        v.len() < cap,
    ensures
        lru_insert(v, cap, key, val).1 == InsertResult::<(u64, V)>::Success,
        lru_insert(v, cap, key, val).0.len() == v.len() + 1,
{
}

/// A lookup in an empty cache finds nothing.
pub proof fn law_empty_lookup<V>(key: u64)
    ensures
        lookup(Seq::<(u64, V)>::empty(), key) is None,
        lookup2(Seq::<(u64, V)>::empty(), Seq::<(u64, V)>::empty(), key) is None,
{
}

/// A fresh key goes to the head of probation, where probation has room
/// for at least one entry.
pub proof fn law_fresh_to_probation<V>(pv: Seq<(u64, V)>, qv: Seq<(u64, V)>, pcap: nat, qcap: nat, key: u64, val: V)
    requires
        !listed(pv, key),
        !listed(qv, key),
        pcap > 0,
    ensures
        slru_insert(pv, qv, pcap, qcap, key, val).0[0] == (key, val),
        slru_insert(pv, qv, pcap, qcap, key, val).0.len() > 0,
        slru_insert(pv, qv, pcap, qcap, key, val).1 == qv,
{
}

/// Inserting again a key that is in probation moves it to the head of
/// protected, with the new value, and out of probation.
pub proof fn law_probation_promotes<V>(
    pv: Seq<(u64, V)>,
    qv: Seq<(u64, V)>,
    pcap: nat,
    qcap: nat,
    key: u64,
    val: V,
)
    requires
        keys_distinct(pv.add(qv)),
        listed(pv, key),
        qcap > 0,
    ensures
        slru_insert(pv, qv, pcap, qcap, key, val).1[0] == (key, val),
        !listed(slru_insert(pv, qv, pcap, qcap, key, val).0, key),
{
    let p = key_index(pv, key);
    let pv1 = pv.remove(p);
    let all = pv.add(qv);
    assert forall|i: int| 0 <= i < pv1.len() implies pv1[i].0 != key by {
        let i1 = if i < p { i } else { i + 1 };
        assert(pv1[i] == pv[i1]);
        assert(all[i1] == pv[i1] && all[p] == pv[p]);
    }
    if qv.len() >= qcap && qv.len() > 0 {
        let t = qv.last();
        assert(all[pv.len() + qv.len() - 1] == t);
        assert(all[p] == pv[p]);
        assert(t.0 != key);
        let (pv2, out2) = push_fresh(pv1, pcap, t);
        assert forall|i: int| 0 <= i < pv2.len() implies pv2[i].0 != key by {
            if i > 0 {
                assert(pv2[i] == pv1[i - 1]);
            }
        }
    }
}

/// A promotion never surfaces an eviction from protected: the protected
/// tail it pushes out goes to the head of probation, which has just lost
/// the promoted key and so has room for it.
pub proof fn law_protected_tail_reabsorbed<V>(
    pv: Seq<(u64, V)>,
    qv: Seq<(u64, V)>,
    pcap: nat,
    qcap: nat,
    key: u64,
    val: V,
)
    requires
        listed(pv, key),
        pv.len() <= pcap,
        qv.len() <= qcap,
    ensures
        slru_insert(pv, qv, pcap, qcap, key, val).2 == (InsertResult::OldEntry {
            clash: Some(pv[key_index(pv, key)]),
            evicted: None,
        }),
        qv.len() == qcap && qcap > 0 ==> slru_insert(pv, qv, pcap, qcap, key, val).0[0] == qv.last(),
{
}


/// Every key of `v` is the key of one of `items`.
pub open spec fn keys_among<V>(v: Seq<(u64, V)>, items: Seq<(u64, V)>) -> bool {
    forall|p: int| 0 <= p < v.len() ==> exists|i: int| 0 <= i < items.len() && #[trigger] v[p].0 == items[i].0
}

/// Insert `items` one after another into an LRU holding `v`: the final
/// pairs, and whether every insert reported `Success`.
pub open spec fn inserts_from<V>(v: Seq<(u64, V)>, cap: nat, items: Seq<(u64, V)>) -> (Seq<(u64, V)>, bool)
    decreases items.len(),
{
    if items.len() == 0 {
        (v, true)
    } else {
        let (v1, ok) = inserts_from(v, cap, items.drop_last());
        let (v2, r) = lru_insert(v1, cap, items.last().0, items.last().1);
        (v2, ok && r == InsertResult::<(u64, V)>::Success)
    }
}

/// After a clear, up to `capacity` fresh keys go in one after another, each
/// with `Success`; none evicts anything.
pub proof fn law_fill_after_clear<V>(cap: nat, items: Seq<(u64, V)>)
    requires
        items.len() <= cap,
        forall|a: int, b: int| 0 <= a < items.len() && 0 <= b < items.len() && a != b ==> items[a].0 != items[b].0,
    ensures
        inserts_from(Seq::<(u64, V)>::empty(), cap, items).1,
        inserts_from(Seq::<(u64, V)>::empty(), cap, items).0.len() == items.len(),
        keys_among(inserts_from(Seq::<(u64, V)>::empty(), cap, items).0, items),
    decreases items.len(),
{
    if items.len() > 0 {
        let its = items.drop_last();
        law_fill_after_clear(cap, its);
        let v1 = inserts_from(Seq::<(u64, V)>::empty(), cap, its).0;
        let k = items.last().0;
        assert(!listed(v1, k)) by {
            if listed(v1, k) {
                let p = choose|p: int| 0 <= p < v1.len() && v1[p].0 == k;
                let i = choose|i: int| 0 <= i < its.len() && v1[p].0 == its[i].0;
                assert(its[i] == items[i]);
                assert(items[items.len() - 1].0 == k);
            }
        }
        let v2 = lru_insert(v1, cap, k, items.last().1).0;
        assert forall|p: int| 0 <= p < v2.len() implies exists|i: int| 0 <= i < items.len() && #[trigger] v2[p].0 == items[i].0 by {
            if p == 0 {
                assert(v2[0].0 == items[items.len() - 1].0);
            } else {
                assert(v2[p] == v1[p - 1]);
                assert(v1[p - 1].0 == v1[p - 1].0);
                let i = choose|i: int| 0 <= i < its.len() && v1[p - 1].0 == its[i].0;
                assert(its[i] == items[i]);
            }
        }
    }
}

} // verus!
