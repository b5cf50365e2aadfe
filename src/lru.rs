//! LRU over a shared store: an intrusive doubly linked chain of the slots
//! that carry this cache's id, most recent at the head.
use vstd::prelude::*;
use crate::entry::Entry;
use crate::hashmap::{SimpleHmap, has_key, holds_key, keys_unique, live_count};
use crate::model::{push_fresh, listed, key_index, keys_distinct, lru_insert, lookup, remove_key, to_head, lemma_key_index};
use crate::results::{InsertResult, InsertResultShared};
use crate::scan::{Scan, ScanFn, applied, cursor_ok};

verus! {

/// Slot `o[i]` is occupied, tagged `cid`, and its handles point at its
/// neighbours in `o`.
pub open spec fn link_ok<V>(s: Seq<Option<Entry<V>>>, o: Seq<usize>, i: int, cid: u8) -> bool {
    let k = o[i] as int;
    &&& 0 <= k < s.len()
    &&& s[k] is Some
    &&& s[k]->Some_0.cache_id == cid
    &&& s[k]->Some_0.toward_head == (if i == 0 { None } else { Some(o[i - 1]) })
    &&& s[k]->Some_0.toward_tail == (if i == o.len() - 1 { None } else { Some(o[i + 1]) })
}

/// `o` lists a chain, head first: each slot once, each linked to its
/// neighbours in `o`. Walking the handles from the head toward the tail
/// visits exactly `o`, and back again.
pub open spec fn chain_ok<V>(s: Seq<Option<Entry<V>>>, o: Seq<usize>, cid: u8) -> bool {
    &&& o.no_duplicates()
    &&& forall|i: int| 0 <= i < o.len() ==> #[trigger] link_ok(s, o, i, cid)
}

/// Slot `k` is occupied in `s2` with the same tag and handles as in `s`.
pub open spec fn same_links<V>(s: Seq<Option<Entry<V>>>, s2: Seq<Option<Entry<V>>>, k: int) -> bool {
    &&& s2[k] is Some
    &&& s2[k]->Some_0.cache_id == s[k]->Some_0.cache_id
    &&& s2[k]->Some_0.toward_head == s[k]->Some_0.toward_head
    &&& s2[k]->Some_0.toward_tail == s[k]->Some_0.toward_tail
}

/// What an operation of the cache with id `cid` may change in the store,
/// besides slot `idx`: no slot is filled or emptied, no key or value
/// changes, no tag changes, and slots of other caches stay as they are.
pub open spec fn frame<V>(s: Seq<Option<Entry<V>>>, s2: Seq<Option<Entry<V>>>, cid: u8, idx: int) -> bool {
    &&& s2.len() == s.len()
    &&& forall|k: int| 0 <= k < s.len() ==> (#[trigger] s2[k] is Some <==> s[k] is Some)
    &&& forall|k: int|
        0 <= k < s.len() && s[k] is Some ==> #[trigger] s2[k]->Some_0.key == s[k]->Some_0.key
    &&& forall|k: int|
        0 <= k < s.len() && s[k] is Some ==> #[trigger] s2[k]->Some_0.val == s[k]->Some_0.val
    &&& forall|k: int|
        0 <= k < s.len() && k != idx && s[k] is Some ==> #[trigger] s2[k]->Some_0.cache_id
            == s[k]->Some_0.cache_id
    &&& forall|k: int|
        0 <= k < s.len() && k != idx && s[k] is Some && s[k]->Some_0.cache_id != cid ==> #[trigger] s2[k]
            == s[k]
}

/// Slot `idx` with the tag and handles of the entry `c` it displaced.
pub open spec fn restored<V>(s: Seq<Option<Entry<V>>>, idx: int, c: Entry<V>) -> Seq<Option<Entry<V>>> {
    s.update(
        idx,
        Some(
            Entry {
                cache_id: c.cache_id,
                toward_head: c.toward_head,
                toward_tail: c.toward_tail,
                ..s[idx]->Some_0
            },
        ),
    )
}

pub proof fn lemma_chain_frame<V>(s: Seq<Option<Entry<V>>>, s2: Seq<Option<Entry<V>>>, o: Seq<usize>, cid: u8)
    requires
        chain_ok(s, o, cid),
        s2.len() == s.len(),
        forall|i: int| 0 <= i < o.len() ==> same_links(s, s2, #[trigger] o[i] as int),
    ensures
        chain_ok(s2, o, cid),
{
    assert forall|i: int| 0 <= i < o.len() implies #[trigger] link_ok(s2, o, i, cid) by {
        assert(link_ok(s, o, i, cid));
        assert(same_links(s, s2, o[i] as int));
    }
}

pub proof fn lemma_frame_trans<V>(
    s1: Seq<Option<Entry<V>>>,
    s2: Seq<Option<Entry<V>>>,
    s3: Seq<Option<Entry<V>>>,
    cid: u8,
    idx: int,
)
    requires
        frame(s1, s2, cid, idx),
        frame(s2, s3, cid, idx),
    ensures
        frame(s1, s3, cid, idx),
{
    assert forall|k: int| 0 <= k < s1.len() && s1[k] is Some implies #[trigger] s3[k]->Some_0.key
        == s1[k]->Some_0.key by {
        assert(s2[k] is Some);
        assert(s2[k]->Some_0.key == s1[k]->Some_0.key);
    }
    assert forall|k: int| 0 <= k < s1.len() && s1[k] is Some implies #[trigger] s3[k]->Some_0.val
        == s1[k]->Some_0.val by {
        assert(s2[k] is Some);
        assert(s2[k]->Some_0.val == s1[k]->Some_0.val);
    }
    assert forall|k: int| 0 <= k < s1.len() && k != idx && s1[k] is Some implies #[trigger] s3[k]->Some_0.cache_id
        == s1[k]->Some_0.cache_id by {
        assert(s2[k] is Some);
        assert(s2[k]->Some_0.cache_id == s1[k]->Some_0.cache_id);
    }
    assert forall|k: int|
        0 <= k < s1.len() && k != idx && s1[k] is Some && s1[k]->Some_0.cache_id != cid implies #[trigger] s3[k]
        == s1[k] by {
        assert(s2[k] == s1[k]);
    }
}

/// Applying the scan function changes a counter, nothing a chain rests on.
pub proof fn lemma_applied<V>(s: Seq<Option<Entry<V>>>, n: int, f: ScanFn, o: Seq<usize>, cid: u8)
    requires
        0 <= n < s.len(),
        s[n] is Some,
        chain_ok(s, o, cid),
    ensures
        chain_ok(applied(s, n, f), o, cid),
        applied(s, n, f).len() == s.len(),
        forall|k: int| 0 <= k < s.len() ==> same_links(s, applied(s, n, f), k) || s[k] is None,
        forall|k: int| 0 <= k < s.len() && k != n ==> applied(s, n, f)[k] == s[k],
        forall|k: int| 0 <= k < s.len() ==> (#[trigger] applied(s, n, f)[k] is Some <==> s[k] is Some),
        forall|k: int| 0 <= k < s.len() && s[k] is Some ==> #[trigger] applied(s, n, f)[k]->Some_0.key == s[k]->Some_0.key
            && applied(s, n, f)[k]->Some_0.val == s[k]->Some_0.val,
{
    let s2 = applied(s, n, f);
    assert forall|k: int| 0 <= k < s.len() implies same_links(s, s2, k) || s[k] is None by {
        if k == n {
        }
    }
    assert forall|i: int| 0 <= i < o.len() implies same_links(s, s2, #[trigger] o[i] as int) by {
        assert(link_ok(s, o, i, cid));
    }
    lemma_chain_frame(s, s2, o, cid);
}

/// The store holds as many entries as the chains that list its occupied
/// slots, each once, have links.
pub proof fn lemma_count_of_order<V>(s: Seq<Option<Entry<V>>>, o: Seq<usize>)
    requires
        s.len() <= usize::MAX,
        o.no_duplicates(),
        forall|i: int| 0 <= i < o.len() ==> o[i] < s.len(),
        forall|k: int| 0 <= k < s.len() ==> (s[k] is Some <==> o.contains(k as usize)),
    ensures
        crate::hashmap::live_count(s) == o.len(),
    decreases s.len(),
{
    if s.len() > 0 {
        let n = (s.len() - 1) as int;
        let s1 = s.drop_last();
        if s[n] is Some {
            let p = choose|p: int| 0 <= p < o.len() && o[p] == n as usize;
            let o1 = o.remove(p);
            assert forall|a: int, b: int| 0 <= a < o1.len() && 0 <= b < o1.len() && a != b implies o1[a]
                != o1[b] by {
                let a1 = if a < p { a } else { a + 1 };
                let b1 = if b < p { b } else { b + 1 };
                assert(o1[a] == o[a1] && o1[b] == o[b1]);
            }
            assert forall|i: int| 0 <= i < o1.len() implies o1[i] < s1.len() by {
                let i1 = if i < p { i } else { i + 1 };
                assert(o1[i] == o[i1]);
            }
            assert forall|k: int| 0 <= k < s1.len() implies (s1[k] is Some <==> o1.contains(k as usize)) by {
                assert(s1[k] == s[k]);
                if s[k] is Some {
                    let q = choose|q: int| 0 <= q < o.len() && o[q] == k as usize;
                    assert(q != p);
                    let q1 = if q < p { q } else { q - 1 };
                    assert(o1[q1] == k as usize);
                }
                if o1.contains(k as usize) {
                    let q = choose|q: int| 0 <= q < o1.len() && o1[q] == k as usize;
                    let q1 = if q < p { q } else { q + 1 };
                    assert(o[q1] == k as usize);
                }
            }
            lemma_count_of_order(s1, o1);
        } else {
            assert forall|i: int| 0 <= i < o.len() implies o[i] < s1.len() by {
                if o[i] == n {
                    assert(o.contains(n as usize));
                }
            }
            assert forall|k: int| 0 <= k < s1.len() implies (s1[k] is Some <==> o.contains(k as usize)) by {
                assert(s1[k] == s[k]);
            }
            lemma_count_of_order(s1, o);
        }
    } else if o.len() > 0 {
        assert(o[0] < s.len());
    }
}

/// The `(key, value)` pairs of the slots `o`, in that order.
pub open spec fn entries_of<V>(s: Seq<Option<Entry<V>>>, o: Seq<usize>) -> Seq<(u64, V)> {
    Seq::new(o.len(), |i: int| (s[o[i] as int]->Some_0.key, s[o[i] as int]->Some_0.val))
}

pub open spec fn pair_at<V>(s: Seq<Option<Entry<V>>>, k: int) -> (u64, V) {
    (s[k]->Some_0.key, s[k]->Some_0.val)
}

/// The listed pairs depend on the listed slots' keys and values alone.
pub proof fn lemma_entries_same<V>(s: Seq<Option<Entry<V>>>, s2: Seq<Option<Entry<V>>>, o: Seq<usize>)
    requires
        forall|i: int| 0 <= i < o.len() ==> pair_at(s2, #[trigger] o[i] as int) == pair_at(s, o[i] as int),
    ensures
        entries_of(s2, o) == entries_of(s, o),
{
    assert forall|i: int| 0 <= i < o.len() implies entries_of(s2, o)[i] == entries_of(s, o)[i] by {
        assert(pair_at(s2, o[i] as int) == pair_at(s, o[i] as int));
    }
    assert(entries_of(s2, o) =~= entries_of(s, o));
}

pub proof fn lemma_entries_ops<V>(s: Seq<Option<Entry<V>>>, o: Seq<usize>, x: usize, cap: nat)
    ensures
        entries_of(s, seq![x].add(o)) == seq![pair_at(s, x as int)].add(entries_of(s, o)),
        o.len() > 0 ==> entries_of(s, o.drop_last()) == entries_of(s, o).drop_last(),
        forall|p: int| 0 <= p < o.len() ==> #[trigger] entries_of(s, o.remove(p)) == entries_of(s, o).remove(p),
        entries_of(s, push_fresh(o, cap, x).0) == push_fresh(entries_of(s, o), cap, pair_at(s, x as int)).0,
        match push_fresh(o, cap, x).1 {
            None => push_fresh(entries_of(s, o), cap, pair_at(s, x as int)).1 is None,
            Some(t) => push_fresh(entries_of(s, o), cap, pair_at(s, x as int)).1 == Some(pair_at(s, t as int)),
        },
{
    assert(entries_of(s, seq![x].add(o)) =~= seq![pair_at(s, x as int)].add(entries_of(s, o)));
    if o.len() > 0 {
        assert(entries_of(s, o.drop_last()) =~= entries_of(s, o).drop_last());
        assert(entries_of(s, seq![x].add(o.drop_last())) =~= seq![pair_at(s, x as int)].add(entries_of(s, o).drop_last()));
    }
    assert forall|p: int| 0 <= p < o.len() implies #[trigger] entries_of(s, o.remove(p)) == entries_of(s, o).remove(p) by {
        assert(entries_of(s, o.remove(p)) =~= entries_of(s, o).remove(p));
    }
}

/// Slots of `o` are occupied in `s`, distinct, and hold distinct keys: the
/// pairs they list then have distinct keys, and a key is listed exactly
/// where a slot of `o` holds it.
pub proof fn lemma_entries_of<V>(s: Seq<Option<Entry<V>>>, o: Seq<usize>)
    requires
        keys_unique(s),
        o.no_duplicates(),
        forall|i: int| 0 <= i < o.len() ==> o[i] < s.len() && s[o[i] as int] is Some,
    ensures
        keys_distinct(entries_of(s, o)),
        forall|key: u64|
            listed(entries_of(s, o), key) <==> exists|i: int| 0 <= i < o.len() && holds_key(s, o[i] as int, key),
{
    let v = entries_of(s, o);
    assert forall|a: int, b: int| 0 <= a < v.len() && 0 <= b < v.len() && a != b implies v[a].0 != v[b].0 by {
        assert(o[a] != o[b]);
    }
    assert forall|key: u64| listed(v, key) <==> exists|i: int| 0 <= i < o.len() && holds_key(s, o[i] as int, key) by {
        if listed(v, key) {
            let p = choose|p: int| 0 <= p < v.len() && v[p].0 == key;
            assert(holds_key(s, o[p] as int, key));
        }
        if exists|i: int| 0 <= i < o.len() && holds_key(s, o[i] as int, key) {
            let i = choose|i: int| 0 <= i < o.len() && holds_key(s, o[i] as int, key);
            assert(v[i].0 == key);
        }
    }
}

/// Where a scan cursor at `c` goes in one step over the store `s`.
pub open spec fn step_in<V>(s: Seq<Option<Entry<V>>>, c: Option<usize>) -> Option<usize> {
    match c {
        None => None,
        Some(l) => s[l as int]->Some_0.toward_tail,
    }
}

/// The report of a chain insert that displaced `out`, if anything.
pub open spec fn shared_result(out: Option<usize>) -> InsertResultShared {
    match out {
        None => InsertResultShared::Success,
        Some(t) => InsertResultShared::OldTailPtr { evicted: t },
    }
}

/// Walking a sound chain from its head by the handles toward the tail
/// visits each of its slots once, in order, and ends at its tail; walking
/// back from the tail retraces it. No slot repeats, so there is no cycle.
pub proof fn law_chain_walk<V>(s: Seq<Option<Entry<V>>>, o: Seq<usize>, cid: u8)
    requires
        chain_ok(s, o, cid),
    ensures
        o.no_duplicates(),
        forall|i: int|
            0 <= i < o.len() - 1 ==> s[o[i] as int]->Some_0.toward_tail == Some(o[i + 1]) && s[o[i
                + 1] as int]->Some_0.toward_head == Some(o[i]),
        o.len() > 0 ==> s[o[0] as int]->Some_0.toward_head is None && s[o[o.len() - 1] as int]->Some_0.toward_tail
            is None,
        forall|i: int| 0 <= i < o.len() ==> s[o[i] as int] is Some && s[o[i] as int]->Some_0.cache_id == cid,
{
    assert forall|i: int| 0 <= i < o.len() - 1 implies s[o[i] as int]->Some_0.toward_tail == Some(o[i + 1])
        && s[o[i + 1] as int]->Some_0.toward_head == Some(o[i]) by {
        assert(link_ok(s, o, i, cid));
        assert(link_ok(s, o, i + 1, cid));
    }
    assert forall|i: int| 0 <= i < o.len() implies s[o[i] as int] is Some && s[o[i] as int]->Some_0.cache_id == cid by {
        assert(link_ok(s, o, i, cid));
    }
    if o.len() > 0 {
        assert(link_ok(s, o, 0, cid));
        assert(link_ok(s, o, o.len() - 1, cid));
    }
}

/// The chains `os`, one after another.
pub open spec fn concat_all(os: Seq<Seq<usize>>) -> Seq<usize>
    decreases os.len(),
{
    if os.len() == 0 {
        Seq::empty()
    } else {
        concat_all(os.drop_last()).add(os.last())
    }
}

/// The sum of the chains' lengths.
pub open spec fn total_len(os: Seq<Seq<usize>>) -> nat
    decreases os.len(),
{
    if os.len() == 0 {
        0
    } else {
        total_len(os.drop_last()) + os.last().len()
    }
}

proof fn lemma_concat_all<V>(s: Seq<Option<Entry<V>>>, os: Seq<Seq<usize>>, cids: Seq<u8>)
    requires
        os.len() == cids.len(),
        forall|i: int| 0 <= i < os.len() ==> chain_ok(s, #[trigger] os[i], cids[i]),
        forall|i: int, j: int| 0 <= i < cids.len() && 0 <= j < cids.len() && i != j ==> cids[i] != cids[j],
    ensures
        concat_all(os).no_duplicates(),
        concat_all(os).len() == total_len(os),
        forall|x: usize| concat_all(os).contains(x) <==> exists|i: int| 0 <= i < os.len() && #[trigger] os[i].contains(x),
        forall|k: int| 0 <= k < concat_all(os).len() ==> concat_all(os)[k] < s.len() && s[concat_all(os)[k] as int] is Some,
    decreases os.len(),
{
    if os.len() > 0 {
        let n = os.len() - 1;
        let os1 = os.drop_last();
        let cids1 = cids.drop_last();
        assert forall|i: int| 0 <= i < os1.len() implies chain_ok(s, #[trigger] os1[i], cids1[i]) by {
            assert(os1[i] == os[i]);
        }
        lemma_concat_all(s, os1, cids1);
        let a = concat_all(os1);
        let b = os[n];
        assert(chain_ok(s, b, cids[n]));
        let c = a.add(b);
        assert(concat_all(os) == c);
        assert forall|k: int| 0 <= k < c.len() implies c[k] < s.len() && s[c[k] as int] is Some by {
            if k >= a.len() {
                assert(c[k] == b[k - a.len()]);
                assert(link_ok(s, b, k - a.len(), cids[n]));
            }
        }
        assert forall|x: usize| c.contains(x) <==> exists|i: int| 0 <= i < os.len() && #[trigger] os[i].contains(x) by {
            if c.contains(x) {
                let k = choose|k: int| 0 <= k < c.len() && c[k] == x;
                if k < a.len() {
                    assert(a.contains(x));
                    let i = choose|i: int| 0 <= i < os1.len() && #[trigger] os1[i].contains(x);
                    assert(os[i] == os1[i]);
                } else {
                    assert(b[k - a.len()] == x);
                    assert(os[n].contains(x));
                }
            }
            if exists|i: int| 0 <= i < os.len() && #[trigger] os[i].contains(x) {
                let i = choose|i: int| 0 <= i < os.len() && #[trigger] os[i].contains(x);
                if i < n {
                    assert(os1[i] == os[i]);
                    assert(a.contains(x));
                    let k = choose|k: int| 0 <= k < a.len() && a[k] == x;
                    assert(c[k] == x);
                } else {
                    let k = choose|k: int| 0 <= k < b.len() && b[k] == x;
                    assert(c[a.len() + k] == x);
                }
            }
        }
        assert forall|p: int, q: int| 0 <= p < c.len() && 0 <= q < c.len() && p != q implies c[p] != c[q] by {
            if p < a.len() && q >= a.len() || q < a.len() && p >= a.len() {
                let (pa, qb) = if p < a.len() { (p, q - a.len()) } else { (q, p - a.len()) };
                assert(link_ok(s, b, qb, cids[n]));
                assert(a.contains(a[pa]));
                let i = choose|i: int| 0 <= i < os1.len() && #[trigger] os1[i].contains(a[pa]);
                assert(os[i] == os1[i]);
                let j = choose|j: int| 0 <= j < os[i].len() && os[i][j] == a[pa];
                assert(link_ok(s, os[i], j, cids[i]));
                assert(cids[i] != cids[n]);
            } else if p >= a.len() && q >= a.len() {
                assert(c[p] == b[p - a.len()] && c[q] == b[q - a.len()]);
            }
        }
    }
}

/// Caches with distinct ids share one store: where their chains together
/// list every occupied slot, the store's length is the sum of the chains'
/// lengths.
pub proof fn law_store_len_shared<V>(s: Seq<Option<Entry<V>>>, os: Seq<Seq<usize>>, cids: Seq<u8>)
    requires
        s.len() <= usize::MAX,
        os.len() == cids.len(),
        forall|i: int| 0 <= i < os.len() ==> chain_ok(s, #[trigger] os[i], cids[i]),
        forall|i: int, j: int| 0 <= i < cids.len() && 0 <= j < cids.len() && i != j ==> cids[i] != cids[j],
        forall|k: int|
            0 <= k < s.len() && s[k] is Some ==> exists|i: int| 0 <= i < os.len() && #[trigger] os[i].contains(k as usize),
    ensures
        live_count(s) == total_len(os),
{
    lemma_concat_all(s, os, cids);
    let o = concat_all(os);
    assert forall|k: int| 0 <= k < s.len() implies (s[k] is Some <==> o.contains(k as usize)) by {
        if o.contains(k as usize) {
            let j = choose|j: int| 0 <= j < o.len() && o[j] == k as usize;
        }
    }
    lemma_count_of_order(s, o);
}

pub struct LRUShared {
    capacity: usize,
    used: usize,
    head: Option<usize>,
    tail: Option<usize>,
    cache_id: u8,
    scan: Scan,
    order: Ghost<Seq<usize>>,
}

impl LRUShared {
    /// The slots of this cache, most recent first.
    pub closed spec fn order(&self) -> Seq<usize> {
        self.order@
    }

    pub closed spec fn cid(&self) -> u8 {
        self.cache_id
    }

    pub closed spec fn cap(&self) -> nat {
        self.capacity as nat
    }

    pub closed spec fn scan_fn(&self) -> ScanFn {
        self.scan.spec_f()
    }

    pub closed spec fn scan_cursor(&self) -> Option<usize> {
        self.scan.cursor()
    }

    pub closed spec fn inner_ok(&self) -> bool {
        &&& self.used as nat == self.order@.len()
        &&& self.head == if self.order@.len() == 0 { None::<usize> } else { Some(self.order@[0]) }
        &&& self.tail == if self.order@.len() == 0 { None::<usize> } else { Some(self.order@.last()) }
        &&& match self.scan.cursor() {
            None => true,
            Some(c) => self.order@.contains(c),
        }
    }

    /// The chain is sound in `s`, whatever its length.
    pub open spec fn chain_wf<V>(&self, s: Seq<Option<Entry<V>>>) -> bool {
        &&& self.inner_ok()
        &&& self.cid() != 0
        &&& chain_ok(s, self.order(), self.cid())
    }

    pub open spec fn wf<V>(&self, s: Seq<Option<Entry<V>>>) -> bool {
        &&& self.chain_wf(s)
        &&& self.order().len() <= self.cap()
    }

    /// Every slot of `s` tagged with this cache's id is in its chain.
    pub open spec fn owns_all<V>(&self, s: Seq<Option<Entry<V>>>) -> bool {
        forall|k: int|
            0 <= k < s.len() && s[k] is Some && s[k]->Some_0.cache_id == self.cid() ==> self.order().contains(
                k as usize,
            )
    }

    /// A running scan stands on a slot of the chain.
    pub proof fn lemma_cursor_in_chain(&self)
        requires
            self.inner_ok(),
        ensures
            match self.scan_cursor() {
                None => true,
                Some(c) => self.order().contains(c),
            },
    {
    }

    proof fn lemma_cursor<V>(&self, s: Seq<Option<Entry<V>>>)
        requires
            self.chain_wf(s),
        ensures
            cursor_ok(s, self.scan.cursor()),
            match self.scan.cursor() {
                None => true,
                Some(c) => match s[c as int]->Some_0.toward_tail {
                    None => true,
                    Some(n) => self.order@.contains(n) && n != c,
                },
            },
    {
        if let Some(c) = self.scan.cursor() {
            let o = self.order@;
            let p = choose|p: int| 0 <= p < o.len() && o[p] == c;
            assert(link_ok(s, o, p, self.cache_id));
            if p + 1 < o.len() {
                assert(link_ok(s, o, p + 1, self.cache_id));
                assert(o[p + 1] == o[p + 1]);
            }
        }
    }

    pub fn new(entries: usize, cache_id: u8, access_scan: ScanFn) -> (r: LRUShared)
        requires
            cache_id != 0,
        ensures
            r.order() == Seq::<usize>::empty(),
            r.cid() == cache_id,
            r.cap() == entries,
            r.scan_fn() == access_scan,
            r.scan_cursor() is None,
            r.inner_ok(),
    {
        LRUShared {
            capacity: entries,
            used: 0,
            head: None,
            tail: None,
            cache_id,
            scan: Scan::new(access_scan),
            order: Ghost(Seq::empty()),
        }
    }

    /// One scan step along this chain.
    fn scan_step<V>(&mut self, store: &mut SimpleHmap<V>)
        requires
            old(self).chain_wf(old(store)@),
            old(store).wf(),
        ensures
            final(self).chain_wf(final(store)@),
            final(store).wf(),
            final(store).seed() == old(store).seed(),
            final(self).order() == old(self).order(),
            final(self).cid() == old(self).cid(),
            final(self).cap() == old(self).cap(),
            final(self).scan_fn() == old(self).scan_fn(),
            forall|i: int| #[trigger] frame(old(store)@, final(store)@, old(self).cid(), i),
            final(self).scan_cursor() == match old(self).scan_cursor() {
                None => None,
                Some(l) => old(store)@[l as int]->Some_0.toward_tail,
            },
            final(store)@ == match final(self).scan_cursor() {
                None => old(store)@,
                Some(n) => applied(old(store)@, n as int, old(self).scan_fn()),
            },
            forall|k: int| 0 <= k < old(store)@.len() && old(store)@[k] is Some ==> same_links(old(store)@, final(store)@, k),
    {
        proof {
            self.lemma_cursor(store@);
        }
        let ghost s0 = store@;
        let ghost c0 = self.scan.cursor();
        self.scan.apply_next(store);
        proof {
            if let Some(n) = self.scan.cursor() {
                lemma_applied(s0, n as int, self.scan.spec_f(), self.order@, self.cache_id);
                let p = choose|p: int| 0 <= p < self.order@.len() && self.order@[p] == n;
                assert(link_ok(s0, self.order@, p, self.cache_id));
            }
            assert forall|i: int| #[trigger] frame(s0, store@, self.cache_id, i) by {
            }
        }
    }

    /// Move the cursor off `idx`, which is about to leave the chain.
    fn scan_leave<V>(&mut self, store: &mut SimpleHmap<V>, idx: usize)
        requires
            old(self).chain_wf(old(store)@),
            old(store).wf(),
            old(self).order().contains(idx),
        ensures
            final(self).chain_wf(final(store)@),
            final(store).wf(),
            final(store).seed() == old(store).seed(),
            final(self).order() == old(self).order(),
            final(self).cid() == old(self).cid(),
            final(self).cap() == old(self).cap(),
            final(self).scan_fn() == old(self).scan_fn(),
            final(self).scan_cursor() != Some(idx),
            forall|i: int| #[trigger] frame(old(store)@, final(store)@, old(self).cid(), i),
            final(store)@[idx as int] == old(store)@[idx as int],
            old(self).scan_cursor() == Some(idx) ==> final(self).scan_cursor() == old(store)@[idx as int]->Some_0.toward_tail,
            old(self).scan_cursor() != Some(idx) ==> final(self).scan_cursor() == old(self).scan_cursor(),
    {
        proof {
            self.lemma_cursor(store@);
        }
        let ghost s0 = store@;
        self.scan.check_and_next(store, idx);
        proof {
            if old(self).scan.cursor() == Some(idx) {
                if let Some(n) = self.scan.cursor() {
                    lemma_applied(s0, n as int, self.scan.spec_f(), self.order@, self.cache_id);
                    let p = choose|p: int| 0 <= p < self.order@.len() && self.order@[p] == n;
                    assert(link_ok(s0, self.order@, p, self.cache_id));
                }
            }
            assert forall|i: int| #[trigger] frame(s0, store@, self.cache_id, i) by {
            }
        }
    }

    /// Take `idx`, at position `p` of the chain, out of it. Its own slot is
    /// left as it was.
    fn unlink<V>(&mut self, store: &mut SimpleHmap<V>, idx: usize, Ghost(p): Ghost<int>)
        requires
            old(self).chain_wf(old(store)@),
            old(store).wf(),
            0 <= p < old(self).order().len(),
            old(self).order()[p] == idx,
        ensures
            final(self).chain_wf(final(store)@),
            final(store).wf(),
            final(store).seed() == old(store).seed(),
            final(self).order() == old(self).order().remove(p),
            final(self).cid() == old(self).cid(),
            final(self).cap() == old(self).cap(),
            final(self).scan_fn() == old(self).scan_fn(),
            forall|i: int| #[trigger] frame(old(store)@, final(store)@, old(self).cid(), i),
            final(store)@[idx as int] == old(store)@[idx as int],
            old(self).scan_cursor() == Some(idx) ==> final(self).scan_cursor() == old(store)@[idx as int]->Some_0.toward_tail,
            old(self).scan_cursor() != Some(idx) ==> final(self).scan_cursor() == old(self).scan_cursor(),
    {
        let ghost s00 = store@;
        self.scan_leave(store, idx);
        let ghost s1 = store@;
        let ghost o = self.order@;
        let ghost cid = self.cache_id;
        proof {
            assert(link_ok(s1, o, p, cid));
            if p > 0 {
                assert(link_ok(s1, o, p - 1, cid));
            }
            if p + 1 < o.len() {
                assert(link_ok(s1, o, p + 1, cid));
            }
        }
        let (h, t) = match store.get_index(idx) {
            Some(e) => (e.toward_head, e.toward_tail),
            None => (None, None),
        };
        match h {
            None => {
                self.head = t;
            },
            Some(hh) => {
                store.set_tail_ptr(hh, t);
            },
        }
        let ghost s2 = store@;
        proof {
            if p + 1 < o.len() {
                assert(o[p + 1] != o[p - 1] || p == 0);
                assert(s2[o[p + 1] as int] == s1[o[p + 1] as int]);
            }
        }
        match t {
            None => {
                self.tail = h;
            },
            Some(tt) => {
                store.set_head_ptr(tt, h);
            },
        }
        self.used = self.used - 1;
        self.order = Ghost(o.remove(p));
        proof {
            let s3 = store@;
            let o2 = o.remove(p);
            assert forall|a: int, b: int| 0 <= a < o2.len() && 0 <= b < o2.len() && a != b implies o2[a]
                != o2[b] by {
                let a1 = if a < p { a } else { a + 1 };
                let b1 = if b < p { b } else { b + 1 };
                assert(o2[a] == o[a1] && o2[b] == o[b1]);
            }
            assert forall|i: int| 0 <= i < o2.len() implies #[trigger] link_ok(s3, o2, i, cid) by {
                let i1 = if i < p { i } else { i + 1 };
                assert(o2[i] == o[i1]);
                assert(link_ok(s1, o, i1, cid));
                if i > 0 {
                    let j1 = if i - 1 < p { i - 1 } else { i };
                    assert(o2[i - 1] == o[j1]);
                }
                if i + 1 < o2.len() {
                    let j1 = if i + 1 < p { i + 1 } else { i + 2 };
                    assert(o2[i + 1] == o[j1]);
                }
            }
            if let Some(c) = self.scan.cursor() {
                let q = choose|q: int| 0 <= q < o.len() && o[q] == c;
                assert(q != p);
                let q2 = if q < p { q } else { q - 1 };
                assert(o2[q2] == c);
            }
            if o2.len() > 0 {
                if p == 0 {
                    assert(o2[0] == o[1]);
                }
                if p == o.len() - 1 {
                    assert(o2.last() == o[p - 1]);
                } else {
                    assert(o2.last() == o.last());
                }
            }
            assert forall|i: int| #[trigger] frame(s00, s3, cid, i) by {
                assert(frame(s00, s1, cid, i));
                assert forall|k: int| 0 <= k < s1.len() && k != i && s1[k] is Some && s1[k]->Some_0.cache_id
                    != cid implies #[trigger] s3[k] == s1[k] by {
                    if p > 0 {
                        assert(k != o[p - 1]);
                    }
                    if p + 1 < o.len() {
                        assert(k != o[p + 1]);
                    }
                }
                assert(frame(s1, s3, cid, i));
                lemma_frame_trans(s00, s1, s3, cid, i);
            }
        }
    }

    /// Link occupied slot `idx`, in no chain of this cache, at the head.
    fn push_head<V>(&mut self, store: &mut SimpleHmap<V>, idx: usize)
        requires
            old(self).chain_wf(old(store)@),
            old(store).wf(),
            idx < old(store)@.len(),
            old(store)@[idx as int] is Some,
            !old(self).order().contains(idx),
            old(self).order().len() < old(self).cap(),
        ensures
            final(self).chain_wf(final(store)@),
            final(store).wf(),
            final(store).seed() == old(store).seed(),
            final(self).order() == seq![idx].add(old(self).order()),
            final(self).cid() == old(self).cid(),
            final(self).cap() == old(self).cap(),
            final(self).scan_fn() == old(self).scan_fn(),
            frame(old(store)@, final(store)@, old(self).cid(), idx as int),
            final(store)@[idx as int]->Some_0.cache_id == old(self).cid(),
            final(store)@[idx as int]->Some_0.freq == old(store)@[idx as int]->Some_0.freq,
            final(self).scan_cursor() == old(self).scan_cursor(),
    {
        let ghost s0 = store@;
        let ghost o = self.order@;
        let ghost cid = self.cache_id;
        proof {
            if o.len() > 0 {
                assert(link_ok(s0, o, 0, cid));
            }
        }
        store.set_links(idx, None, self.head);
        store.set_cache_id(idx, self.cache_id);
        match self.head {
            Some(h) => {
                store.set_head_ptr(h, Some(idx));
            },
            None => {
                self.tail = Some(idx);
            },
        }
        self.head = Some(idx);
        self.used = self.used + 1;
        self.order = Ghost(seq![idx].add(o));
        proof {
            let s3 = store@;
            let o2 = seq![idx].add(o);
            assert forall|a: int, b: int| 0 <= a < o2.len() && 0 <= b < o2.len() && a != b implies o2[a]
                != o2[b] by {
                if a > 0 && b > 0 {
                    assert(o2[a] == o[a - 1] && o2[b] == o[b - 1]);
                } else if a == 0 {
                    assert(o2[b] == o[b - 1]);
                } else {
                    assert(o2[a] == o[a - 1]);
                }
            }
            assert forall|i: int| 0 <= i < o2.len() implies #[trigger] link_ok(s3, o2, i, cid) by {
                if i > 0 {
                    assert(o2[i] == o[i - 1]);
                    assert(link_ok(s0, o, i - 1, cid));
                    if i + 1 < o2.len() {
                        assert(o2[i + 1] == o[i]);
                    }
                    if i > 1 {
                        assert(o2[i - 1] == o[i - 2]);
                    }
                } else if o.len() > 0 {
                    assert(o2[1] == o[0]);
                }
            }
            if let Some(c) = self.scan.cursor() {
                let q = choose|q: int| 0 <= q < o.len() && o[q] == c;
                assert(o2[q + 1] == c);
            }
            if o.len() > 0 {
                assert(o2.last() == o.last());
                assert(link_ok(s0, o, 0, cid));
            }
            assert forall|k: int| 0 <= k < s0.len() && k != idx && s0[k] is Some && s0[k]->Some_0.cache_id
                != cid implies #[trigger] s3[k] == s0[k] by {
                if o.len() > 0 {
                    assert(k != o[0]);
                }
            }
        }
    }

    /// Take the least recent entry out of a non-empty chain and return its
    /// slot.
    fn pop_tail<V>(&mut self, store: &mut SimpleHmap<V>) -> (r: usize)
        requires
            old(self).chain_wf(old(store)@),
            old(store).wf(),
            old(self).order().len() > 0,
        ensures
            final(self).chain_wf(final(store)@),
            final(store).wf(),
            final(store).seed() == old(store).seed(),
            r == old(self).order().last(),
            final(self).order() == old(self).order().drop_last(),
            final(self).cid() == old(self).cid(),
            final(self).cap() == old(self).cap(),
            final(self).scan_fn() == old(self).scan_fn(),
            forall|i: int| #[trigger] frame(old(store)@, final(store)@, old(self).cid(), i),
            final(store)@[r as int] == old(store)@[r as int],
            final(self).scan_cursor() == if old(self).scan_cursor() == Some(r) {
                None::<usize>
            } else {
                old(self).scan_cursor()
            },
    {
        proof {
            assert(link_ok(old(store)@, self.order@, self.order@.len() - 1, self.cache_id));
        }
        let t = match self.tail {
            Some(t) => t,
            None => 0,
        };
        let ghost o = self.order@;
        proof {
            assert(o.remove(o.len() - 1) =~= o.drop_last());
        }
        self.unlink(store, t, Ghost(o.len() - 1));
        t
    }

    /// Link the entry that the caller has just placed at slot `idx`.
    ///
    /// `maybe_old_entry` is the entry the store displaced from that slot,
    /// and is given only where it belonged to this cache: the new entry
    /// then takes its place and moves to the head, with no change of size.
    /// Otherwise the new entry becomes the head; where the chain was
    /// already full, its tail leaves it and is reported, so that the caller
    /// can empty that slot.
    pub fn insert_shared<V>(
        &mut self,
        hmap: &mut SimpleHmap<V>,
        maybe_old_entry: Option<&Entry<V>>,
        new_entry_idx: usize,
    ) -> (r: InsertResultShared)
        requires
            old(self).order().len() <= old(self).cap(),
            old(hmap).wf(),
            new_entry_idx < old(hmap)@.len(),
            old(hmap)@[new_entry_idx as int] is Some,
            match maybe_old_entry {
                None => old(self).chain_wf(old(hmap)@) && !old(self).order().contains(new_entry_idx),
                Some(c) => old(self).order().contains(new_entry_idx) && c.cache_id == old(self).cid()
                    && old(self).chain_wf(restored(old(hmap)@, new_entry_idx as int, *c)),
            },
        ensures
            final(self).wf(final(hmap)@),
            final(hmap).wf(),
            final(hmap).seed() == old(hmap).seed(),
            final(self).cid() == old(self).cid(),
            final(self).cap() == old(self).cap(),
            final(self).scan_fn() == old(self).scan_fn(),
            frame(old(hmap)@, final(hmap)@, old(self).cid(), new_entry_idx as int),
            match maybe_old_entry {
                Some(c) => r == InsertResultShared::OldEntry && exists|p: int|
                    0 <= p < old(self).order().len() && old(self).order()[p] == new_entry_idx
                        && final(self).order() == seq![new_entry_idx].add(old(self).order().remove(p)),
                None => if old(self).order().len() < old(self).cap() {
                    r == InsertResultShared::Success && final(self).order() == seq![new_entry_idx].add(
                        old(self).order(),
                    )
                } else if old(self).order().len() > 0 {
                    r == (InsertResultShared::OldTailPtr { evicted: old(self).order().last() })
                        && final(self).order() == seq![new_entry_idx].add(old(self).order().drop_last())
                } else {
                    r == (InsertResultShared::OldTailPtr { evicted: new_entry_idx })
                        && final(self).order() == old(self).order()
                },
            },
            maybe_old_entry is None ==> final(self).order() == push_fresh(
                old(self).order(),
                old(self).cap(),
                new_entry_idx,
            ).0 && r == shared_result(push_fresh(old(self).order(), old(self).cap(), new_entry_idx).1),
            final(self).order().contains(new_entry_idx) ==> final(hmap)@[new_entry_idx as int]->Some_0.cache_id
                == old(self).cid(),
            !final(self).order().contains(new_entry_idx) ==> final(hmap)@[new_entry_idx as int]->Some_0.cache_id
                == old(hmap)@[new_entry_idx as int]->Some_0.cache_id,
            maybe_old_entry is None && old(self).order().len() >= old(self).cap() && old(self).order().len() == 0
                ==> final(self).scan_cursor() == old(self).scan_cursor(),
            maybe_old_entry is None && old(self).order().len() < old(self).cap() ==> final(self).scan_cursor()
                == step_in(final(hmap)@, old(self).scan_cursor()),
            maybe_old_entry is None && old(self).order().len() >= old(self).cap() && old(self).order().len() > 0
                ==> final(self).scan_cursor() == step_in(
                final(hmap)@,
                if old(self).scan_cursor() == Some(old(self).order().last()) {
                    None::<usize>
                } else {
                    old(self).scan_cursor()
                },
            ),
            match maybe_old_entry {
                Some(c) => final(self).scan_cursor() == step_in(
                    final(hmap)@,
                    if old(self).scan_cursor() == Some(new_entry_idx) {
                        c.toward_tail
                    } else {
                        old(self).scan_cursor()
                    },
                ),
                None => true,
            },
            match r {
                InsertResultShared::OldTailPtr { evicted } => (evicted < old(hmap)@.len()
                    && final(hmap)@[evicted as int] is Some && !final(self).order().contains(evicted)),
                _ => true,
            },
    {
        let idx = new_entry_idx;
        let ghost s0 = hmap@;
        let ghost o = self.order@;
        let ghost cid = self.cache_id;
        match maybe_old_entry {
            Some(c) => {
                hmap.set_links(idx, c.toward_head, c.toward_tail);
                hmap.set_cache_id(idx, self.cache_id);
                let ghost s1 = hmap@;
                proof {
                    assert(s1 == restored(s0, idx as int, *c));
                }
                self.scan.apply_raw(hmap, idx);
                let ghost s2 = hmap@;
                proof {
                    lemma_applied(s1, idx as int, self.scan.spec_f(), o, cid);
                    assert(frame(s0, s2, cid, idx as int));
                }
                let ghost p = choose|p: int| 0 <= p < o.len() && o[p] == idx;
                self.unlink(hmap, idx, Ghost(p));
                let ghost s3 = hmap@;
                proof {
                    assert(frame(s2, s3, cid, idx as int));
                    lemma_frame_trans(s0, s2, s3, cid, idx as int);
                    assert(!o.remove(p).contains(idx)) by {
                        if o.remove(p).contains(idx) {
                            let q = choose|q: int| 0 <= q < o.remove(p).len() && o.remove(p)[q] == idx;
                            let q1 = if q < p { q } else { q + 1 };
                            assert(o[q1] == idx);
                        }
                    }
                }
                self.push_head(hmap, idx);
                let ghost s4 = hmap@;
                proof {
                    lemma_frame_trans(s0, s3, s4, cid, idx as int);
                    assert(s2[idx as int]->Some_0.toward_tail == c.toward_tail);
                    self.lemma_cursor(s4);
                }
                let ghost m = self.scan.cursor();
                self.scan_step(hmap);
                proof {
                    if let Some(n) = m {
                        assert(same_links(s4, hmap@, n as int));
                    }
                    lemma_frame_trans(s0, s4, hmap@, cid, idx as int);
                    assert(self.order@[0] == idx);
                    assert(link_ok(hmap@, self.order@, 0, cid));
                }
                InsertResultShared::OldEntry
            },
            None => {
                self.scan.apply_raw(hmap, idx);
                let ghost s1 = hmap@;
                proof {
                    lemma_applied(s0, idx as int, self.scan.spec_f(), o, cid);
                    assert(frame(s0, s1, cid, idx as int));
                }
                if self.used >= self.capacity {
                    if self.used == 0 {
                        proof {
                            assert(same_links(s0, s1, idx as int));
                        }
                        return InsertResultShared::OldTailPtr { evicted: idx };
                    }
                    let t = self.pop_tail(hmap);
                    let ghost s2 = hmap@;
                    proof {
                        lemma_frame_trans(s0, s1, s2, cid, idx as int);
                        assert(!o.drop_last().contains(idx)) by {
                            if o.drop_last().contains(idx) {
                                let q = choose|q: int| 0 <= q < o.drop_last().len() && o.drop_last()[q] == idx;
                                assert(o[q] == idx);
                            }
                        }
                        assert(t != idx) by {
                            assert(o[o.len() - 1] == t);
                        }
                        assert(link_ok(s0, o, o.len() - 1, cid));
                    }
                    self.push_head(hmap, idx);
                    let ghost s3 = hmap@;
                    proof {
                        lemma_frame_trans(s0, s2, s3, cid, idx as int);
                        self.lemma_cursor(s3);
                    }
                    let ghost m = self.scan.cursor();
                    self.scan_step(hmap);
                    proof {
                        if let Some(n) = m {
                            assert(same_links(s3, hmap@, n as int));
                        }
                        lemma_frame_trans(s0, s3, hmap@, cid, idx as int);
                        assert(self.order@[0] == idx);
                        assert(link_ok(hmap@, self.order@, 0, cid));
                        assert(!self.order@.contains(t)) by {
                            if self.order@.contains(t) {
                                let q = choose|q: int| 0 <= q < self.order@.len() && self.order@[q] == t;
                                if q > 0 {
                                    assert(o.drop_last()[q - 1] == t);
                                    assert(o[q - 1] == o[o.len() - 1]);
                                }
                            }
                        }
                    }
                    InsertResultShared::OldTailPtr { evicted: t }
                } else {
                    self.push_head(hmap, idx);
                    let ghost s2 = hmap@;
                    proof {
                        lemma_frame_trans(s0, s1, s2, cid, idx as int);
                        self.lemma_cursor(s2);
                    }
                    let ghost m = self.scan.cursor();
                    self.scan_step(hmap);
                    proof {
                        if let Some(n) = m {
                            assert(same_links(s2, hmap@, n as int));
                        }
                        lemma_frame_trans(s0, s2, hmap@, cid, idx as int);
                        assert(self.order@[0] == idx);
                        assert(link_ok(hmap@, self.order@, 0, cid));
                    }
                    InsertResultShared::Success
                }
            },
        }
    }

    /// Take `entry` out of the chain. The caller then empties its slot.
    pub fn remove_shared<V>(&mut self, hmap: &mut SimpleHmap<V>, entry: usize)
        requires
            old(self).wf(old(hmap)@),
            old(hmap).wf(),
            old(self).order().contains(entry),
        ensures
            final(self).wf(final(hmap)@),
            final(hmap).wf(),
            final(hmap).seed() == old(hmap).seed(),
            final(self).cid() == old(self).cid(),
            final(self).cap() == old(self).cap(),
            final(self).scan_fn() == old(self).scan_fn(),
            exists|p: int|
                0 <= p < old(self).order().len() && old(self).order()[p] == entry && final(self).order()
                    == old(self).order().remove(p),
            forall|i: int| #[trigger] frame(old(hmap)@, final(hmap)@, old(self).cid(), i),
            final(hmap)@[entry as int] == old(hmap)@[entry as int],
            old(self).scan_cursor() == Some(entry) ==> final(self).scan_cursor() == old(hmap)@[entry as int]->Some_0.toward_tail,
            old(self).scan_cursor() != Some(entry) ==> final(self).scan_cursor() == old(self).scan_cursor(),
            final(self).scan_cursor() != Some(entry),
    {
        let ghost o = self.order@;
        let ghost p = choose|p: int| 0 <= p < o.len() && o[p] == entry;
        self.unlink(hmap, entry, Ghost(p));
    }

    /// Move `entry` to the head of the chain.
    pub fn make_head<V>(&mut self, hmap: &mut SimpleHmap<V>, entry: usize)
        requires
            old(self).wf(old(hmap)@),
            old(hmap).wf(),
            old(self).order().contains(entry),
        ensures
            final(self).wf(final(hmap)@),
            final(hmap).wf(),
            final(hmap).seed() == old(hmap).seed(),
            final(self).cid() == old(self).cid(),
            final(self).cap() == old(self).cap(),
            final(self).scan_fn() == old(self).scan_fn(),
            exists|p: int|
                0 <= p < old(self).order().len() && old(self).order()[p] == entry && final(self).order()
                    == seq![entry].add(old(self).order().remove(p)),
            forall|i: int| #[trigger] frame(old(hmap)@, final(hmap)@, old(self).cid(), i),
    {
        let ghost s0 = hmap@;
        let ghost o = self.order@;
        let ghost cid = self.cache_id;
        let ghost p = choose|p: int| 0 <= p < o.len() && o[p] == entry;
        self.unlink(hmap, entry, Ghost(p));
        let ghost s1 = hmap@;
        proof {
            assert(link_ok(s0, o, p, cid));
            assert(frame(s0, s1, cid, 0));
            assert(!o.remove(p).contains(entry)) by {
                if o.remove(p).contains(entry) {
                    let q = choose|q: int| 0 <= q < o.remove(p).len() && o.remove(p)[q] == entry;
                    let q1 = if q < p { q } else { q + 1 };
                    assert(o[q1] == entry);
                }
            }
        }
        self.push_head(hmap, entry);
        proof {
            assert forall|i: int| #[trigger] frame(s0, hmap@, cid, i) by {
                assert(frame(s0, s1, cid, i));
                assert(frame(s1, hmap@, cid, entry as int));
                assert forall|k: int|
                    0 <= k < s1.len() && k != i && s1[k] is Some && s1[k]->Some_0.cache_id != cid implies #[trigger] hmap@[k]
                    == s1[k] by {
                    assert(k != entry);
                }
                assert forall|k: int| 0 <= k < s1.len() && k != i && s1[k] is Some implies #[trigger] hmap@[k]->Some_0.cache_id
                    == s1[k]->Some_0.cache_id by {
                    if k == entry {
                        assert(s1[k] == s0[k]);
                    }
                }
                assert(frame(s1, hmap@, cid, i));
                lemma_frame_trans(s0, s1, hmap@, cid, i);
            }
        }
    }

    /// A read of `entry`: the order does not change; the scan takes a step
    /// toward the tail and applies the scan function where it lands.
    pub fn on_get<V>(&mut self, hmap: &mut SimpleHmap<V>, entry: usize)
        requires
            old(self).wf(old(hmap)@),
            old(hmap).wf(),
        ensures
            final(self).scan_cursor() == match old(self).scan_cursor() {
                None => None,
                Some(l) => old(hmap)@[l as int]->Some_0.toward_tail,
            },
            final(hmap)@ == match final(self).scan_cursor() {
                None => old(hmap)@,
                Some(n) => applied(old(hmap)@, n as int, old(self).scan_fn()),
            },
            final(self).wf(final(hmap)@),
            final(hmap).wf(),
            final(hmap).seed() == old(hmap).seed(),
            final(self).order() == old(self).order(),
            final(self).cid() == old(self).cid(),
            final(self).cap() == old(self).cap(),
            final(self).scan_fn() == old(self).scan_fn(),
            forall|i: int| #[trigger] frame(old(hmap)@, final(hmap)@, old(self).cid(), i),
    {
        self.scan_step(hmap);
    }

    /// Forget every entry; the caller empties the store.
    pub fn clear_shared(&mut self)
        ensures
            final(self).inner_ok(),
            final(self).order() == Seq::<usize>::empty(),
            final(self).cid() == old(self).cid(),
            final(self).cap() == old(self).cap(),
            final(self).scan_fn() == old(self).scan_fn(),
            final(self).scan_cursor() is None,
    {
        self.head = None;
        self.tail = None;
        self.used = 0;
        self.order = Ghost(Seq::empty());
        self.scan.stop();
    }

    /// Start a scan at the head, unless one is running or the chain is
    /// empty.
    pub fn start_scan<V>(&mut self, hmap: &mut SimpleHmap<V>)
        requires
            old(self).wf(old(hmap)@),
            old(hmap).wf(),
        ensures
            final(self).wf(final(hmap)@),
            final(hmap).wf(),
            final(hmap).seed() == old(hmap).seed(),
            final(self).order() == old(self).order(),
            final(self).cid() == old(self).cid(),
            final(self).cap() == old(self).cap(),
            final(self).scan_fn() == old(self).scan_fn(),
            old(self).scan_cursor() is Some ==> final(self).scan_cursor() == old(self).scan_cursor(),
            old(self).scan_cursor() is None ==> final(self).scan_cursor() == if old(self).order().len()
                == 0 {
                None::<usize>
            } else {
                Some(old(self).order()[0])
            },
            forall|i: int| #[trigger] frame(old(hmap)@, final(hmap)@, old(self).cid(), i),
    {
        if !self.scan.is_running() {
            match self.head {
                Some(h) => {
                    let ghost s0 = hmap@;
                    proof {
                        assert(self.order@[0] == h);
                        assert(link_ok(s0, self.order@, 0, self.cache_id));
                    }
                    self.scan.start_scan(hmap, h);
                    proof {
                        lemma_applied(s0, h as int, self.scan.spec_f(), self.order@, self.cache_id);
                        assert(self.order@[0] == h);
                        assert forall|i: int| #[trigger] frame(s0, hmap@, self.cache_id, i) by {
                        }
                    }
                },
                None => {},
            }
        }
    }

    pub fn set_scanf(&mut self, access_scan: ScanFn)
        ensures
            final(self).order() == old(self).order(),
            final(self).cid() == old(self).cid(),
            final(self).cap() == old(self).cap(),
            final(self).scan_fn() == access_scan,
            final(self).scan_cursor() == old(self).scan_cursor(),
            old(self).inner_ok() ==> final(self).inner_ok(),
    {
        self.scan.set_scanf(access_scan);
    }

    pub fn is_scan_running(&self) -> (r: bool)
        ensures
            r == self.scan_cursor() is Some,
    {
        self.scan.is_running()
    }

    /// The least recent slot, if any.
    pub fn tail(&self) -> (r: Option<usize>)
        requires
            self.inner_ok(),
        ensures
            r == if self.order().len() == 0 {
                None::<usize>
            } else {
                Some(self.order().last())
            },
    {
        self.tail
    }

    pub fn get_cache_id(&self) -> (r: u8)
        ensures
            r == self.cid(),
    {
        self.cache_id
    }

    pub fn capacity(&self) -> (r: usize)
        ensures
            r == self.cap(),
    {
        self.capacity
    }

    pub fn len(&self) -> (r: usize)
        requires
            self.inner_ok(),
        ensures
            r == self.order().len(),
    {
        self.used
    }
}


/// Id that a stand-alone LRU stamps on its slots.
pub const LRU_CID: u8 = 1;

/// An LRU cache with its own store: at most `entries` pairs, the least
/// recently inserted or promoted one evicted first. Reads do not promote.
pub struct LRU<V> {
    _hmap: SimpleHmap<V>,
    _lru: LRUShared,
}

impl<V> View for LRU<V> {
    type V = Seq<(u64, V)>;

    closed spec fn view(&self) -> Seq<(u64, V)> {
        entries_of(self._hmap@, self._lru.order())
    }
}

impl<V> LRU<V> {
    pub closed spec fn spec_capacity(&self) -> nat {
        self._lru.cap()
    }

    pub closed spec fn wf(&self) -> bool {
        &&& self._hmap.wf()
        &&& self._lru.wf(self._hmap@)
        &&& self._lru.owns_all(self._hmap@)
        &&& self._lru.cid() == LRU_CID
        &&& forall|k: int|
            0 <= k < self._hmap@.len() && self._hmap@[k] is Some ==> self._hmap@[k]->Some_0.cache_id
                == LRU_CID
        &&& self._hmap@.len() > self._lru.cap()
    }

    /// The slots of the store this cache owns.
    pub closed spec fn store_view(&self) -> Seq<Option<Entry<V>>> {
        self._hmap@
    }

    /// The cache never holds more pairs than its capacity.
    pub proof fn law_len_within_capacity(&self)
        requires
            self.wf(),
        ensures
            self@.len() <= self.spec_capacity(),
    {
    }

    /// The store's length is the chain's length: the store holds exactly
    /// the slots of the chain, each tagged with the cache's id.
    pub proof fn law_store_len(&self)
        requires
            self.wf(),
        ensures
            live_count(self.store_view()) == self@.len(),
            forall|k: int|
                0 <= k < self.store_view().len() ==> (self.store_view()[k] is Some <==> (self.store_view()[k] is Some
                    && self.store_view()[k]->Some_0.cache_id == LRU_CID)),
            keys_distinct(self@),
    {
        self.lemma_wf();
    }

    /// The store holds exactly the chain's slots, so its length is the
    /// chain's, and the view lists each key once.
    proof fn lemma_wf(&self)
        requires
            self.wf(),
        ensures
            forall|k: int|
                0 <= k < self._hmap@.len() ==> (self._hmap@[k] is Some <==> self._lru.order().contains(
                    k as usize,
                )),
            live_count(self._hmap@) == self._lru.order().len(),
            keys_distinct(self@),
            forall|key: u64| listed(self@, key) <==> has_key(self._hmap@, key),
            self@.len() == self._lru.order().len(),
    {
        let s = self._hmap@;
        let o = self._lru.order();
        assert forall|i: int| 0 <= i < o.len() implies o[i] < s.len() && s[o[i] as int] is Some by {
            assert(link_ok(s, o, i, LRU_CID));
        }
        assert forall|k: int| 0 <= k < s.len() implies (s[k] is Some <==> o.contains(k as usize)) by {
            if o.contains(k as usize) {
                let i = choose|i: int| 0 <= i < o.len() && o[i] == k as usize;
                assert(link_ok(s, o, i, LRU_CID));
            }
        }
        lemma_count_of_order(s, o);
        lemma_entries_of(s, o);
        assert forall|key: u64| listed(self@, key) <==> has_key(s, key) by {
            if has_key(s, key) {
                let k = choose|k: int| holds_key(s, k, key);
                let i = choose|i: int| 0 <= i < o.len() && o[i] == k as usize;
                assert(holds_key(s, o[i] as int, key));
            }
        }
    }

    /// The invariant again after an operation that kept every slot but
    /// `idx` as it was, as far as occupancy and tags go.
    proof fn lemma_reestablish(&self, s0: Seq<Option<Entry<V>>>, o0: Seq<usize>, idx: int)
        requires
            self._hmap.wf(),
            self._lru.wf(self._hmap@),
            self._lru.cid() == LRU_CID,
            self._hmap@.len() > self._lru.cap(),
            forall|k: int|
                0 <= k < s0.len() && s0[k] is Some ==> s0[k]->Some_0.cache_id == LRU_CID && o0.contains(
                    k as usize,
                ),
            self._hmap@.len() == s0.len(),
            forall|k: int|
                0 <= k < s0.len() && k != idx && self._hmap@[k] is Some ==> s0[k] is Some
                    && self._hmap@[k]->Some_0.cache_id == s0[k]->Some_0.cache_id,
            0 <= idx < s0.len() && self._hmap@[idx] is Some ==> self._lru.order().contains(idx as usize),
            forall|x: usize|
                o0.contains(x) && x != idx && x < s0.len() && self._hmap@[x as int] is Some ==> self._lru.order().contains(x),
        ensures
            self.wf(),
    {
        let s = self._hmap@;
        let o = self._lru.order();
        assert forall|k: int| 0 <= k < s.len() && s[k] is Some implies s[k]->Some_0.cache_id == LRU_CID
            && o.contains(k as usize) by {
            if k == idx {
                let i = choose|i: int| 0 <= i < o.len() && o[i] == k as usize;
                assert(link_ok(s, o, i, LRU_CID));
            } else {
                assert(s0[k] is Some);
                assert(o0.contains(k as usize));
                assert(o.contains(k as usize));
            }
        }
    }

    /// An LRU of `entries` pairs over a store of `1 + entries +
    /// extra_hashmap_capacity` slots, keys mixed with `hash_builder`.
    pub fn new(entries: usize, extra_hashmap_capacity: usize, hash_builder: u64) -> (r: LRU<V>)
        requires
            1 + entries + extra_hashmap_capacity <= usize::MAX,
        ensures
            r.wf(),
            r@ == Seq::<(u64, V)>::empty(),
            r.spec_capacity() == entries,
            r.store_view().len() == 1 + entries + extra_hashmap_capacity,
            forall|k: int| 0 <= k < r.store_view().len() ==> r.store_view()[k] is None,
    {
        let hmap = SimpleHmap::with_capacity_and_hasher(1 + entries + extra_hashmap_capacity, hash_builder);
        let lru = LRUShared::new(entries, LRU_CID, ScanFn::Nothing);
        let r = LRU { _hmap: hmap, _lru: lru };
        proof {
            assert(r@ =~= Seq::<(u64, V)>::empty());
        }
        r
    }

    pub fn capacity(&self) -> (r: usize)
        ensures
            r == self.spec_capacity(),
    {
        self._lru.capacity()
    }

    pub fn len(&self) -> (r: usize)
        requires
            self.wf(),
        ensures
            r == self@.len(),
            r <= self.spec_capacity(),
    {
        self._lru.len()
    }

    pub fn insert(&mut self, key: u64, val: V) -> (r: InsertResult<(u64, V)>)
        requires
            old(self).wf(),
        ensures
            final(self).wf(),
            final(self).spec_capacity() == old(self).spec_capacity(),
            (final(self)@, r) == lru_insert(old(self)@, old(self).spec_capacity(), key, val),
    {
        let ghost s0 = self._hmap@;
        let ghost o0 = self._lru.order();
        let ghost v0 = self@;
        proof {
            self.lemma_wf();
            crate::hashmap::lemma_live_count_bound(s0);
        }
        let e = Entry::new_entry(None, None, key, val, 0);
        let ghost e0 = e;
        let (clash, idx) = self._hmap.insert(e);
        let ghost s1 = self._hmap@;
        match clash {
            Some(c) => {
                let ghost p = choose|p: int| 0 <= p < o0.len() && o0[p] == idx;
                proof {
                    assert(has_key(s0, key));
                    assert(o0.contains(idx));
                    assert forall|i: int| 0 <= i < o0.len() implies same_links(
                        s0,
                        restored(s1, idx as int, c),
                        #[trigger] o0[i] as int,
                    ) by {
                        assert(link_ok(s0, o0, i, LRU_CID));
                    }
                    lemma_chain_frame(s0, restored(s1, idx as int, c), o0, LRU_CID);
                }
                let res = self._lru.insert_shared(&mut self._hmap, Some(&c), idx);
                let ghost s2 = self._hmap@;
                let ghost o2 = self._lru.order();
                proof {
                    let q = choose|q: int|
                        0 <= q < o0.len() && o0[q] == idx && o2 == seq![idx].add(o0.remove(q));
                    assert(q == p);
                    assert(v0[p].0 == key);
                    lemma_key_index(v0, p);
                    assert(self@ =~= seq![(key, val)].add(v0.remove(p))) by {
                        assert forall|i: int| 0 <= i < self@.len() implies self@[i] == seq![(key, val)].add(
                            v0.remove(p),
                        )[i] by {
                            if i > 0 {
                                let i1 = if i - 1 < p { i - 1 } else { i };
                                assert(o2[i] == o0[i1]);
                                assert(o0[i1] != idx);
                                assert(link_ok(s0, o0, i1, LRU_CID));
                            }
                        }
                    }
                    assert(frame(s1, s2, LRU_CID, idx as int));
                    assert forall|x: usize|
                        o0.contains(x) && x != idx && x < s0.len() && s2[x as int] is Some implies o2.contains(x) by {
                        let i = choose|i: int| 0 <= i < o0.len() && o0[i] == x;
                        assert(i != p);
                        let i2 = if i < p { i + 1 } else { i };
                        assert(o2[i2] == x);
                    }
                    assert(o2[0] == idx);
                    self.lemma_reestablish(s0, o0, idx as int);
                }
                let (k, v) = c.deconstruct();
                InsertResult::OldEntry { clash: Some((k, v)), evicted: None }
            },
            None => {
                proof {
                    assert(!o0.contains(idx)) by {
                        if o0.contains(idx) {
                            let i = choose|i: int| 0 <= i < o0.len() && o0[i] == idx;
                            assert(link_ok(s0, o0, i, LRU_CID));
                        }
                    }
                    assert forall|i: int| 0 <= i < o0.len() implies same_links(s0, s1, #[trigger] o0[i] as int) by {
                        assert(link_ok(s0, o0, i, LRU_CID));
                    }
                    lemma_chain_frame(s0, s1, o0, LRU_CID);
                }
                let res = self._lru.insert_shared(&mut self._hmap, None, idx);
                let ghost s2 = self._hmap@;
                let ghost o2 = self._lru.order();
                proof {
                    assert(!has_key(s0, key));
                    assert(!listed(v0, key));
                    assert(!o0.contains(idx));
                }
                match res {
                    InsertResultShared::OldTailPtr { evicted } => {
                        let removed = self._hmap.remove_idx(evicted);
                        proof {
                            assert forall|i: int| 0 <= i < o2.len() implies same_links(
                                s2,
                                self._hmap@,
                                #[trigger] o2[i] as int,
                            ) by {
                                assert(link_ok(s2, o2, i, LRU_CID));
                                assert(o2[i] != evicted);
                            }
                            lemma_chain_frame(s2, self._hmap@, o2, LRU_CID);
                            assert(frame(s1, s2, LRU_CID, idx as int));
                            if o0.len() > 0 {
                                assert(link_ok(s0, o0, o0.len() - 1, LRU_CID));
                                assert(self@ =~= seq![(key, val)].add(v0.drop_last())) by {
                                    assert forall|i: int| 0 <= i < self@.len() implies self@[i] == seq![(key, val)].add(
                                        v0.drop_last(),
                                    )[i] by {
                                        if i > 0 {
                                            assert(o2[i] == o0[i - 1]);
                                            assert(link_ok(s0, o0, i - 1, LRU_CID));
                                            assert(o0[i - 1] != idx);
                                        }
                                    }
                                }
                            } else {
                                assert(self@ =~= v0);
                            }
                            assert forall|x: usize|
                                o0.contains(x) && x != idx && x < s0.len() && self._hmap@[x as int] is Some implies o2.contains(x) by {
                                let i = choose|i: int| 0 <= i < o0.len() && o0[i] == x;
                                assert(i != o0.len() - 1);
                                assert(o2[i + 1] == x);
                            }
                            if o0.len() > 0 {
                                assert(o2[0] == idx);
                            }
                            self.lemma_reestablish(s0, o0, idx as int);
                        }
                        match removed {
                            Some(x) => InsertResult::OldTail { clash: None, evicted: x.deconstruct() },
                            None => {
                                proof {
                                    assert(false);
                                }
                                InsertResult::Success
                            },
                        }
                    },
                    _ => {
                        proof {
                            assert(self@ =~= seq![(key, val)].add(v0)) by {
                                assert forall|i: int| 0 <= i < self@.len() implies self@[i] == seq![(key, val)].add(
                                    v0,
                                )[i] by {
                                    if i > 0 {
                                        assert(o2[i] == o0[i - 1]);
                                        assert(link_ok(s0, o0, i - 1, LRU_CID));
                                        assert(o0[i - 1] != idx);
                                    }
                                }
                            }
                            assert(frame(s1, s2, LRU_CID, idx as int));
                            assert forall|x: usize|
                                o0.contains(x) && x != idx && x < s0.len() && s2[x as int] is Some implies o2.contains(x) by {
                                let i = choose|i: int| 0 <= i < o0.len() && o0[i] == x;
                                assert(o2[i + 1] == x);
                            }
                            assert(o2[0] == idx);
                            self.lemma_reestablish(s0, o0, idx as int);
                        }
                        InsertResult::Success
                    },
                }
            },
        }
    }

    /// The slot of `key` and its position in the chain, if it is cached.
    proof fn lemma_find(&self, key: u64, found: Option<usize>)
        requires
            self.wf(),
            match found {
                Some(i) => holds_key(self._hmap@, i as int, key),
                None => !has_key(self._hmap@, key),
            },
        ensures
            match found {
                Some(i) => exists|p: int|
                    0 <= p < self._lru.order().len() && self._lru.order()[p] == i && key_index(self@, key) == p
                        && listed(self@, key),
                None => !listed(self@, key),
            },
    {
        self.lemma_wf();
        if let Some(i) = found {
            let o = self._lru.order();
            let p = choose|p: int| 0 <= p < o.len() && o[p] == i;
            assert(self@[p].0 == key);
            lemma_key_index(self@, p);
        }
    }

    /// Whether `key` is cached. Nothing moves.
    pub fn contains_key(&self, key: u64) -> (r: bool)
        requires
            self.wf(),
        ensures
            r == listed(self@, key),
    {
        let found = self._hmap.get_full(key);
        let r = found.is_some();
        proof {
            self.lemma_find(key, match found { Some((i, _)) => Some(i), None => None });
        }
        r
    }

    /// The value of `key`, if cached. The order does not change: a read is
    /// not a promotion.
    pub fn get(&mut self, key: u64) -> (r: Option<&V>)
        requires
            old(self).wf(),
        ensures
            final(self).wf(),
            final(self)@ == old(self)@,
            final(self).spec_capacity() == old(self).spec_capacity(),
            match r {
                Some(v) => lookup(old(self)@, key) == Some(*v),
                None => lookup(old(self)@, key) is None,
            },
    {
        let idx = match self._hmap.get_full(key) {
            None => {
                proof {
                    self.lemma_find(key, None);
                }
                return None;
            },
            Some((i, _)) => i,
        };
        proof {
            self.lemma_find(key, Some(idx));
        }
        let ghost s0 = self._hmap@;
        let ghost v0 = self@;
        self._lru.on_get(&mut self._hmap, idx);
        proof {
            let s1 = self._hmap@;
            assert(frame(s0, s1, LRU_CID, -1));
            let o0 = self._lru.order();
            assert forall|i: int| 0 <= i < self@.len() implies self@[i] == v0[i] by {
                assert(link_ok(s0, o0, i, LRU_CID));
                let k = o0[i] as int;
                assert(s1[k]->Some_0.key == s0[k]->Some_0.key);
                assert(s1[k]->Some_0.val == s0[k]->Some_0.val);
            }
            assert(self@ =~= v0);
            self.lemma_reestablish(s0, self._lru.order(), -1);
        }
        match self._hmap.get_index(idx) {
            Some(e) => Some(&e.val),
            None => None,
        }
    }

    /// The value of `key`, if cached, to change in place. As with `get`,
    /// the order does not change.
    pub fn get_mut(&mut self, key: u64) -> (r: Option<&mut V>)
        requires
            old(self).wf(),
        ensures
            final(self).wf(),
            final(self).spec_capacity() == old(self).spec_capacity(),
            match r {
                Some(v) => lookup(old(self)@, key) == Some(*v) && final(self)@ == old(self)@.update(
                    key_index(old(self)@, key),
                    (key, *final(v)),
                ),
                None => lookup(old(self)@, key) is None && final(self)@ == old(self)@,
            },
    {
        let idx = match self._hmap.get_full(key) {
            None => {
                proof {
                    self.lemma_find(key, None);
                }
                return None;
            },
            Some((i, _)) => i,
        };
        proof {
            self.lemma_find(key, Some(idx));
        }
        let ghost s0 = self._hmap@;
        let ghost v0 = self@;
        let ghost p = key_index(v0, key);
        self._lru.on_get(&mut self._hmap, idx);
        let ghost s1 = self._hmap@;
        let ghost o = self._lru.order();
        proof {
            assert(frame(s0, s1, LRU_CID, -1));
            assert forall|i: int| 0 <= i < self@.len() implies self@[i] == v0[i] by {
                assert(link_ok(s0, o, i, LRU_CID));
                let k = o[i] as int;
                assert(s1[k]->Some_0.key == s0[k]->Some_0.key);
                assert(s1[k]->Some_0.val == s0[k]->Some_0.val);
            }
            assert(self@ =~= v0);
            self.lemma_reestablish(s0, o, -1);
            self.lemma_wf();
            lemma_key_index(v0, p);
            assert(link_ok(s1, o, p, LRU_CID));
        }
        let r = self._hmap.val_mut(idx);
        proof {
            let x = *final(r);
            let e = s1[idx as int]->Some_0;
            let s2 = s1.update(idx as int, Some(Entry { val: x, ..e }));
            crate::hashmap::lemma_live_count_update(s1, idx as int, Some(Entry { val: x, ..e }));
            assert forall|a: int, b: int|
                0 <= a < s2.len() && 0 <= b < s2.len() && s2[a] is Some && s2[b] is Some
                    && s2[a]->Some_0.key == s2[b]->Some_0.key implies a == b by {
                assert(s1[a] is Some && s1[b] is Some);
            }
            assert forall|i: int| 0 <= i < o.len() implies same_links(s1, s2, #[trigger] o[i] as int) by {
                assert(link_ok(s1, o, i, LRU_CID));
            }
            lemma_chain_frame(s1, s2, o, LRU_CID);
            assert(entries_of(s2, o) =~= v0.update(p, (key, x))) by {
                assert forall|i: int| 0 <= i < o.len() implies entries_of(s2, o)[i] == v0.update(p, (key, x))[i] by {
                    assert(link_ok(s1, o, i, LRU_CID));
                    if i != p {
                        assert(o[i] != idx);
                    }
                }
            }
        }
        Some(r)
    }

    /// Move `key` to the head, and return its value; `None` if not cached.
    pub fn make_head(&mut self, key: u64) -> (r: Option<&V>)
        requires
            old(self).wf(),
        ensures
            final(self).wf(),
            final(self)@ == to_head(old(self)@, key),
            final(self).spec_capacity() == old(self).spec_capacity(),
            match r {
                Some(v) => lookup(old(self)@, key) == Some(*v),
                None => lookup(old(self)@, key) is None,
            },
    {
        let idx = match self._hmap.get_full(key) {
            None => {
                proof {
                    self.lemma_find(key, None);
                }
                return None;
            },
            Some((i, _)) => i,
        };
        proof {
            self.lemma_find(key, Some(idx));
        }
        let ghost s0 = self._hmap@;
        let ghost o0 = self._lru.order();
        let ghost v0 = self@;
        let ghost p = key_index(v0, key);
        self._lru.make_head(&mut self._hmap, idx);
        proof {
            let s1 = self._hmap@;
            let o1 = self._lru.order();
            assert(frame(s0, s1, LRU_CID, -1));
            let q = choose|q: int| 0 <= q < o0.len() && o0[q] == idx && o1 == seq![idx].add(o0.remove(q));
            assert(o0.no_duplicates());
            assert(q == p);
            assert(self@ =~= seq![v0[p]].add(v0.remove(p))) by {
                assert forall|i: int| 0 <= i < self@.len() implies self@[i] == seq![v0[p]].add(v0.remove(p))[i] by {
                    let i1 = if i == 0 { p } else if i - 1 < p { i - 1 } else { i };
                    assert(o1[i] == o0[i1]);
                    assert(link_ok(s0, o0, i1, LRU_CID));
                    let k = o0[i1] as int;
                    assert(s1[k]->Some_0.key == s0[k]->Some_0.key);
                    assert(s1[k]->Some_0.val == s0[k]->Some_0.val);
                }
            }
            assert forall|x: usize| o0.contains(x) && x != -1 && x < s0.len() && s1[x as int] is Some implies o1.contains(
                x,
            ) by {
                let i = choose|i: int| 0 <= i < o0.len() && o0[i] == x;
                if i == p {
                    assert(o1[0] == x);
                } else {
                    let i2 = if i < p { i + 1 } else { i };
                    assert(o1[i2] == x);
                }
            }
            self.lemma_reestablish(s0, o0, -1);
        }
        match self._hmap.get_index(idx) {
            Some(e) => Some(&e.val),
            None => None,
        }
    }

    /// Take `key` out of the cache and return its value.
    pub fn remove(&mut self, key: u64) -> (r: Option<V>)
        requires
            old(self).wf(),
        ensures
            final(self).wf(),
            (final(self)@, r) == remove_key(old(self)@, key),
            final(self).spec_capacity() == old(self).spec_capacity(),
    {
        let idx = match self._hmap.get_full(key) {
            None => {
                proof {
                    self.lemma_find(key, None);
                }
                return None;
            },
            Some((i, _)) => i,
        };
        proof {
            self.lemma_find(key, Some(idx));
        }
        let ghost s0 = self._hmap@;
        let ghost o0 = self._lru.order();
        let ghost v0 = self@;
        let ghost p = key_index(v0, key);
        self._lru.remove_shared(&mut self._hmap, idx);
        let ghost s1 = self._hmap@;
        let ghost o1 = self._lru.order();
        let removed = self._hmap.remove_idx(idx);
        proof {
            let s2 = self._hmap@;
            assert(frame(s0, s1, LRU_CID, -1));
            let q = choose|q: int| 0 <= q < o0.len() && o0[q] == idx && o1 == o0.remove(q);
            assert(o0.no_duplicates());
            assert(q == p);
            assert forall|i: int| 0 <= i < o1.len() implies same_links(s1, s2, #[trigger] o1[i] as int) by {
                let i1 = if i < p { i } else { i + 1 };
                assert(o1[i] == o0[i1]);
                assert(link_ok(s1, o1, i, LRU_CID));
            }
            lemma_chain_frame(s1, s2, o1, LRU_CID);
            assert(self@ =~= v0.remove(p)) by {
                assert forall|i: int| 0 <= i < self@.len() implies self@[i] == v0.remove(p)[i] by {
                    let i1 = if i < p { i } else { i + 1 };
                    assert(o1[i] == o0[i1]);
                    assert(link_ok(s0, o0, i1, LRU_CID));
                    let k = o0[i1] as int;
                    assert(k != idx);
                    assert(s1[k]->Some_0.key == s0[k]->Some_0.key);
                    assert(s1[k]->Some_0.val == s0[k]->Some_0.val);
                    assert(s2[k] == s1[k]);
                }
            }
            assert forall|x: usize| o0.contains(x) && x != idx && x < s0.len() && s2[x as int] is Some implies o1.contains(
                x,
            ) by {
                let i = choose|i: int| 0 <= i < o0.len() && o0[i] == x;
                let i2 = if i < p { i } else { i - 1 };
                assert(o1[i2] == x);
            }
            self.lemma_reestablish(s0, o0, idx as int);
        }
        match removed {
            Some(e) => {
                let (_, v) = e.deconstruct();
                Some(v)
            },
            None => None,
        }
    }

    /// Empty the cache. Its capacity stays.
    pub fn clear(&mut self)
        requires
            old(self).wf(),
        ensures
            final(self).wf(),
            final(self)@ == Seq::<(u64, V)>::empty(),
            final(self).spec_capacity() == old(self).spec_capacity(),
    {
        self._hmap.clear();
        self._lru.clear_shared();
        proof {
            assert(self@ =~= Seq::<(u64, V)>::empty());
        }
    }
}

} // verus!
