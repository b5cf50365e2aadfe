//! Segmented LRU: a probation chain for new keys and a protected chain for
//! keys inserted again, both over one shared store.
use vstd::prelude::*;
use crate::entry::Entry;
use crate::hashmap::{SimpleHmap, has_key, holds_key, live_count};
use crate::lru::{
    LRUShared, frame, restored, link_ok, same_links, lemma_chain_frame, shared_result, entries_of, pair_at,
    lemma_entries_same, lemma_entries_ops, lemma_entries_of, lemma_count_of_order,
};
use crate::model::{lookup2, push_fresh, lemma_push_fresh, listed, key_index, keys_distinct, remove_key, slru_insert, lemma_key_index};
use crate::results::{InsertResult, InsertResultShared};
use crate::scan::ScanFn;

verus! {

/// Which segment the composite scan is walking.
#[derive(PartialEq, Eq, Structural, Clone, Copy, Debug)]
pub enum ScanStatus {
    Stopped,
    RunningProbation,
    RunningProtected,
}

/// Like `frame`, for an operation that may touch the slots of two caches.
pub open spec fn frame2<V>(
    s: Seq<Option<Entry<V>>>,
    s2: Seq<Option<Entry<V>>>,
    c1: u8,
    c2: u8,
    idx: int,
) -> bool {
    &&& s2.len() == s.len()
    &&& forall|k: int| 0 <= k < s.len() ==> (#[trigger] s2[k] is Some <==> s[k] is Some)
    &&& forall|k: int|
        0 <= k < s.len() && s[k] is Some ==> #[trigger] s2[k]->Some_0.key == s[k]->Some_0.key
    &&& forall|k: int|
        0 <= k < s.len() && s[k] is Some ==> #[trigger] s2[k]->Some_0.val == s[k]->Some_0.val
    &&& forall|k: int|
        0 <= k < s.len() && k != idx && s[k] is Some && s[k]->Some_0.cache_id != c1
            && s[k]->Some_0.cache_id != c2 ==> #[trigger] s2[k] == s[k]
}

pub proof fn lemma_frame_widen<V>(s: Seq<Option<Entry<V>>>, s2: Seq<Option<Entry<V>>>, c: u8, c2: u8, idx: int)
    requires
        frame(s, s2, c, idx),
    ensures
        frame2(s, s2, c, c2, idx),
        frame2(s, s2, c2, c, idx),
{
}

/// An operation of cache `c` that also retagged slot `t`, a slot of cache
/// `c2`, touched nothing outside the two caches.
pub proof fn lemma_frame_widen_at<V>(
    s: Seq<Option<Entry<V>>>,
    s2: Seq<Option<Entry<V>>>,
    c: u8,
    c2: u8,
    t: int,
    idx: int,
)
    requires
        frame(s, s2, c, t),
        0 <= t < s.len() ==> s[t] is Some && (s[t]->Some_0.cache_id == c2 || s[t]->Some_0.cache_id == c),
    ensures
        frame2(s, s2, c, c2, idx),
{
}

pub proof fn lemma_frame2_trans<V>(
    s1: Seq<Option<Entry<V>>>,
    s2: Seq<Option<Entry<V>>>,
    s3: Seq<Option<Entry<V>>>,
    c1: u8,
    c2: u8,
    idx: int,
)
    requires
        frame2(s1, s2, c1, c2, idx),
        frame2(s2, s3, c1, c2, idx),
    ensures
        frame2(s1, s3, c1, c2, idx),
{
    assert forall|k: int| 0 <= k < s1.len() && s1[k] is Some implies #[trigger] s3[k]->Some_0.key
        == s1[k]->Some_0.key by {
        assert(s2[k] is Some);
        assert(s2[k]->Some_0.key == s1[k]->Some_0.key);
    }
    assert forall|k: int| 0 <= k < s1.len() && s1[k] is Some implies #[trigger] s3[k]->Some_0.val
        == s1[k]->Some_0.val by {
        assert(s2[k] is Some);
        assert(s2[k]->Some_0.val == s1[k]->Some_0.val);
    }
    assert forall|k: int|
        0 <= k < s1.len() && k != idx && s1[k] is Some && s1[k]->Some_0.cache_id != c1
            && s1[k]->Some_0.cache_id != c2 implies #[trigger] s3[k] == s1[k] by {
        assert(s2[k] == s1[k]);
    }
}

/// A chain of a cache other than `c1` and `c2` survives their operations.
pub proof fn lemma_other_chain<V>(
    l: LRUShared,
    s: Seq<Option<Entry<V>>>,
    s2: Seq<Option<Entry<V>>>,
    c1: u8,
    c2: u8,
    idx: int,
)
    requires
        l.chain_wf(s),
        l.cid() != c1,
        l.cid() != c2,
        frame2(s, s2, c1, c2, idx),
        !l.order().contains(idx as usize) || idx < 0,
    ensures
        l.chain_wf(s2),
{
    let o = l.order();
    assert forall|i: int| 0 <= i < o.len() implies same_links(s, s2, #[trigger] o[i] as int) by {
        assert(link_ok(s, o, i, l.cid()));
        assert(o[i] as int != idx);
        assert(s2[o[i] as int] == s[o[i] as int]);
    }
    lemma_chain_frame(s, s2, o, l.cid());
}

/// Position of `x` in `o`, meaningful where `o` holds it.
pub open spec fn pos_of(o: Seq<usize>, x: usize) -> int {
    choose|p: int| 0 <= p < o.len() && o[p] == x
}

/// The chains and the report after linking slot `idx`, given the tag of
/// the entry it displaced, if that entry was in one of the segments, and
/// whether it had the same key.
pub open spec fn slru_orders(
    po: Seq<usize>,
    qo: Seq<usize>,
    pcap: nat,
    qcap: nat,
    pcid: u8,
    idx: usize,
    clash_cid: Option<u8>,
    same_key: bool,
) -> (Seq<usize>, Seq<usize>, InsertResultShared) {
    match clash_cid {
        None => {
            let (po2, out) = push_fresh(po, pcap, idx);
            (po2, qo, shared_result(out))
        },
        Some(c) => if c == pcid {
            let po1 = po.remove(pos_of(po, idx));
            if same_key {
                let (qo2, out1) = push_fresh(qo, qcap, idx);
                match out1 {
                    None => (po1, qo2, InsertResultShared::Success),
                    Some(t) => {
                        let (po2, out2) = push_fresh(po1, pcap, t);
                        (po2, qo2, shared_result(out2))
                    },
                }
            } else {
                (seq![idx].add(po1), qo, InsertResultShared::OldEntry)
            }
        } else {
            let qo1 = qo.remove(pos_of(qo, idx));
            if same_key {
                (po, seq![idx].add(qo1), InsertResultShared::OldEntry)
            } else {
                let (po2, out) = push_fresh(po, pcap, idx);
                (po2, qo1, shared_result(out))
            }
        },
    }
}

/// Two chains with different ids share no slot.
pub proof fn lemma_disjoint<V>(l1: LRUShared, l2: LRUShared, s: Seq<Option<Entry<V>>>)
    requires
        l1.chain_wf(s),
        l2.chain_wf(s),
        l1.cid() != l2.cid(),
    ensures
        forall|x: usize| l1.order().contains(x) ==> !l2.order().contains(x),
{
    assert forall|x: usize| l1.order().contains(x) implies !l2.order().contains(x) by {
        let i = choose|i: int| 0 <= i < l1.order().len() && l1.order()[i] == x;
        assert(link_ok(s, l1.order(), i, l1.cid()));
        if l2.order().contains(x) {
            let j = choose|j: int| 0 <= j < l2.order().len() && l2.order()[j] == x;
            assert(link_ok(s, l2.order(), j, l2.cid()));
        }
    }
}

/// A chain that does not hold `idx` is sound whatever slot `idx` holds.
pub proof fn lemma_chain_without<V>(l: LRUShared, s: Seq<Option<Entry<V>>>, s2: Seq<Option<Entry<V>>>, idx: int)
    requires
        l.chain_wf(s),
        s2.len() == s.len(),
        forall|k: int| 0 <= k < s.len() && k != idx ==> s2[k] == s[k],
        !l.order().contains(idx as usize),
        0 <= idx,
    ensures
        l.chain_wf(s2),
{
    let o = l.order();
    assert forall|i: int| 0 <= i < o.len() implies same_links(s, s2, #[trigger] o[i] as int) by {
        assert(link_ok(s, o, i, l.cid()));
        assert(o[i] as int != idx);
    }
    lemma_chain_frame(s, s2, o, l.cid());
}

/// Removing the slot at `p` keeps every other slot.
pub proof fn lemma_remove_keeps(o: Seq<usize>, p: int)
    requires
        0 <= p < o.len(),
    ensures
        forall|y: usize| o.contains(y) && y != o[p] ==> o.remove(p).contains(y),
{
    assert forall|y: usize| o.contains(y) && y != o[p] implies o.remove(p).contains(y) by {
        let i = choose|i: int| 0 <= i < o.len() && o[i] == y;
        let i2 = if i < p { i } else { i - 1 };
        assert(o.remove(p)[i2] == y);
    }
}

/// No slot of the segments, nor the new one, is lost by an insert but the
/// one that it reports for eviction.
pub proof fn lemma_slru_orders_keep(
    po: Seq<usize>,
    qo: Seq<usize>,
    pcap: nat,
    qcap: nat,
    pcid: u8,
    idx: usize,
    clash_cid: Option<u8>,
    same_key: bool,
)
    requires
        match clash_cid {
            None => true,
            Some(c) => if c == pcid {
                po.contains(idx)
            } else {
                qo.contains(idx)
            },
        },
    ensures
        forall|y: usize|
            (po.contains(y) || qo.contains(y) || y == idx) ==> slru_orders(po, qo, pcap, qcap, pcid, idx, clash_cid, same_key).0.contains(y)
                || slru_orders(po, qo, pcap, qcap, pcid, idx, clash_cid, same_key).1.contains(y)
                || slru_orders(po, qo, pcap, qcap, pcid, idx, clash_cid, same_key).2 == (InsertResultShared::OldTailPtr { evicted: y }),
{
    let r = slru_orders(po, qo, pcap, qcap, pcid, idx, clash_cid, same_key);
    match clash_cid {
        None => {
            lemma_push_fresh(po, pcap, idx);
            assert forall|y: usize| (po.contains(y) || qo.contains(y) || y == idx) implies r.0.contains(y)
                || r.1.contains(y) || r.2 == (InsertResultShared::OldTailPtr { evicted: y }) by {
                if po.contains(y) || y == idx {
                    assert(push_fresh(po, pcap, idx).0.contains(y) || push_fresh(po, pcap, idx).1 == Some(y));
                }
            }
        },
        Some(c) => if c == pcid {
            let pp = pos_of(po, idx);
            assert(po[pp] == idx);
            let po1 = po.remove(pp);
            lemma_remove_keeps(po, pp);
            if same_key {
                lemma_push_fresh(qo, qcap, idx);
                match push_fresh(qo, qcap, idx).1 {
                    None => {
                        assert forall|y: usize| (po.contains(y) || qo.contains(y) || y == idx) implies r.0.contains(y)
                            || r.1.contains(y) || r.2 == (InsertResultShared::OldTailPtr { evicted: y }) by {
                            if po.contains(y) && y != idx {
                                assert(po1.contains(y));
                            } else {
                                assert(qo.contains(y) || y == idx);
                                assert(push_fresh(qo, qcap, idx).0.contains(y) || push_fresh(qo, qcap, idx).1 == Some(y));
                            }
                        }
                    },
                    Some(t) => {
                        lemma_push_fresh(po1, pcap, t);
                        assert forall|y: usize| (po.contains(y) || qo.contains(y) || y == idx) implies r.0.contains(y)
                            || r.1.contains(y) || r.2 == (InsertResultShared::OldTailPtr { evicted: y }) by {
                            if y == t {
                                assert(push_fresh(po1, pcap, t).0.contains(y) || push_fresh(po1, pcap, t).1 == Some(y));
                            } else if po.contains(y) && y != idx {
                                assert(po1.contains(y));
                                assert(push_fresh(po1, pcap, t).0.contains(y) || push_fresh(po1, pcap, t).1 == Some(y));
                            } else {
                                assert(qo.contains(y) || y == idx);
                                assert(push_fresh(qo, qcap, idx).0.contains(y) || push_fresh(qo, qcap, idx).1 == Some(y));
                            }
                        }
                    },
                }
            } else {
                assert forall|y: usize| (po.contains(y) || qo.contains(y) || y == idx) implies r.0.contains(y)
                    || r.1.contains(y) || r.2 == (InsertResultShared::OldTailPtr { evicted: y }) by {
                    if y == idx {
                        assert(seq![idx].add(po1)[0] == idx);
                    } else if po.contains(y) {
                        assert(po1.contains(y));
                        let i = choose|i: int| 0 <= i < po1.len() && po1[i] == y;
                        assert(seq![idx].add(po1)[i + 1] == y);
                    }
                }
            }
        } else {
            let qp = pos_of(qo, idx);
            assert(qo[qp] == idx);
            let qo1 = qo.remove(qp);
            lemma_remove_keeps(qo, qp);
            if same_key {
                assert forall|y: usize| (po.contains(y) || qo.contains(y) || y == idx) implies r.0.contains(y)
                    || r.1.contains(y) || r.2 == (InsertResultShared::OldTailPtr { evicted: y }) by {
                    if y == idx {
                        assert(seq![idx].add(qo1)[0] == idx);
                    } else if qo.contains(y) {
                        assert(qo1.contains(y));
                        let i = choose|i: int| 0 <= i < qo1.len() && qo1[i] == y;
                        assert(seq![idx].add(qo1)[i + 1] == y);
                    }
                }
            } else {
                lemma_push_fresh(po, pcap, idx);
                assert forall|y: usize| (po.contains(y) || qo.contains(y) || y == idx) implies r.0.contains(y)
                    || r.1.contains(y) || r.2 == (InsertResultShared::OldTailPtr { evicted: y }) by {
                    if po.contains(y) || y == idx {
                        assert(push_fresh(po, pcap, idx).0.contains(y) || push_fresh(po, pcap, idx).1 == Some(y));
                    } else {
                        assert(qo1.contains(y));
                    }
                }
            }
        },
    }
}

/// What an insert reports for eviction was in a segment, or is the new
/// slot.
pub proof fn lemma_slru_orders_evicted(
    po: Seq<usize>,
    qo: Seq<usize>,
    pcap: nat,
    qcap: nat,
    pcid: u8,
    idx: usize,
    clash_cid: Option<u8>,
    same_key: bool,
)
    requires
        match clash_cid {
            None => true,
            Some(c) => if c == pcid {
                po.contains(idx)
            } else {
                qo.contains(idx)
            },
        },
    ensures
        forall|e: usize|
            slru_orders(po, qo, pcap, qcap, pcid, idx, clash_cid, same_key).2 == (InsertResultShared::OldTailPtr {
                evicted: e,
            }) ==> po.contains(e) || qo.contains(e) || e == idx,
{
    match clash_cid {
        None => {
            lemma_push_fresh(po, pcap, idx);
        },
        Some(c) => if c == pcid {
            let pp = pos_of(po, idx);
            assert(po[pp] == idx);
            let po1 = po.remove(pp);
            if same_key {
                lemma_push_fresh(qo, qcap, idx);
                match push_fresh(qo, qcap, idx).1 {
                    None => {},
                    Some(t) => {
                        lemma_push_fresh(po1, pcap, t);
                        assert forall|y: usize| po1.contains(y) implies po.contains(y) by {
                            let i = choose|i: int| 0 <= i < po1.len() && po1[i] == y;
                            let i1 = if i < pp { i } else { i + 1 };
                            assert(po[i1] == y);
                        }
                    },
                }
            }
        } else {
            lemma_push_fresh(po, pcap, idx);
        },
    }
}

pub struct SLRUShared {
    _probation: LRUShared,
    _protected: LRUShared,
    _scanstatus: ScanStatus,
}

impl SLRUShared {
    pub closed spec fn probation(&self) -> LRUShared {
        self._probation
    }

    pub closed spec fn protected(&self) -> LRUShared {
        self._protected
    }

    pub closed spec fn scan_status(&self) -> ScanStatus {
        self._scanstatus
    }

    /// A stopped composite scan has no segment cursor, and one walking
    /// protected has none in probation.
    pub open spec fn scan_ok(&self) -> bool {
        &&& self.scan_status() == ScanStatus::Stopped ==> self.probation().scan_cursor() is None
            && self.protected().scan_cursor() is None
        &&& self.scan_status() == ScanStatus::RunningProtected ==> self.probation().scan_cursor() is None
    }

    pub open spec fn chain_wf<V>(&self, s: Seq<Option<Entry<V>>>) -> bool {
        &&& self.probation().chain_wf(s)
        &&& self.protected().chain_wf(s)
        &&& self.probation().cid() != self.protected().cid()
        &&& self.scan_ok()
    }

    pub open spec fn wf<V>(&self, s: Seq<Option<Entry<V>>>) -> bool {
        &&& self.probation().wf(s)
        &&& self.protected().wf(s)
        &&& self.probation().cid() != self.protected().cid()
        &&& self.scan_ok()
    }

    /// Both segments unchanged but for their scans.
    pub open spec fn same_shape(&self, other: &SLRUShared) -> bool {
        &&& other.probation().order() == self.probation().order()
        &&& other.protected().order() == self.protected().order()
        &&& other.probation().cid() == self.probation().cid()
        &&& other.protected().cid() == self.protected().cid()
        &&& other.probation().cap() == self.probation().cap()
        &&& other.protected().cap() == self.protected().cap()
        &&& other.probation().scan_fn() == self.probation().scan_fn()
        &&& other.protected().scan_fn() == self.protected().scan_fn()
    }

    /// Segments of `probation.0` and `protected.0` entries, with the ids
    /// `probation.1` and `protected.1`.
    pub fn new(probation: (usize, u8), protected: (usize, u8), access_scan: ScanFn) -> (r: SLRUShared)
        requires
            probation.1 != 0,
            protected.1 != 0,
            probation.1 != protected.1,
        ensures
            r.probation().order() == Seq::<usize>::empty(),
            r.protected().order() == Seq::<usize>::empty(),
            r.probation().inner_ok(),
            r.protected().inner_ok(),
            r.probation().cid() == probation.1,
            r.protected().cid() == protected.1,
            r.probation().cap() == probation.0,
            r.protected().cap() == protected.0,
            r.probation().scan_fn() == access_scan,
            r.protected().scan_fn() == access_scan,
            r.scan_status() == ScanStatus::Stopped,
            r.probation().scan_cursor() is None,
            r.protected().scan_cursor() is None,
    {
        SLRUShared {
            _probation: LRUShared::new(probation.0, probation.1, access_scan),
            _protected: LRUShared::new(protected.0, protected.1, access_scan),
            _scanstatus: ScanStatus::Stopped,
        }
    }

    pub fn set_scanf(&mut self, access_scan: ScanFn)
        ensures
            final(self).probation().order() == old(self).probation().order(),
            final(self).protected().order() == old(self).protected().order(),
            final(self).probation().cid() == old(self).probation().cid(),
            final(self).protected().cid() == old(self).protected().cid(),
            final(self).probation().cap() == old(self).probation().cap(),
            final(self).protected().cap() == old(self).protected().cap(),
            final(self).probation().scan_fn() == access_scan,
            final(self).protected().scan_fn() == access_scan,
            old(self).probation().inner_ok() ==> final(self).probation().inner_ok(),
            old(self).protected().inner_ok() ==> final(self).protected().inner_ok(),
            final(self).scan_status() == old(self).scan_status(),
            final(self).probation().scan_cursor() == old(self).probation().scan_cursor(),
            final(self).protected().scan_cursor() == old(self).protected().scan_cursor(),
    {
        self._probation.set_scanf(access_scan);
        self._protected.set_scanf(access_scan);
    }

    /// The ids of (probation, protected).
    pub fn get_cache_ids(&self) -> (r: (u8, u8))
        ensures
            r == (self.probation().cid(), self.protected().cid()),
    {
        (self._probation.get_cache_id(), self._protected.get_cache_id())
    }

    pub fn capacity(&self) -> (r: usize)
        requires
            self.probation().cap() + self.protected().cap() <= usize::MAX,
        ensures
            r == self.probation().cap() + self.protected().cap(),
    {
        self._probation.capacity() + self._protected.capacity()
    }

    pub fn len(&self) -> (r: usize)
        requires
            self.probation().inner_ok(),
            self.protected().inner_ok(),
            self.probation().cap() + self.protected().cap() <= usize::MAX,
            self.probation().order().len() <= self.probation().cap(),
            self.protected().order().len() <= self.protected().cap(),
        ensures
            r == self.probation().order().len() + self.protected().order().len(),
    {
        self._probation.len() + self._protected.len()
    }

    pub fn is_scan_running(&self) -> (r: bool)
        ensures
            r == (self.scan_status() != ScanStatus::Stopped),
    {
        self._scanstatus != ScanStatus::Stopped
    }

    /// Forget every entry of both segments.
    pub fn clear_shared(&mut self)
        ensures
            final(self).probation().order() == Seq::<usize>::empty(),
            final(self).protected().order() == Seq::<usize>::empty(),
            final(self).probation().inner_ok(),
            final(self).protected().inner_ok(),
            final(self).probation().cid() == old(self).probation().cid(),
            final(self).protected().cid() == old(self).protected().cid(),
            final(self).probation().cap() == old(self).probation().cap(),
            final(self).protected().cap() == old(self).protected().cap(),
            final(self).probation().scan_fn() == old(self).probation().scan_fn(),
            final(self).protected().scan_fn() == old(self).protected().scan_fn(),
            final(self).scan_status() == ScanStatus::Stopped,
            final(self).probation().scan_cursor() is None,
            final(self).protected().scan_cursor() is None,
    {
        self._probation.clear_shared();
        self._protected.clear_shared();
        self._scanstatus = ScanStatus::Stopped;
    }

    /// Hand the composite scan on from probation to protected, and stop it
    /// when protected is done.
    fn update_scan_status<V>(&mut self, hmap: &mut SimpleHmap<V>)
        requires
            old(self).wf(old(hmap)@),
            old(hmap).wf(),
        ensures
            final(self).wf(final(hmap)@),
            final(hmap).wf(),
            final(hmap).seed() == old(hmap).seed(),
            old(self).same_shape(&*final(self)),
            forall|i: int| #[trigger] frame2(old(hmap)@, final(hmap)@, old(self).probation().cid(), old(self).protected().cid(), i),
            final(self).probation().scan_cursor() == old(self).probation().scan_cursor(),
            old(self).scan_status() != ScanStatus::RunningProbation ==> final(self).protected().scan_cursor()
                == old(self).protected().scan_cursor(),
    {
        let ghost s0 = hmap@;
        let ghost p = self._probation.cid();
        let ghost q = self._protected.cid();
        match self._scanstatus {
            ScanStatus::Stopped => {},
            ScanStatus::RunningProbation => {
                if !self._probation.is_scan_running() {
                    self._protected.start_scan(hmap);
                    self._scanstatus = ScanStatus::RunningProtected;
                    proof {
                        assert(frame(s0, hmap@, q, -1));
                        lemma_frame_widen(s0, hmap@, q, q, -1);
                        lemma_other_chain(self._probation, s0, hmap@, q, q, -1);
                    }
                }
            },
            ScanStatus::RunningProtected => {
                if !self._protected.is_scan_running() {
                    self._scanstatus = ScanStatus::Stopped;
                }
            },
        }
        proof {
            assert forall|i: int| #[trigger] frame2(s0, hmap@, p, q, i) by {
                if s0 != hmap@ {
                    assert(frame(s0, hmap@, q, i));
                    lemma_frame_widen(s0, hmap@, q, p, i);
                }
            }
        }
    }

    /// Start the composite scan: probation first, then protected.
    pub fn start_scan<V>(&mut self, hmap: &mut SimpleHmap<V>)
        requires
            old(self).wf(old(hmap)@),
            old(hmap).wf(),
        ensures
            old(self).probation().scan_cursor() is Some || old(self).probation().order().len() > 0
                ==> final(self).scan_status() == ScanStatus::RunningProbation && final(self).probation().scan_cursor()
                == if old(self).probation().scan_cursor() is Some {
                old(self).probation().scan_cursor()
            } else {
                Some(old(self).probation().order()[0])
            },
            old(self).probation().scan_cursor() is None && old(self).probation().order().len() == 0 && (old(
                self,
            ).protected().scan_cursor() is Some || old(self).protected().order().len() > 0) ==> final(self).scan_status()
                == ScanStatus::RunningProtected && final(self).protected().scan_cursor() == if old(self).protected().scan_cursor() is Some {
                old(self).protected().scan_cursor()
            } else {
                Some(old(self).protected().order()[0])
            },
            old(self).probation().scan_cursor() is None && old(self).probation().order().len() == 0 && old(
                self,
            ).protected().scan_cursor() is None && old(self).protected().order().len() == 0 ==> final(self).scan_status()
                == ScanStatus::Stopped,
            old(self).scan_status() == ScanStatus::Stopped && old(self).probation().order().len() > 0
                ==> final(self).scan_status() == ScanStatus::RunningProbation && final(self).probation().scan_cursor()
                == Some(old(self).probation().order()[0]),
            old(self).scan_status() == ScanStatus::Stopped && old(self).probation().order().len() == 0 && old(
                self,
            ).protected().order().len() > 0 ==> final(self).scan_status() == ScanStatus::RunningProtected
                && final(self).protected().scan_cursor() == Some(old(self).protected().order()[0]),
            old(self).scan_status() == ScanStatus::Stopped && old(self).probation().order().len() == 0 && old(
                self,
            ).protected().order().len() == 0 ==> final(self).scan_status() == ScanStatus::Stopped,
            final(self).wf(final(hmap)@),
            final(hmap).wf(),
            final(hmap).seed() == old(hmap).seed(),
            old(self).same_shape(&*final(self)),
            forall|i: int| #[trigger] frame2(old(hmap)@, final(hmap)@, old(self).probation().cid(), old(self).protected().cid(), i),
    {
        let ghost s0 = hmap@;
        let ghost p = self._probation.cid();
        let ghost q = self._protected.cid();
        proof {
            self._probation.lemma_cursor_in_chain();
            self._protected.lemma_cursor_in_chain();
        }
        self._probation.start_scan(hmap);
        let ghost s1 = hmap@;
        proof {
            assert(frame(s0, s1, p, -1));
            lemma_frame_widen(s0, s1, p, p, -1);
            lemma_other_chain(self._protected, s0, s1, p, p, -1);
        }
        if self._probation.is_scan_running() {
            self._scanstatus = ScanStatus::RunningProbation;
        } else {
            self._protected.start_scan(hmap);
            proof {
                assert(frame(s1, hmap@, q, -1));
                lemma_frame_widen(s1, hmap@, q, q, -1);
                lemma_other_chain(self._probation, s1, hmap@, q, q, -1);
            }
            if self._protected.is_scan_running() {
                self._scanstatus = ScanStatus::RunningProtected;
            } else {
                self._scanstatus = ScanStatus::Stopped;
            }
        }
        proof {
            assert forall|i: int| #[trigger] frame2(s0, hmap@, p, q, i) by {
                assert(frame(s0, s1, p, i));
                lemma_frame_widen(s0, s1, p, q, i);
                if s1 != hmap@ {
                    assert(frame(s1, hmap@, q, i));
                    lemma_frame_widen(s1, hmap@, q, p, i);
                    lemma_frame2_trans(s0, s1, hmap@, p, q, i);
                }
            }
        }
    }

    /// Link the entry that the caller has just placed at slot
    /// `new_entry_idx`.
    ///
    /// `maybe_old_entry` is the entry that the store displaced there, given
    /// only where it belonged to one of the two segments. A fresh entry goes
    /// to probation. An entry that displaced one of the same key in
    /// probation is promoted to protected, and a protected tail pushed out
    /// by that promotion falls back to the head of probation. An entry that
    /// displaced one of the same key in protected moves to its head. An
    /// entry that displaced another key takes its place in probation, or,
    /// where that key was protected, goes to probation as a fresh entry.
    /// A slot that overflows the segments is reported for the caller to
    /// empty.
    pub fn insert_shared<V>(
        &mut self,
        hmap: &mut SimpleHmap<V>,
        maybe_old_entry: Option<&Entry<V>>,
        new_entry_idx: usize,
    ) -> (r: InsertResultShared)
        requires
            old(self).probation().order().len() <= old(self).probation().cap(),
            old(self).protected().order().len() <= old(self).protected().cap(),
            old(hmap).wf(),
            new_entry_idx < old(hmap)@.len(),
            old(hmap)@[new_entry_idx as int] is Some,
            match maybe_old_entry {
                None => old(self).chain_wf(old(hmap)@) && !old(self).probation().order().contains(new_entry_idx)
                    && !old(self).protected().order().contains(new_entry_idx),
                Some(c) => old(self).chain_wf(restored(old(hmap)@, new_entry_idx as int, *c)) && ((
                c.cache_id == old(self).probation().cid() && old(self).probation().order().contains(
                    new_entry_idx,
                )) || (c.cache_id == old(self).protected().cid() && old(self).protected().order().contains(
                    new_entry_idx,
                ))),
            },
        ensures
            final(self).wf(final(hmap)@),
            final(hmap).wf(),
            final(hmap).seed() == old(hmap).seed(),
            final(self).probation().cid() == old(self).probation().cid(),
            final(self).protected().cid() == old(self).protected().cid(),
            final(self).probation().cap() == old(self).probation().cap(),
            final(self).protected().cap() == old(self).protected().cap(),
            final(self).probation().scan_fn() == old(self).probation().scan_fn(),
            final(self).protected().scan_fn() == old(self).protected().scan_fn(),
            frame2(
                old(hmap)@,
                final(hmap)@,
                old(self).probation().cid(),
                old(self).protected().cid(),
                new_entry_idx as int,
            ),
            (final(self).probation().order(), final(self).protected().order(), r) == slru_orders(
                old(self).probation().order(),
                old(self).protected().order(),
                old(self).probation().cap(),
                old(self).protected().cap(),
                old(self).probation().cid(),
                new_entry_idx,
                match maybe_old_entry {
                    None => None,
                    Some(c) => Some(c.cache_id),
                },
                match maybe_old_entry {
                    None => false,
                    Some(c) => c.key == old(hmap)@[new_entry_idx as int]->Some_0.key,
                },
            ),
            match r {
                InsertResultShared::OldTailPtr { evicted } => (evicted < old(hmap)@.len()
                    && final(hmap)@[evicted as int] is Some && !final(self).probation().order().contains(evicted)
                    && !final(self).protected().order().contains(evicted)),
                _ => true,
            },
    {
        let idx = new_entry_idx;
        let ghost s0 = hmap@;
        let ghost po = self._probation.order();
        let ghost qo = self._protected.order();
        let ghost p = self._probation.cid();
        let ghost q = self._protected.cid();
        let pcid = self._probation.get_cache_id();
        let res = match maybe_old_entry {
            None => {
                let r = self._probation.insert_shared(hmap, None, idx);
                proof {
                    lemma_frame_widen(s0, hmap@, p, q, idx as int);
                    lemma_frame_widen(s0, hmap@, p, p, idx as int);
                    lemma_other_chain(self._protected, s0, hmap@, p, p, idx as int);
                    if let InsertResultShared::OldTailPtr { evicted } = r {
                        if evicted != idx {
                            lemma_disjoint(old(self)._probation, self._protected, s0);
                        }
                    }
                }
                r
            },
            Some(c) => {
                let new_key = match hmap.get_index(idx) {
                    Some(e) => e.key,
                    None => 0,
                };
                let ghost rs = restored(s0, idx as int, *c);
                proof {
                    lemma_disjoint(self._probation, self._protected, rs);
                    lemma_disjoint(self._protected, self._probation, rs);
                }
                if c.cache_id == pcid {
                    let ghost pp = pos_of(po, idx);
                    proof {
                        assert(po[pp] == idx);
                    }
                    if c.key == new_key {
                        hmap.set_links(idx, c.toward_head, c.toward_tail);
                        hmap.set_cache_id(idx, pcid);
                        let ghost s1 = hmap@;
                        proof {
                            assert(s1 == rs);
                        }
                        self._probation.remove_shared(hmap, idx);
                        let ghost s2 = hmap@;
                        let ghost po1 = self._probation.order();
                        proof {
                            assert(po.no_duplicates());
                            assert(po1 == po.remove(pp));
                            assert(frame(s1, s2, p, -1));
                            lemma_frame_widen(s1, s2, p, p, idx as int);
                            lemma_other_chain(self._protected, s1, s2, p, p, idx as int);
                            assert(!po1.contains(idx)) by {
                                if po1.contains(idx) {
                                    let j = choose|j: int| 0 <= j < po1.len() && po1[j] == idx;
                                    let j1 = if j < pp { j } else { j + 1 };
                                    assert(po[j1] == idx);
                                }
                            }
                        }
                        let r1 = self._protected.insert_shared(hmap, None, idx);
                        let ghost s3 = hmap@;
                        let ghost qo2 = self._protected.order();
                        proof {
                            lemma_frame_widen(s2, s3, q, q, idx as int);
                            lemma_other_chain(self._probation, s2, s3, q, q, idx as int);
                            lemma_frame_widen(s1, s2, p, q, idx as int);
                            lemma_frame_widen(s2, s3, q, p, idx as int);
                            lemma_frame2_trans(s1, s2, s3, p, q, idx as int);
                            lemma_frame2_trans(s0, s1, s3, p, q, idx as int);
                        }
                        match r1 {
                            InsertResultShared::OldTailPtr { evicted } => {
                                let t = evicted;
                                proof {
                                    if t != idx {
                                        assert(qo.contains(t)) by {
                                            assert(qo[qo.len() - 1] == t);
                                        }
                                        assert(!po1.contains(t)) by {
                                            if po1.contains(t) {
                                                let j = choose|j: int| 0 <= j < po1.len() && po1[j] == t;
                                                let j1 = if j < pp { j } else { j + 1 };
                                                assert(po[j1] == t);
                                            }
                                        }
                                        assert(link_ok(rs, qo, qo.len() - 1, q));
                                        assert(s1[t as int] == rs[t as int]);
                                    }
                                }
                                let r2 = self._probation.insert_shared(hmap, None, t);
                                proof {
                                    let s4 = hmap@;
                                    lemma_frame_widen(s3, s4, p, p, t as int);
                                    lemma_other_chain(self._protected, s3, s4, p, p, t as int);
                                    assert(s3[t as int] is Some);
                                    if t != idx {
                                        assert(s3[t as int]->Some_0.cache_id == q);
                                    } else {
                                        assert(s3[t as int]->Some_0.cache_id == p);
                                    }
                                    lemma_frame_widen_at(s3, s4, p, q, t as int, idx as int);
                                    lemma_frame2_trans(s0, s3, s4, p, q, idx as int);
                                    if let InsertResultShared::OldTailPtr { evicted } = r2 {
                                        lemma_disjoint(self._probation, self._protected, s4);
                                        if evicted == t {
                                        } else {
                                            assert(po1.contains(evicted)) by {
                                                assert(po1[po1.len() - 1] == evicted);
                                            }
                                        }
                                    }
                                }
                                r2
                            },
                            other => other,
                        }
                    } else {
                        proof {
                            lemma_chain_without(self._protected, rs, s0, idx as int);
                        }
                        let r = self._probation.insert_shared(hmap, Some(c), idx);
                        proof {
                            lemma_frame_widen(s0, hmap@, p, q, idx as int);
                            lemma_frame_widen(s0, hmap@, p, p, idx as int);
                            lemma_other_chain(self._protected, s0, hmap@, p, p, idx as int);
                            assert(po.no_duplicates());
                        }
                        r
                    }
                } else {
                    let ghost qp = pos_of(qo, idx);
                    proof {
                        assert(qo[qp] == idx);
                    }
                    if c.key == new_key {
                        proof {
                            lemma_chain_without(self._probation, rs, s0, idx as int);
                        }
                        let r = self._protected.insert_shared(hmap, Some(c), idx);
                        proof {
                            lemma_frame_widen(s0, hmap@, q, p, idx as int);
                            lemma_frame_widen(s0, hmap@, q, q, idx as int);
                            lemma_other_chain(self._probation, s0, hmap@, q, q, idx as int);
                            assert(qo.no_duplicates());
                        }
                        r
                    } else {
                        let qcid = self._protected.get_cache_id();
                        hmap.set_links(idx, c.toward_head, c.toward_tail);
                        hmap.set_cache_id(idx, qcid);
                        let ghost s1 = hmap@;
                        proof {
                            assert(s1 == rs);
                        }
                        self._protected.remove_shared(hmap, idx);
                        let ghost s2 = hmap@;
                        proof {
                            assert(qo.no_duplicates());
                            assert(frame(s1, s2, q, -1));
                            lemma_frame_widen(s1, s2, q, q, idx as int);
                            lemma_other_chain(self._probation, s1, s2, q, q, idx as int);
                            lemma_frame_widen(s1, s2, q, p, idx as int);
                            lemma_frame2_trans(s0, s1, s2, p, q, idx as int);
                        }
                        let r = self._probation.insert_shared(hmap, None, idx);
                        proof {
                            let s3 = hmap@;
                            let qo1 = self._protected.order();
                            assert(!qo1.contains(idx)) by {
                                if qo1.contains(idx) {
                                    let j = choose|j: int| 0 <= j < qo1.len() && qo1[j] == idx;
                                    let j1 = if j < qp { j } else { j + 1 };
                                    assert(qo[j1] == idx);
                                }
                            }
                            lemma_frame_widen(s2, s3, p, p, idx as int);
                            lemma_other_chain(self._protected, s2, s3, p, p, idx as int);
                            lemma_frame_widen(s2, s3, p, q, idx as int);
                            lemma_frame2_trans(s0, s2, s3, p, q, idx as int);
                            if let InsertResultShared::OldTailPtr { evicted } = r {
                                if evicted != idx {
                                    assert(po.contains(evicted)) by {
                                        assert(po[po.len() - 1] == evicted);
                                    }
                                    assert(!qo1.contains(evicted)) by {
                                        if qo1.contains(evicted) {
                                            let j = choose|j: int| 0 <= j < qo1.len() && qo1[j] == evicted;
                                            let j1 = if j < qp { j } else { j + 1 };
                                            assert(qo[j1] == evicted);
                                        }
                                    }
                                }
                            }
                        }
                        r
                    }
                }
            },
        };
        let ghost s5 = hmap@;
        self.update_scan_status(hmap);
        proof {
            assert(frame2(s5, hmap@, p, q, idx as int));
            lemma_frame2_trans(s0, s5, hmap@, p, q, idx as int);
        }
        res
    }

    /// Take `entry` out of whichever segment holds it. The caller then
    /// empties its slot.
    pub fn remove_shared<V>(&mut self, hmap: &mut SimpleHmap<V>, entry: usize)
        requires
            old(self).wf(old(hmap)@),
            old(hmap).wf(),
            old(self).probation().order().contains(entry) || old(self).protected().order().contains(entry),
        ensures
            final(self).wf(final(hmap)@),
            final(hmap).wf(),
            final(hmap).seed() == old(hmap).seed(),
            final(self).probation().cid() == old(self).probation().cid(),
            final(self).protected().cid() == old(self).protected().cid(),
            final(self).probation().cap() == old(self).probation().cap(),
            final(self).protected().cap() == old(self).protected().cap(),
            final(self).probation().scan_fn() == old(self).probation().scan_fn(),
            final(self).protected().scan_fn() == old(self).protected().scan_fn(),
            forall|i: int| #[trigger] frame2(old(hmap)@, final(hmap)@, old(self).probation().cid(), old(self).protected().cid(), i),
            old(self).probation().order().contains(entry) ==> final(self).probation().order() == old(
                self,
            ).probation().order().remove(pos_of(old(self).probation().order(), entry))
                && final(self).protected().order() == old(self).protected().order(),
            old(self).protected().order().contains(entry) ==> final(self).protected().order() == old(
                self,
            ).protected().order().remove(pos_of(old(self).protected().order(), entry))
                && final(self).probation().order() == old(self).probation().order(),
    {
        let ghost s0 = hmap@;
        let ghost p = self._probation.cid();
        let ghost q = self._protected.cid();
        proof {
            lemma_disjoint(self._probation, self._protected, s0);
            lemma_disjoint(self._protected, self._probation, s0);
            if self._probation.order().contains(entry) {
                let i = choose|i: int| 0 <= i < self._probation.order().len() && self._probation.order()[i] == entry;
                assert(link_ok(s0, self._probation.order(), i, p));
                assert(self._probation.order().no_duplicates());
            } else {
                let i = choose|i: int| 0 <= i < self._protected.order().len() && self._protected.order()[i] == entry;
                assert(link_ok(s0, self._protected.order(), i, q));
                assert(self._protected.order().no_duplicates());
            }
        }
        let cid = match hmap.get_index(entry) {
            Some(e) => e.cache_id,
            None => 0,
        };
        if cid == self._probation.get_cache_id() {
            self._probation.remove_shared(hmap, entry);
            proof {
                lemma_frame_widen(s0, hmap@, p, p, -1);
                assert(frame(s0, hmap@, p, -1));
                lemma_other_chain(self._protected, s0, hmap@, p, p, -1);
            }
        } else {
            self._protected.remove_shared(hmap, entry);
            proof {
                lemma_frame_widen(s0, hmap@, q, q, -1);
                assert(frame(s0, hmap@, q, -1));
                lemma_other_chain(self._probation, s0, hmap@, q, q, -1);
            }
        }
        let ghost s1 = hmap@;
        self.update_scan_status(hmap);
        proof {
            assert forall|i: int| #[trigger] frame2(s0, hmap@, p, q, i) by {
                if cid == p {
                    assert(frame(s0, s1, p, i));
                    lemma_frame_widen(s0, s1, p, q, i);
                } else {
                    assert(frame(s0, s1, q, i));
                    lemma_frame_widen(s0, s1, q, p, i);
                }
                assert(frame2(s1, hmap@, p, q, i));
                lemma_frame2_trans(s0, s1, hmap@, p, q, i);
            }
        }
    }

    /// A read of `entry`: no segment changes; the scan of the segment that
    /// holds it takes a step toward its tail.
    pub fn on_get<V>(&mut self, hmap: &mut SimpleHmap<V>, entry: usize)
        requires
            old(self).wf(old(hmap)@),
            old(hmap).wf(),
        ensures
            (entry < old(hmap)@.len() && old(hmap)@[entry as int] is Some && old(hmap)@[entry as int]->Some_0.cache_id
                == old(self).probation().cid()) ==> final(self).probation().scan_cursor() == match old(self).probation().scan_cursor() {
                None => None,
                Some(l) => old(hmap)@[l as int]->Some_0.toward_tail,
            },
            !(entry < old(hmap)@.len() && old(hmap)@[entry as int] is Some && old(hmap)@[entry as int]->Some_0.cache_id
                == old(self).probation().cid()) && old(self).scan_status() != ScanStatus::RunningProbation
                ==> final(self).protected().scan_cursor() == match old(self).protected().scan_cursor() {
                None => None,
                Some(l) => old(hmap)@[l as int]->Some_0.toward_tail,
            },
            final(self).wf(final(hmap)@),
            final(hmap).wf(),
            final(hmap).seed() == old(hmap).seed(),
            old(self).same_shape(&*final(self)),
            forall|i: int| #[trigger] frame2(old(hmap)@, final(hmap)@, old(self).probation().cid(), old(self).protected().cid(), i),
    {
        let ghost s0 = hmap@;
        let ghost p = self._probation.cid();
        let ghost q = self._protected.cid();
        let cid = match hmap.get_index(entry) {
            Some(e) => e.cache_id,
            None => 0,
        };
        if cid == self._probation.get_cache_id() {
            self._probation.on_get(hmap, entry);
            proof {
                assert(frame(s0, hmap@, p, -1));
                lemma_frame_widen(s0, hmap@, p, p, -1);
                lemma_other_chain(self._protected, s0, hmap@, p, p, -1);
            }
        } else {
            self._protected.on_get(hmap, entry);
            proof {
                assert(frame(s0, hmap@, q, -1));
                lemma_frame_widen(s0, hmap@, q, q, -1);
                lemma_other_chain(self._probation, s0, hmap@, q, q, -1);
            }
        }
        let ghost s1 = hmap@;
        self.update_scan_status(hmap);
        proof {
            assert forall|i: int| #[trigger] frame2(s0, hmap@, p, q, i) by {
                if cid == p {
                    assert(frame(s0, s1, p, i));
                    lemma_frame_widen(s0, s1, p, q, i);
                } else {
                    assert(frame(s0, s1, q, i));
                    lemma_frame_widen(s0, s1, q, p, i);
                }
                assert(frame2(s1, hmap@, p, q, i));
                lemma_frame2_trans(s0, s1, hmap@, p, q, i);
            }
        }
    }
}


/// Id that a stand-alone SLRU stamps on its probation slots.
pub const SLRU_PROBATION_CID: u8 = 1;

/// Id that a stand-alone SLRU stamps on its protected slots.
pub const SLRU_PROTECTED_CID: u8 = 2;

/// A segmented LRU with its own store.
pub struct SLRU<V> {
    _hmap: SimpleHmap<V>,
    _slru: SLRUShared,
}

impl<V> SLRU<V> {
    /// Pairs in probation, most recent first.
    pub closed spec fn probation_view(&self) -> Seq<(u64, V)> {
        entries_of(self._hmap@, self._slru.probation().order())
    }

    /// Pairs in protected, most recent first.
    pub closed spec fn protected_view(&self) -> Seq<(u64, V)> {
        entries_of(self._hmap@, self._slru.protected().order())
    }

    pub closed spec fn probation_cap(&self) -> nat {
        self._slru.probation().cap()
    }

    pub closed spec fn protected_cap(&self) -> nat {
        self._slru.protected().cap()
    }

    pub closed spec fn wf(&self) -> bool {
        &&& self._hmap.wf()
        &&& self._slru.wf(self._hmap@)
        &&& forall|k: int|
            0 <= k < self._hmap@.len() && self._hmap@[k] is Some ==> self._slru.probation().order().contains(
                k as usize,
            ) || self._slru.protected().order().contains(k as usize)
        &&& self._hmap@.len() > self._slru.probation().cap() + self._slru.protected().cap()
    }

    /// The slots of the store this cache owns.
    pub closed spec fn store_view(&self) -> Seq<Option<Entry<V>>> {
        self._hmap@
    }

    /// Neither segment holds more pairs than its capacity.
    pub proof fn law_len_within_capacity(&self)
        requires
            self.wf(),
        ensures
            self.probation_view().len() <= self.probation_cap(),
            self.protected_view().len() <= self.protected_cap(),
    {
    }

    /// The store's length is the sum of the two chains' lengths, and no key
    /// is held twice, in one segment or across both.
    pub proof fn law_store_len(&self)
        requires
            self.wf(),
        ensures
            live_count(self.store_view()) == self.probation_view().len() + self.protected_view().len(),
            keys_distinct(self.probation_view()),
            keys_distinct(self.protected_view()),
            forall|key: u64| !(listed(self.probation_view(), key) && listed(self.protected_view(), key)),
    {
        self.lemma_wf();
    }

    proof fn lemma_wf(&self)
        requires
            self.wf(),
        ensures
            live_count(self._hmap@) == self._slru.probation().order().len() + self._slru.protected().order().len(),
            keys_distinct(self.probation_view()),
            keys_distinct(self.protected_view()),
            forall|key: u64|
                has_key(self._hmap@, key) <==> (listed(self.probation_view(), key) || listed(self.protected_view(), key)),
            forall|key: u64| !(listed(self.probation_view(), key) && listed(self.protected_view(), key)),
            forall|x: usize| self._slru.probation().order().contains(x) ==> !self._slru.protected().order().contains(x),
    {
        let s = self._hmap@;
        let po = self._slru.probation().order();
        let qo = self._slru.protected().order();
        let o = po.add(qo);
        lemma_disjoint(self._slru.probation(), self._slru.protected(), s);
        assert forall|i: int| 0 <= i < po.len() implies po[i] < s.len() && s[po[i] as int] is Some by {
            assert(link_ok(s, po, i, self._slru.probation().cid()));
        }
        assert forall|i: int| 0 <= i < qo.len() implies qo[i] < s.len() && s[qo[i] as int] is Some by {
            assert(link_ok(s, qo, i, self._slru.protected().cid()));
        }
        assert forall|i: int| 0 <= i < o.len() implies o[i] < s.len() && s[o[i] as int] is Some by {
            if i >= po.len() {
                assert(o[i] == qo[i - po.len()]);
            }
        }
        assert forall|a: int, b: int| 0 <= a < o.len() && 0 <= b < o.len() && a != b implies o[a] != o[b] by {
            if a < po.len() && b >= po.len() {
                assert(qo.contains(o[b]));
                assert(po.contains(o[a]));
            } else if a >= po.len() && b < po.len() {
                assert(qo.contains(o[a]));
                assert(po.contains(o[b]));
            }
        }
        assert forall|k: int| 0 <= k < s.len() implies (s[k] is Some <==> o.contains(k as usize)) by {
            if s[k] is Some {
                if po.contains(k as usize) {
                    let i = choose|i: int| 0 <= i < po.len() && po[i] == k as usize;
                    assert(o[i] == k as usize);
                } else {
                    let i = choose|i: int| 0 <= i < qo.len() && qo[i] == k as usize;
                    assert(o[po.len() + i] == k as usize);
                }
            }
            if o.contains(k as usize) {
                let i = choose|i: int| 0 <= i < o.len() && o[i] == k as usize;
            }
        }
        lemma_count_of_order(s, o);
        lemma_entries_of(s, o);
        let ov = entries_of(s, o);
        let pv = self.probation_view();
        let qv = self.protected_view();
        assert(ov =~= pv.add(qv));
        assert forall|a: int, b: int| 0 <= a < pv.len() && 0 <= b < pv.len() && a != b implies pv[a].0 != pv[b].0 by {
            assert(ov[a] == pv[a] && ov[b] == pv[b]);
        }
        assert forall|a: int, b: int| 0 <= a < qv.len() && 0 <= b < qv.len() && a != b implies qv[a].0 != qv[b].0 by {
            assert(ov[pv.len() + a] == qv[a] && ov[pv.len() + b] == qv[b]);
        }
        assert forall|key: u64| !(listed(pv, key) && listed(qv, key)) by {
            if listed(pv, key) && listed(qv, key) {
                let a = choose|a: int| 0 <= a < pv.len() && pv[a].0 == key;
                let b = choose|b: int| 0 <= b < qv.len() && qv[b].0 == key;
                assert(ov[a] == pv[a] && ov[pv.len() + b] == qv[b]);
            }
        }
        assert forall|key: u64| has_key(s, key) <==> (listed(pv, key) || listed(qv, key)) by {
            if has_key(s, key) {
                let k = choose|k: int| holds_key(s, k, key);
                let i = choose|i: int| 0 <= i < o.len() && o[i] == k as usize;
                assert(holds_key(s, o[i] as int, key));
                assert(listed(ov, key));
                let j = choose|j: int| 0 <= j < ov.len() && ov[j].0 == key;
                if j < pv.len() {
                    assert(pv[j].0 == key);
                } else {
                    assert(qv[j - pv.len()].0 == key);
                }
            }
            if listed(pv, key) || listed(qv, key) {
                if listed(pv, key) {
                    let j = choose|j: int| 0 <= j < pv.len() && pv[j].0 == key;
                    assert(ov[j].0 == key);
                } else {
                    let j = choose|j: int| 0 <= j < qv.len() && qv[j].0 == key;
                    assert(ov[pv.len() + j].0 == key);
                }
                assert(listed(ov, key));
                let i = choose|i: int| 0 <= i < o.len() && holds_key(s, o[i] as int, key);
                assert(holds_key(s, o[i] as int, key));
            }
        }
    }

    /// The invariant again after an operation that emptied no slot but
    /// `gone` and filled none but `idx`, and kept in the chains every slot
    /// that it did not empty.
    proof fn lemma_reestablish(&self, s0: Seq<Option<Entry<V>>>, po0: Seq<usize>, qo0: Seq<usize>, idx: int)
        requires
            self._hmap.wf(),
            self._slru.wf(self._hmap@),
            self._hmap@.len() > self._slru.probation().cap() + self._slru.protected().cap(),
            self._hmap@.len() == s0.len(),
            forall|k: int|
                0 <= k < s0.len() && s0[k] is Some ==> po0.contains(k as usize) || qo0.contains(k as usize),
            forall|k: int| 0 <= k < s0.len() && self._hmap@[k] is Some ==> s0[k] is Some || k == idx,
            forall|y: usize|
                (po0.contains(y) || qo0.contains(y)) && y < s0.len() && self._hmap@[y as int] is Some
                    ==> self._slru.probation().order().contains(y) || self._slru.protected().order().contains(y),
            0 <= idx < s0.len() && self._hmap@[idx] is Some ==> self._slru.probation().order().contains(
                idx as usize,
            ) || self._slru.protected().order().contains(idx as usize),
        ensures
            self.wf(),
    {
        assert forall|k: int| 0 <= k < self._hmap@.len() && self._hmap@[k] is Some implies self._slru.probation().order().contains(
            k as usize,
        ) || self._slru.protected().order().contains(k as usize) by {
            if k != idx {
                assert(s0[k] is Some);
                assert(po0.contains(k as usize) || qo0.contains(k as usize));
                assert(self._hmap@[(k as usize) as int] is Some);
            }
        }
    }

    /// A segmented LRU of `probation_entries + protected_entries` pairs
    /// over a store of `1 + probation_entries + protected_entries +
    /// extra_hashmap_capacity` slots.
    pub fn new(
        probation_entries: usize,
        protected_entries: usize,
        extra_hashmap_capacity: usize,
        hash_builder: u64,
    ) -> (r: SLRU<V>)
        requires
            1 + probation_entries + protected_entries + extra_hashmap_capacity <= usize::MAX,
        ensures
            r.wf(),
            r.probation_view() == Seq::<(u64, V)>::empty(),
            r.protected_view() == Seq::<(u64, V)>::empty(),
            r.probation_cap() == probation_entries,
            r.protected_cap() == protected_entries,
            r.store_view().len() == 1 + probation_entries + protected_entries + extra_hashmap_capacity,
            forall|k: int| 0 <= k < r.store_view().len() ==> r.store_view()[k] is None,
    {
        let hmap = SimpleHmap::with_capacity_and_hasher(
            1 + probation_entries + protected_entries + extra_hashmap_capacity,
            hash_builder,
        );
        let slru = SLRUShared::new(
            (probation_entries, SLRU_PROBATION_CID),
            (protected_entries, SLRU_PROTECTED_CID),
            ScanFn::Nothing,
        );
        let r = SLRU { _hmap: hmap, _slru: slru };
        proof {
            assert(r.probation_view() =~= Seq::<(u64, V)>::empty());
            assert(r.protected_view() =~= Seq::<(u64, V)>::empty());
        }
        r
    }

    pub fn insert(&mut self, key: u64, val: V) -> (r: InsertResult<(u64, V)>)
        requires
            old(self).wf(),
        ensures
            final(self).wf(),
            final(self).probation_cap() == old(self).probation_cap(),
            final(self).protected_cap() == old(self).protected_cap(),
            (final(self).probation_view(), final(self).protected_view(), r) == slru_insert(
                old(self).probation_view(),
                old(self).protected_view(),
                old(self).probation_cap(),
                old(self).protected_cap(),
                key,
                val,
            ),
    {
        let ghost s0 = self._hmap@;
        let ghost po = self._slru.probation().order();
        let ghost qo = self._slru.protected().order();
        let ghost pv = self.probation_view();
        let ghost qv = self.protected_view();
        let ghost pc = self._slru.probation().cid();
        let ghost qc = self._slru.protected().cid();
        proof {
            self.lemma_wf();
            crate::hashmap::lemma_live_count_bound(s0);
        }
        let e = Entry::new_entry(None, None, key, val, 0);
        let (clash, idx) = self._hmap.insert(e);
        let ghost s1 = self._hmap@;
        proof {
            assert(pair_at(s1, idx as int) == (key, val));
        }
        let res = match &clash {
            None => {
                proof {
                    assert(!has_key(s0, key));
                    assert(!po.contains(idx)) by {
                        if po.contains(idx) {
                            let i = choose|i: int| 0 <= i < po.len() && po[i] == idx;
                            assert(link_ok(s0, po, i, pc));
                        }
                    }
                    assert(!qo.contains(idx)) by {
                        if qo.contains(idx) {
                            let i = choose|i: int| 0 <= i < qo.len() && qo[i] == idx;
                            assert(link_ok(s0, qo, i, qc));
                        }
                    }
                    lemma_chain_without(self._slru.probation(), s0, s1, idx as int);
                    lemma_chain_without(self._slru.protected(), s0, s1, idx as int);
                }
                let r = self._slru.insert_shared(&mut self._hmap, None, idx);
                proof {
                    lemma_entries_ops(s1, po, idx, self._slru.probation().cap());
                    assert forall|i: int| 0 <= i < po.len() implies pair_at(s1, #[trigger] po[i] as int)
                        == pair_at(s0, po[i] as int) by {
                        assert(po[i] != idx);
                        assert(link_ok(s0, po, i, pc));
                    }
                    assert forall|i: int| 0 <= i < qo.len() implies pair_at(s1, #[trigger] qo[i] as int)
                        == pair_at(s0, qo[i] as int) by {
                        assert(qo[i] != idx);
                        assert(link_ok(s0, qo, i, qc));
                    }
                    lemma_entries_same(s0, s1, po);
                    lemma_entries_same(s0, s1, qo);
                    lemma_push_fresh(po, self._slru.probation().cap(), idx);
                }
                r
            },
            Some(c) => {
                proof {
                    assert(has_key(s0, key));
                    assert(holds_key(s0, idx as int, key));
                    assert(s0[idx as int] == Some(*c));
                    assert(po.contains(idx) || qo.contains(idx));
                    let rs = restored(s1, idx as int, *c);
                    assert forall|i: int| 0 <= i < po.len() implies same_links(s0, rs, #[trigger] po[i] as int) by {
                        assert(link_ok(s0, po, i, pc));
                    }
                    assert forall|i: int| 0 <= i < qo.len() implies same_links(s0, rs, #[trigger] qo[i] as int) by {
                        assert(link_ok(s0, qo, i, qc));
                    }
                    lemma_chain_frame(s0, rs, po, pc);
                    lemma_chain_frame(s0, rs, qo, qc);
                    if po.contains(idx) {
                        let i = choose|i: int| 0 <= i < po.len() && po[i] == idx;
                        assert(link_ok(s0, po, i, pc));
                    } else {
                        let i = choose|i: int| 0 <= i < qo.len() && qo[i] == idx;
                        assert(link_ok(s0, qo, i, qc));
                    }
                }
                let r = self._slru.insert_shared(&mut self._hmap, Some(c), idx);
                proof {
                    if po.contains(idx) {
                        let pp = pos_of(po, idx);
                        assert(po[pp] == idx);
                        assert(pv[pp].0 == key);
                        lemma_key_index(pv, pp);
                        let po1 = po.remove(pp);
                        lemma_entries_ops(s0, po, idx, 0);
                        lemma_entries_ops(s1, qo, idx, self._slru.protected().cap());
                        assert forall|i: int| 0 <= i < qo.len() implies pair_at(s1, #[trigger] qo[i] as int)
                            == pair_at(s0, qo[i] as int) by {
                            assert(link_ok(s0, qo, i, qc));
                            assert(qo.contains(qo[i]));
                        }
                        lemma_entries_same(s0, s1, qo);
                        assert(!po1.contains(idx)) by {
                            if po1.contains(idx) {
                                let j = choose|j: int| 0 <= j < po1.len() && po1[j] == idx;
                                let j1 = if j < pp { j } else { j + 1 };
                                assert(po[j1] == idx);
                            }
                        }
                        assert forall|i: int| 0 <= i < po1.len() implies pair_at(s1, #[trigger] po1[i] as int)
                            == pair_at(s0, po1[i] as int) by {
                            let j1 = if i < pp { i } else { i + 1 };
                            assert(po1[i] == po[j1]);
                            assert(link_ok(s0, po, j1, pc));
                            assert(po1[i] != idx);
                        }
                        lemma_entries_same(s0, s1, po1);
                        lemma_push_fresh(qo, self._slru.protected().cap(), idx);
                        match push_fresh(qo, self._slru.protected().cap(), idx).1 {
                            Some(t) => {
                                lemma_entries_ops(s1, po1, t, self._slru.probation().cap());
                                lemma_push_fresh(po1, self._slru.probation().cap(), t);
                            },
                            None => {},
                        }
                    } else {
                        let qp = pos_of(qo, idx);
                        assert(qo[qp] == idx);
                        assert(qv[qp].0 == key);
                        lemma_key_index(qv, qp);
                        let qo1 = qo.remove(qp);
                        lemma_entries_ops(s0, qo, idx, 0);
                        lemma_entries_ops(s1, qo1, idx, 0);
                        assert forall|i: int| 0 <= i < po.len() implies pair_at(s1, #[trigger] po[i] as int)
                            == pair_at(s0, po[i] as int) by {
                            assert(link_ok(s0, po, i, pc));
                            assert(po.contains(po[i]));
                        }
                        lemma_entries_same(s0, s1, po);
                        assert forall|i: int| 0 <= i < qo1.len() implies pair_at(s1, #[trigger] qo1[i] as int)
                            == pair_at(s0, qo1[i] as int) by {
                            let j1 = if i < qp { i } else { i + 1 };
                            assert(qo1[i] == qo[j1]);
                            assert(link_ok(s0, qo, j1, qc));
                            assert(qo.no_duplicates());
                            assert(qo[j1] != idx);
                        }
                        lemma_entries_same(s0, s1, qo1);
                    }
                }
                r
            },
        };
        let ghost s2 = self._hmap@;
        let ghost po2 = self._slru.probation().order();
        let ghost qo2 = self._slru.protected().order();
        proof {
            let cc = match &clash {
                None => None,
                Some(c) => Some(c.cache_id),
            };
            let sk = match &clash {
                None => false,
                Some(c) => c.key == s1[idx as int]->Some_0.key,
            };
            if clash is Some {
                if po.contains(idx) {
                    let i = choose|i: int| 0 <= i < po.len() && po[i] == idx;
                    assert(link_ok(s0, po, i, pc));
                } else {
                    let i = choose|i: int| 0 <= i < qo.len() && qo[i] == idx;
                    assert(link_ok(s0, qo, i, qc));
                }
            }
            lemma_slru_orders_keep(po, qo, self._slru.probation().cap(), self._slru.protected().cap(), pc, idx, cc, sk);
            assert forall|i: int| 0 <= i < po2.len() implies pair_at(s2, #[trigger] po2[i] as int) == pair_at(s1, po2[i] as int) by {
                assert(link_ok(s2, po2, i, pc));
            }
            assert forall|i: int| 0 <= i < qo2.len() implies pair_at(s2, #[trigger] qo2[i] as int) == pair_at(s1, qo2[i] as int) by {
                assert(link_ok(s2, qo2, i, qc));
            }
            lemma_entries_same(s1, s2, po2);
            lemma_entries_same(s1, s2, qo2);
        }
        match res {
            InsertResultShared::OldTailPtr { evicted } => {
                let removed = self._hmap.remove_idx(evicted);
                proof {
                    lemma_chain_without(self._slru.probation(), s2, self._hmap@, evicted as int);
                    lemma_chain_without(self._slru.protected(), s2, self._hmap@, evicted as int);
                    assert forall|i: int| 0 <= i < po2.len() implies pair_at(self._hmap@, #[trigger] po2[i] as int)
                        == pair_at(s2, po2[i] as int) by {
                        assert(po2[i] != evicted);
                        assert(link_ok(s2, po2, i, pc));
                    }
                    assert forall|i: int| 0 <= i < qo2.len() implies pair_at(self._hmap@, #[trigger] qo2[i] as int)
                        == pair_at(s2, qo2[i] as int) by {
                        assert(qo2[i] != evicted);
                        assert(link_ok(s2, qo2, i, qc));
                    }
                    lemma_entries_same(s2, self._hmap@, po2);
                    lemma_entries_same(s2, self._hmap@, qo2);
                    assert(pair_at(s2, evicted as int) == pair_at(s1, evicted as int));
                    self.lemma_reestablish(s0, po, qo, idx as int);
                }
                match removed {
                    Some(x) => match clash {
                        None => InsertResult::OldTail { clash: None, evicted: x.deconstruct() },
                        Some(c) => InsertResult::OldTail { clash: Some(c.deconstruct()), evicted: x.deconstruct() },
                    },
                    None => {
                        proof {
                            assert(false);
                        }
                        InsertResult::Success
                    },
                }
            },
            _ => {
                proof {
                    self.lemma_reestablish(s0, po, qo, idx as int);
                }
                match clash {
                    None => InsertResult::Success,
                    Some(c) => InsertResult::OldEntry { clash: Some(c.deconstruct()), evicted: None },
                }
            },
        }
    }

    proof fn lemma_find(&self, key: u64, found: Option<usize>)
        requires
            self.wf(),
            match found {
                Some(i) => holds_key(self._hmap@, i as int, key),
                None => !has_key(self._hmap@, key),
            },
        ensures
            match found {
                Some(i) => (listed(self.probation_view(), key) && self._slru.probation().order().contains(i)
                    && self._slru.probation().order()[key_index(self.probation_view(), key)] == i
                    && !listed(self.protected_view(), key)) || (listed(self.protected_view(), key)
                    && self._slru.protected().order().contains(i) && self._slru.protected().order()[key_index(
                    self.protected_view(),
                    key,
                )] == i && !listed(self.probation_view(), key)),
                None => !listed(self.probation_view(), key) && !listed(self.protected_view(), key),
            },
    {
        self.lemma_wf();
        if let Some(i) = found {
            let po = self._slru.probation().order();
            let qo = self._slru.protected().order();
            if po.contains(i) {
                let p = choose|p: int| 0 <= p < po.len() && po[p] == i;
                assert(self.probation_view()[p].0 == key);
                lemma_key_index(self.probation_view(), p);
            } else {
                let p = choose|p: int| 0 <= p < qo.len() && qo[p] == i;
                assert(self.protected_view()[p].0 == key);
                lemma_key_index(self.protected_view(), p);
            }
        }
    }

    /// The views and the invariant survive an operation that changed no
    /// key, value or occupancy, and left both chains in place.
    proof fn lemma_unchanged(&self, s0: Seq<Option<Entry<V>>>, po: Seq<usize>, qo: Seq<usize>)
        requires
            self._hmap.wf(),
            self._slru.wf(self._hmap@),
            self._slru.probation().order() == po,
            self._slru.protected().order() == qo,
            self._hmap@.len() == s0.len(),
            self._hmap@.len() > self._slru.probation().cap() + self._slru.protected().cap(),
            forall|k: int| 0 <= k < s0.len() ==> (#[trigger] self._hmap@[k] is Some <==> s0[k] is Some),
            forall|k: int|
                0 <= k < s0.len() && s0[k] is Some ==> #[trigger] pair_at(self._hmap@, k) == pair_at(s0, k),
            forall|k: int| 0 <= k < s0.len() && s0[k] is Some ==> po.contains(k as usize) || qo.contains(k as usize),
        ensures
            self.wf(),
            self.probation_view() == entries_of(s0, po),
            self.protected_view() == entries_of(s0, qo),
    {
        let s = self._hmap@;
        assert forall|i: int| 0 <= i < po.len() implies pair_at(s, #[trigger] po[i] as int) == pair_at(s0, po[i] as int) by {
            assert(link_ok(s, po, i, self._slru.probation().cid()));
        }
        assert forall|i: int| 0 <= i < qo.len() implies pair_at(s, #[trigger] qo[i] as int) == pair_at(s0, qo[i] as int) by {
            assert(link_ok(s, qo, i, self._slru.protected().cid()));
        }
        lemma_entries_same(s0, s, po);
        lemma_entries_same(s0, s, qo);
    }

    pub fn contains_key(&self, key: u64) -> (r: bool)
        requires
            self.wf(),
        ensures
            r == (listed(self.probation_view(), key) || listed(self.protected_view(), key)),
    {
        let found = self._hmap.get_full(key);
        let r = found.is_some();
        proof {
            self.lemma_find(key, match found { Some((i, _)) => Some(i), None => None });
        }
        r
    }

    /// The value of `key`, if cached. Neither segment changes: a read does
    /// not promote.
    pub fn get(&mut self, key: u64) -> (r: Option<&V>)
        requires
            old(self).wf(),
        ensures
            final(self).wf(),
            final(self).probation_view() == old(self).probation_view(),
            final(self).protected_view() == old(self).protected_view(),
            final(self).probation_cap() == old(self).probation_cap(),
            final(self).protected_cap() == old(self).protected_cap(),
            match r {
                Some(v) => lookup2(old(self).probation_view(), old(self).protected_view(), key) == Some(*v),
                None => lookup2(old(self).probation_view(), old(self).protected_view(), key) is None,
            },
    {
        let idx = match self._hmap.get_full(key) {
            None => {
                proof {
                    self.lemma_find(key, None);
                }
                return None;
            },
            Some((i, _)) => i,
        };
        proof {
            self.lemma_find(key, Some(idx));
            self.lemma_wf();
            if listed(self.probation_view(), key) {
                let p = choose|p: int| 0 <= p < self.probation_view().len() && self.probation_view()[p].0 == key;
                lemma_key_index(self.probation_view(), key_index(self.probation_view(), key));
            } else {
                let p = choose|p: int| 0 <= p < self.protected_view().len() && self.protected_view()[p].0 == key;
                lemma_key_index(self.protected_view(), key_index(self.protected_view(), key));
            }
        }
        let ghost s0 = self._hmap@;
        let ghost po = self._slru.probation().order();
        let ghost qo = self._slru.protected().order();
        self._slru.on_get(&mut self._hmap, idx);
        proof {
            assert(frame2(s0, self._hmap@, self._slru.probation().cid(), self._slru.protected().cid(), -1));
            self.lemma_unchanged(s0, po, qo);
        }
        match self._hmap.get_index(idx) {
            Some(e) => Some(&e.val),
            None => None,
        }
    }

    /// The value of `key`, if cached, to change in place. As with `get`,
    /// neither segment changes.
    pub fn get_mut(&mut self, key: u64) -> (r: Option<&mut V>)
        requires
            old(self).wf(),
        ensures
            final(self).wf(),
            final(self).probation_cap() == old(self).probation_cap(),
            final(self).protected_cap() == old(self).protected_cap(),
            match r {
                Some(v) => lookup2(old(self).probation_view(), old(self).protected_view(), key) == Some(*v) && if listed(
                    old(self).probation_view(),
                    key,
                ) {
                    final(self).probation_view() == old(self).probation_view().update(
                        key_index(old(self).probation_view(), key),
                        (key, *final(v)),
                    ) && final(self).protected_view() == old(self).protected_view()
                } else {
                    final(self).protected_view() == old(self).protected_view().update(
                        key_index(old(self).protected_view(), key),
                        (key, *final(v)),
                    ) && final(self).probation_view() == old(self).probation_view()
                },
                None => lookup2(old(self).probation_view(), old(self).protected_view(), key) is None
                    && final(self).probation_view() == old(self).probation_view()
                    && final(self).protected_view() == old(self).protected_view(),
            },
    {
        let idx = match self._hmap.get_full(key) {
            None => {
                proof {
                    self.lemma_find(key, None);
                }
                return None;
            },
            Some((i, _)) => i,
        };
        proof {
            self.lemma_find(key, Some(idx));
            self.lemma_wf();
            if listed(self.probation_view(), key) {
                let p = choose|p: int| 0 <= p < self.probation_view().len() && self.probation_view()[p].0 == key;
                lemma_key_index(self.probation_view(), key_index(self.probation_view(), key));
            } else {
                let p = choose|p: int| 0 <= p < self.protected_view().len() && self.protected_view()[p].0 == key;
                lemma_key_index(self.protected_view(), key_index(self.protected_view(), key));
            }
        }
        let ghost s0 = self._hmap@;
        let ghost po = self._slru.probation().order();
        let ghost qo = self._slru.protected().order();
        let ghost pv = self.probation_view();
        let ghost qv = self.protected_view();
        let ghost pc = self._slru.probation().cid();
        let ghost qc = self._slru.protected().cid();
        self._slru.on_get(&mut self._hmap, idx);
        let ghost s1 = self._hmap@;
        proof {
            assert(frame2(s0, s1, pc, qc, -1));
            self.lemma_unchanged(s0, po, qo);
        }
        let r = self._hmap.val_mut(idx);
        proof {
            let x = *final(r);
            let e = s1[idx as int]->Some_0;
            let s2 = s1.update(idx as int, Some(Entry { val: x, ..e }));
            crate::hashmap::lemma_live_count_update(s1, idx as int, Some(Entry { val: x, ..e }));
            assert forall|a: int, b: int|
                0 <= a < s2.len() && 0 <= b < s2.len() && s2[a] is Some && s2[b] is Some
                    && s2[a]->Some_0.key == s2[b]->Some_0.key implies a == b by {
                assert(s1[a] is Some && s1[b] is Some);
            }
            assert forall|i: int| 0 <= i < po.len() implies same_links(s1, s2, #[trigger] po[i] as int) by {
                assert(link_ok(s1, po, i, pc));
            }
            assert forall|i: int| 0 <= i < qo.len() implies same_links(s1, s2, #[trigger] qo[i] as int) by {
                assert(link_ok(s1, qo, i, qc));
            }
            lemma_chain_frame(s1, s2, po, pc);
            lemma_chain_frame(s1, s2, qo, qc);
            if listed(pv, key) {
                let p = key_index(pv, key);
                assert(entries_of(s2, po) =~= pv.update(p, (key, x))) by {
                    assert forall|i: int| 0 <= i < po.len() implies entries_of(s2, po)[i] == pv.update(p, (key, x))[i] by {
                        assert(link_ok(s1, po, i, pc));
                        if i != p {
                            assert(po[i] != idx);
                        }
                    }
                }
                assert(entries_of(s2, qo) =~= qv) by {
                    assert forall|i: int| 0 <= i < qo.len() implies entries_of(s2, qo)[i] == qv[i] by {
                        assert(link_ok(s1, qo, i, qc));
                        assert(qo[i] != idx);
                    }
                }
            } else {
                let p = key_index(qv, key);
                assert(entries_of(s2, qo) =~= qv.update(p, (key, x))) by {
                    assert forall|i: int| 0 <= i < qo.len() implies entries_of(s2, qo)[i] == qv.update(p, (key, x))[i] by {
                        assert(link_ok(s1, qo, i, qc));
                        if i != p {
                            assert(qo[i] != idx);
                        }
                    }
                }
                assert(entries_of(s2, po) =~= pv) by {
                    assert forall|i: int| 0 <= i < po.len() implies entries_of(s2, po)[i] == pv[i] by {
                        assert(link_ok(s1, po, i, pc));
                        assert(po[i] != idx);
                    }
                }
            }
        }
        Some(r)
    }

    /// Take `key` out of whichever segment holds it and return its value.
    pub fn remove(&mut self, key: u64) -> (r: Option<V>)
        requires
            old(self).wf(),
        ensures
            final(self).wf(),
            final(self).probation_cap() == old(self).probation_cap(),
            final(self).protected_cap() == old(self).protected_cap(),
            final(self).probation_view() == remove_key(old(self).probation_view(), key).0,
            final(self).protected_view() == remove_key(old(self).protected_view(), key).0,
            r == (if listed(old(self).probation_view(), key) {
                remove_key(old(self).probation_view(), key).1
            } else {
                remove_key(old(self).protected_view(), key).1
            }),
    {
        let idx = match self._hmap.get_full(key) {
            None => {
                proof {
                    self.lemma_find(key, None);
                }
                return None;
            },
            Some((i, _)) => i,
        };
        proof {
            self.lemma_find(key, Some(idx));
            self.lemma_wf();
        }
        let ghost s0 = self._hmap@;
        let ghost po = self._slru.probation().order();
        let ghost qo = self._slru.protected().order();
        let ghost pv = self.probation_view();
        let ghost qv = self.protected_view();
        self._slru.remove_shared(&mut self._hmap, idx);
        let ghost s1 = self._hmap@;
        let ghost po1 = self._slru.probation().order();
        let ghost qo1 = self._slru.protected().order();
        let removed = self._hmap.remove_idx(idx);
        proof {
            let s2 = self._hmap@;
            assert(frame2(s0, s1, self._slru.probation().cid(), self._slru.protected().cid(), -1));
            assert(!po1.contains(idx)) by {
                if po.contains(idx) {
                    let p = pos_of(po, idx);
                    assert(po[p] == idx);
                    assert(po.no_duplicates());
                    if po1.contains(idx) {
                        let j = choose|j: int| 0 <= j < po1.len() && po1[j] == idx;
                        let j1 = if j < p { j } else { j + 1 };
                        assert(po[j1] == idx);
                    }
                }
            }
            assert(!qo1.contains(idx)) by {
                if qo.contains(idx) {
                    let p = pos_of(qo, idx);
                    assert(qo[p] == idx);
                    assert(qo.no_duplicates());
                    if qo1.contains(idx) {
                        let j = choose|j: int| 0 <= j < qo1.len() && qo1[j] == idx;
                        let j1 = if j < p { j } else { j + 1 };
                        assert(qo[j1] == idx);
                    }
                }
            }
            lemma_chain_without(self._slru.probation(), s1, s2, idx as int);
            lemma_chain_without(self._slru.protected(), s1, s2, idx as int);
            lemma_entries_ops(s0, po, idx, 0);
            lemma_entries_ops(s0, qo, idx, 0);
            assert forall|i: int| 0 <= i < po1.len() implies pair_at(s2, #[trigger] po1[i] as int) == pair_at(s0, po1[i] as int) by {
                assert(link_ok(s2, po1, i, self._slru.probation().cid()));
            }
            assert forall|i: int| 0 <= i < qo1.len() implies pair_at(s2, #[trigger] qo1[i] as int) == pair_at(s0, qo1[i] as int) by {
                assert(link_ok(s2, qo1, i, self._slru.protected().cid()));
            }
            lemma_entries_same(s0, s2, po1);
            lemma_entries_same(s0, s2, qo1);
            if po.contains(idx) {
                lemma_remove_keeps(po, pos_of(po, idx));
                assert(pos_of(po, idx) == key_index(pv, key));
            } else {
                lemma_remove_keeps(qo, pos_of(qo, idx));
                assert(pos_of(qo, idx) == key_index(qv, key));
            }
            self.lemma_reestablish(s0, po, qo, -1);
        }
        match removed {
            Some(e) => {
                let (_, v) = e.deconstruct();
                Some(v)
            },
            None => None,
        }
    }

    /// Empty both segments. Their capacities stay.
    pub fn clear(&mut self)
        requires
            old(self).wf(),
        ensures
            final(self).wf(),
            final(self).probation_view() == Seq::<(u64, V)>::empty(),
            final(self).protected_view() == Seq::<(u64, V)>::empty(),
            final(self).probation_cap() == old(self).probation_cap(),
            final(self).protected_cap() == old(self).protected_cap(),
    {
        self._hmap.clear();
        self._slru.clear_shared();
        proof {
            assert(self.probation_view() =~= Seq::<(u64, V)>::empty());
            assert(self.protected_view() =~= Seq::<(u64, V)>::empty());
        }
    }

    pub fn len(&self) -> (r: usize)
        requires
            self.wf(),
        ensures
            r == self.probation_view().len() + self.protected_view().len(),
    {
        proof {
            self.lemma_wf();
            crate::hashmap::lemma_live_count_bound(self._hmap@);
        }
        self._hmap.len()
    }

    pub fn capacity(&self) -> (r: usize)
        requires
            self.wf(),
        ensures
            r == self.probation_cap() + self.protected_cap(),
    {
        self._slru.capacity()
    }
}

} // verus!
