//! Scan-Window-TinyLFU over a shared store: a small window LRU in front of
//! a segmented LRU, with per-entry frequency counters that a lazy scan
//! halves once per generation.
use vstd::prelude::*;
use crate::entry::{Entry, Full, Generation};
use crate::hashmap::SimpleHmap;
use crate::lru::{LRUShared, frame, restored, link_ok, same_links, lemma_chain_frame, step_in};
use crate::model::push_fresh;
use crate::results::InsertResultShared;
use crate::scan::ScanFn;
use crate::slru::{
    SLRUShared, frame2, slru_orders, pos_of, lemma_frame_widen, lemma_other_chain,
    lemma_disjoint, lemma_chain_without, lemma_slru_orders_evicted,
};

verus! {

/// Relies on `rand::random`: a value drawn from the thread's generator.
/// Nothing is known of it.
#[verifier::external_body]
fn random_usize() -> (r: usize) {
    rand::random::<usize>()
}

/// Slot `k` is occupied in `s`.
pub open spec fn live<V>(s: Seq<Option<Entry<V>>>, k: usize) -> bool {
    k < s.len() && s[k as int] is Some
}

pub open spec fn counter_at<V>(s: Seq<Option<Entry<V>>>, k: usize) -> u32 {
    s[k as int]->Some_0.freq.counter
}

/// One step of the victim search: keep `x` where it is occupied and its
/// counter is below the best so far, `m`.
pub open spec fn better<V>(s: Seq<Option<Entry<V>>>, x: usize, t: usize, m: int) -> (usize, int) {
    if live(s, x) && (counter_at(s, x) as int) < m {
        (x, counter_at(s, x) as int)
    } else {
        (t, m)
    }
}

/// The sample with the lowest counter among those occupied, the earliest
/// on a tie; `a` where none is occupied.
pub open spec fn evict_choice<V>(s: Seq<Option<Entry<V>>>, a: usize, b: usize, c: usize) -> usize {
    let s1 = better(s, a, a, u32::MAX as int + 1);
    let s2 = better(s, b, s1.0, s1.1);
    better(s, c, s2.0, s2.1).0
}

/// One step back around a ring of `n` slots.
pub open spec fn ring_prev(t: usize, n: usize) -> usize {
    if t == 0 {
        (n - 1) as usize
    } else {
        (t - 1) as usize
    }
}

/// The three samples for the victim search around slot `idx`: `idx`
/// itself, and two slots below `n` derived from it by the salts, pairwise
/// distinct.
pub open spec fn det_idx_spec(idx: usize, r0: usize, r1: usize, n: usize) -> (usize, usize, usize) {
    let t0 = ((idx ^ r0) % n) as usize;
    let first = if t0 != idx {
        t0
    } else if t0 + 1 < n {
        (t0 + 1) as usize
    } else {
        0usize
    };
    let c1 = ((idx ^ r1) % n) as usize;
    let c2 = ring_prev(c1, n);
    let c3 = ring_prev(c2, n);
    let second = if c1 != idx && c1 != first {
        c1
    } else if c2 != idx && c2 != first {
        c2
    } else {
        c3
    };
    (idx, first, second)
}

/// The victim search keeps an occupied sample with the lowest counter,
/// where any sample is occupied.
pub proof fn lemma_evict_choice<V>(s: Seq<Option<Entry<V>>>, a: usize, b: usize, c: usize)
    ensures
        ({
            let r = evict_choice(s, a, b, c);
            &&& (r == a || r == b || r == c)
            &&& (live(s, a) || live(s, b) || live(s, c)) ==> live(s, r)
            &&& forall|x: usize|
                (x == a || x == b || x == c) && live(s, x) ==> counter_at(s, r) <= counter_at(s, x)
        }),
{
    let s1 = better(s, a, a, u32::MAX as int + 1);
    let s2 = better(s, b, s1.0, s1.1);
    let s3 = better(s, c, s2.0, s2.1);
    assert(live(s, s1.0) ==> s1.1 == counter_at(s, s1.0) as int);
    assert(live(s, s2.0) && s2.1 <= u32::MAX ==> s2.1 == counter_at(s, s2.0) as int);
    assert(live(s, a) ==> s1.1 <= counter_at(s, a));
    assert(live(s, a) ==> s2.1 <= counter_at(s, a));
    assert(live(s, b) ==> s2.1 <= counter_at(s, b));
    assert(s1.1 <= u32::MAX ==> live(s, s1.0));
    assert(s2.1 <= u32::MAX ==> live(s, s2.0) && s2.1 == counter_at(s, s2.0) as int);
    assert(s3.1 <= u32::MAX ==> live(s, s3.0) && s3.1 == counter_at(s, s3.0) as int);
}


/// Like `frame`, for an operation that may touch the slots of three caches.
pub open spec fn frame3<V>(
    s: Seq<Option<Entry<V>>>,
    s2: Seq<Option<Entry<V>>>,
    c1: u8,
    c2: u8,
    c3: u8,
    idx: int,
) -> bool {
    &&& s2.len() == s.len()
    &&& forall|k: int| 0 <= k < s.len() ==> (#[trigger] s2[k] is Some <==> s[k] is Some)
    &&& forall|k: int|
        0 <= k < s.len() && s[k] is Some ==> #[trigger] s2[k]->Some_0.key == s[k]->Some_0.key
    &&& forall|k: int|
        0 <= k < s.len() && s[k] is Some ==> #[trigger] s2[k]->Some_0.val == s[k]->Some_0.val
    &&& forall|k: int|
        0 <= k < s.len() && k != idx && s[k] is Some && s[k]->Some_0.cache_id != c1
            && s[k]->Some_0.cache_id != c2 && s[k]->Some_0.cache_id != c3 ==> #[trigger] s2[k] == s[k]
}

pub proof fn lemma_frame3_from2<V>(
    s: Seq<Option<Entry<V>>>,
    s2: Seq<Option<Entry<V>>>,
    w: u8,
    p: u8,
    q: u8,
    idx: int,
)
    requires
        frame2(s, s2, p, q, idx) || frame2(s, s2, w, w, idx),
    ensures
        frame3(s, s2, w, p, q, idx),
{
}

pub proof fn lemma_frame3_trans<V>(
    s1: Seq<Option<Entry<V>>>,
    s2: Seq<Option<Entry<V>>>,
    s3: Seq<Option<Entry<V>>>,
    w: u8,
    p: u8,
    q: u8,
    idx: int,
)
    requires
        frame3(s1, s2, w, p, q, idx),
        frame3(s2, s3, w, p, q, idx),
    ensures
        frame3(s1, s3, w, p, q, idx),
{
    assert forall|k: int| 0 <= k < s1.len() && s1[k] is Some implies #[trigger] s3[k]->Some_0.key
        == s1[k]->Some_0.key by {
        assert(s2[k] is Some);
        assert(s2[k]->Some_0.key == s1[k]->Some_0.key);
    }
    assert forall|k: int| 0 <= k < s1.len() && s1[k] is Some implies #[trigger] s3[k]->Some_0.val
        == s1[k]->Some_0.val by {
        assert(s2[k] is Some);
        assert(s2[k]->Some_0.val == s1[k]->Some_0.val);
    }
    assert forall|k: int|
        0 <= k < s1.len() && k != idx && s1[k] is Some && s1[k]->Some_0.cache_id != w
            && s1[k]->Some_0.cache_id != p && s1[k]->Some_0.cache_id != q implies #[trigger] s3[k] == s1[k] by {
        assert(s2[k] == s1[k]);
    }
}

/// Segment sizes for `entries` in all: one percent for the window, and of
/// the rest a fifth for probation and the remainder for protected, each at
/// least one.
pub open spec fn standard_split(entries: usize) -> (usize, usize, usize) {
    let window = if entries / 100 == 0 { 1usize } else { (entries / 100) as usize };
    let main = if entries > window { (entries - window) as usize } else { 0usize };
    if main / 5 == 0 {
        if main <= 2 {
            (window, 1usize, 1usize)
        } else {
            (window, 1usize, (main - 1) as usize)
        }
    } else {
        (window, (main / 5) as usize, (main - main / 5) as usize)
    }
}

/// The chains and the report of a S-W-TinyLFU insert of slot `idx`, given
/// the tag of the entry it displaced, if that entry was cached, whether it
/// had the same key, and, where the window overflows, whether its tail is
/// admitted to the main segments (`promote_tail`) or dropped. A key that
/// was not cached goes to the window, also where its slot displaced
/// another key of the main segments, which then leaves its segment.
pub open spec fn wtlfu_orders(
    wo: Seq<usize>,
    po: Seq<usize>,
    qo: Seq<usize>,
    wcap: nat,
    pcap: nat,
    qcap: nat,
    wcid: u8,
    pcid: u8,
    idx: usize,
    clash_cid: Option<u8>,
    same_key: bool,
    promote_tail: bool,
) -> (Seq<usize>, Seq<usize>, Seq<usize>, InsertResultShared) {
    match clash_cid {
        None => fresh_orders(wo, po, qo, wcap, pcap, qcap, pcid, idx, promote_tail),
        Some(c) => if c == wcid {
            let wo1 = wo.remove(pos_of(wo, idx));
            if same_key {
                let (po2, qo2, r) = slru_orders(po, qo, pcap, qcap, pcid, idx, None, false);
                (wo1, po2, qo2, r)
            } else {
                (seq![idx].add(wo1), po, qo, InsertResultShared::OldEntry)
            }
        } else if same_key {
            let (po2, qo2, r) = slru_orders(po, qo, pcap, qcap, pcid, idx, clash_cid, same_key);
            (wo, po2, qo2, r)
        } else if c == pcid {
            fresh_orders(wo, po.remove(pos_of(po, idx)), qo, wcap, pcap, qcap, pcid, idx, promote_tail)
        } else {
            fresh_orders(wo, po, qo.remove(pos_of(qo, idx)), wcap, pcap, qcap, pcid, idx, promote_tail)
        },
    }
}

/// A fresh key at slot `idx` goes to the head of the window. Where the
/// window overflows, its tail goes on to probation (`promote_tail`) or is
/// reported for eviction.
pub open spec fn fresh_orders(
    wo: Seq<usize>,
    po: Seq<usize>,
    qo: Seq<usize>,
    wcap: nat,
    pcap: nat,
    qcap: nat,
    pcid: u8,
    idx: usize,
    promote_tail: bool,
) -> (Seq<usize>, Seq<usize>, Seq<usize>, InsertResultShared) {
    let (wo2, out) = push_fresh(wo, wcap, idx);
    match out {
        None => (wo2, po, qo, InsertResultShared::Success),
        Some(t) => if promote_tail {
            let (po2, qo2, r) = slru_orders(po, qo, pcap, qcap, pcid, t, None, false);
            (wo2, po2, qo2, r)
        } else {
            (wo2, po, qo, InsertResultShared::OldTailPtr { evicted: t })
        },
    }
}

/// The tag of a displaced entry, if any.
pub open spec fn clash_tag<V>(c: Option<&Entry<V>>) -> Option<u8> {
    match c {
        None => None,
        Some(e) => Some(e.cache_id),
    }
}

/// Whether a displaced entry had the key now at slot `idx`.
pub open spec fn clash_same_key<V>(c: Option<&Entry<V>>, s: Seq<Option<Entry<V>>>, idx: int) -> bool {
    match c {
        None => false,
        Some(e) => e.key == s[idx]->Some_0.key,
    }
}

/// A slot reported for eviction is occupied and in none of the chains.
pub open spec fn evicted_ok<V>(
    s: Seq<Option<Entry<V>>>,
    wo: Seq<usize>,
    po: Seq<usize>,
    qo: Seq<usize>,
    r: InsertResultShared,
) -> bool {
    match r {
        InsertResultShared::OldTailPtr { evicted } => evicted < s.len() && s[evicted as int] is Some
            && !wo.contains(evicted) && !po.contains(evicted) && !qo.contains(evicted),
        _ => true,
    }
}

/// A fresh key lands in the window, whatever the admission decides: the
/// window has room for at least one entry, and its tail, not the new
/// entry, is what leaves it.
pub proof fn law_fresh_to_window(
    wo: Seq<usize>,
    po: Seq<usize>,
    qo: Seq<usize>,
    wcap: nat,
    pcap: nat,
    qcap: nat,
    wcid: u8,
    pcid: u8,
    idx: usize,
    promote_tail: bool,
)
    requires
        wcap >= 1,
        wo.len() <= wcap,
    ensures
        wtlfu_orders(wo, po, qo, wcap, pcap, qcap, wcid, pcid, idx, None, false, promote_tail).0[0] == idx,
        wtlfu_orders(wo, po, qo, wcap, pcap, qcap, wcid, pcid, idx, None, false, promote_tail).0.len() > 0,
{
}

/// Whether a full window's tail goes on to the main segments when `idx`
/// enters: it does unless the sample with the lowest counter around the
/// tail is in the window (or is the entering slot).
pub open spec fn window_tail_promoted<V>(
    s: Seq<Option<Entry<V>>>,
    wo: Seq<usize>,
    idx: usize,
    wcid: u8,
    salts: (usize, usize),
    n: nat,
) -> bool {
    let (a, b, c) = det_idx_spec(wo.last(), salts.0, salts.1, n as usize);
    let v = evict_choice(s, a, b, c);
    v != idx && !(live(s, v) && s[v as int]->Some_0.cache_id == wcid)
}

/// A change of counters alone leaves a chain sound.
pub proof fn lemma_freq_only<V>(l: LRUShared, s: Seq<Option<Entry<V>>>, s2: Seq<Option<Entry<V>>>)
    requires
        l.chain_wf(s),
        s2.len() == s.len(),
        forall|k: int| 0 <= k < s.len() && s[k] is Some ==> same_links(s, s2, k),
    ensures
        l.chain_wf(s2),
{
    let o = l.order();
    assert forall|i: int| 0 <= i < o.len() implies same_links(s, s2, #[trigger] o[i] as int) by {
        assert(link_ok(s, o, i, l.cid()));
    }
    lemma_chain_frame(s, s2, o, l.cid());
}

pub struct SWTLFUShared {
    _window: LRUShared,
    _slru: SLRUShared,
    _entries: usize,
    _random0: usize,
    _random1: usize,
    _generation: Generation,
    _inserts: usize,
    _cid_window: u8,
    _cid_probation: u8,
    _cid_protected: u8,
}

impl SWTLFUShared {
    pub closed spec fn window(&self) -> LRUShared {
        self._window
    }

    pub closed spec fn slru(&self) -> SLRUShared {
        self._slru
    }

    pub closed spec fn entries(&self) -> nat {
        self._entries as nat
    }

    pub closed spec fn salts(&self) -> (usize, usize) {
        (self._random0, self._random1)
    }

    /// The generation that counters are aged toward.
    pub closed spec fn generation(&self) -> Generation {
        self._generation
    }

    /// Inserts counted since the generation last flipped.
    pub closed spec fn inserts(&self) -> nat {
        self._inserts as nat
    }

    pub closed spec fn inner_ok(&self) -> bool {
        &&& self._entries == self._window.cap() + self._slru.probation().cap() + self._slru.protected().cap()
        &&& self._window.cap() >= 1
        &&& self._slru.probation().cap() >= 1
        &&& self._slru.protected().cap() >= 1
        &&& self._cid_window == self._window.cid()
        &&& self._cid_probation == self._slru.probation().cid()
        &&& self._cid_protected == self._slru.protected().cid()
        &&& self._window.scan_fn() == ScanFn::Halve(self._generation)
        &&& self._slru.probation().scan_fn() == ScanFn::Halve(self._generation)
        &&& self._slru.protected().scan_fn() == ScanFn::Halve(self._generation)
        &&& self._inserts < self._entries
    }

    pub open spec fn wcid(&self) -> u8 {
        self.window().cid()
    }

    pub open spec fn pcid(&self) -> u8 {
        self.slru().probation().cid()
    }

    pub open spec fn qcid(&self) -> u8 {
        self.slru().protected().cid()
    }

    pub open spec fn wf<V>(&self, s: Seq<Option<Entry<V>>>) -> bool {
        &&& self.inner_ok()
        &&& self.window().wf(s)
        &&& self.slru().wf(s)
        &&& self.wcid() != self.pcid()
        &&& self.wcid() != self.qcid()
    }

    /// A window, probation and protected segment of the given sizes and
    /// ids, each at least one slot, sampling with the given salts.
    pub fn new_with_salts(window: (usize, u8), probation: (usize, u8), protected: (usize, u8), salts: (usize, usize)) -> (r: SWTLFUShared)
        requires
            window.1 != 0,
            probation.1 != 0,
            protected.1 != 0,
            window.1 != probation.1,
            window.1 != protected.1,
            probation.1 != protected.1,
            window.0 + probation.0 + protected.0 + 3 <= usize::MAX,
        ensures
            r.inner_ok(),
            r.window().order() == Seq::<usize>::empty(),
            r.slru().probation().order() == Seq::<usize>::empty(),
            r.slru().protected().order() == Seq::<usize>::empty(),
            r.window().inner_ok(),
            r.slru().probation().inner_ok(),
            r.slru().protected().inner_ok(),
            r.wcid() == window.1,
            r.pcid() == probation.1,
            r.qcid() == protected.1,
            r.window().cap() == if window.0 == 0 { 1 } else { window.0 },
            r.slru().probation().cap() == if probation.0 == 0 { 1 } else { probation.0 },
            r.slru().protected().cap() == if protected.0 == 0 { 1 } else { protected.0 },
            r.salts() == salts,
            r.generation() == Generation::Day,
    {
        let w = if window.0 == 0 { 1 } else { window.0 };
        let p = if probation.0 == 0 { 1 } else { probation.0 };
        let q = if protected.0 == 0 { 1 } else { protected.0 };
        let f = ScanFn::Halve(Generation::Day);
        SWTLFUShared {
            _window: LRUShared::new(w, window.1, f),
            _slru: SLRUShared::new((p, probation.1), (q, protected.1), f),
            _entries: w + p + q,
            _random0: salts.0,
            _random1: salts.1,
            _generation: Generation::Day,
            _inserts: 0,
            _cid_window: window.1,
            _cid_probation: probation.1,
            _cid_protected: protected.1,
        }
    }

    /// As `new_with_salts`, with salts drawn at random.
    pub fn new(window: (usize, u8), probation: (usize, u8), protected: (usize, u8)) -> (r: SWTLFUShared)
        requires
            window.1 != 0,
            probation.1 != 0,
            protected.1 != 0,
            window.1 != probation.1,
            window.1 != protected.1,
            probation.1 != protected.1,
            window.0 + probation.0 + protected.0 + 3 <= usize::MAX,
        ensures
            r.inner_ok(),
            r.window().order() == Seq::<usize>::empty(),
            r.slru().probation().order() == Seq::<usize>::empty(),
            r.slru().protected().order() == Seq::<usize>::empty(),
            r.window().inner_ok(),
            r.slru().probation().inner_ok(),
            r.slru().protected().inner_ok(),
            r.wcid() == window.1,
            r.pcid() == probation.1,
            r.qcid() == protected.1,
            r.window().cap() == if window.0 == 0 { 1 } else { window.0 },
            r.slru().probation().cap() == if probation.0 == 0 { 1 } else { probation.0 },
            r.slru().protected().cap() == if protected.0 == 0 { 1 } else { protected.0 },
            r.generation() == Generation::Day,
    {
        let r0 = random_usize();
        let r1 = random_usize();
        Self::new_with_salts(window, probation, protected, (r0, r1))
    }

    /// `entries` in all, split one percent window, then a fifth of the
    /// rest probation and the remainder protected, each at least one.
    pub fn new_standard(window_cid: u8, probation_cid: u8, protected_cid: u8, entries: usize) -> (r: SWTLFUShared)
        requires
            window_cid != 0,
            probation_cid != 0,
            protected_cid != 0,
            window_cid != probation_cid,
            window_cid != protected_cid,
            probation_cid != protected_cid,
            entries + 6 <= usize::MAX,
        ensures
            r.inner_ok(),
            r.window().order() == Seq::<usize>::empty(),
            r.slru().probation().order() == Seq::<usize>::empty(),
            r.slru().protected().order() == Seq::<usize>::empty(),
            r.window().inner_ok(),
            r.slru().probation().inner_ok(),
            r.slru().protected().inner_ok(),
            r.wcid() == window_cid,
            r.pcid() == probation_cid,
            r.qcid() == protected_cid,
            (r.window().cap(), r.slru().probation().cap(), r.slru().protected().cap()) == ({
                let (w, p, q) = standard_split(entries);
                (w as nat, p as nat, q as nat)
            }),
    {
        let window_entries: usize = if entries / 100 == 0 { 1 } else { entries / 100 };
        let main_entries: usize = if entries > window_entries { entries - window_entries } else { 0 };
        let (probation_entries, protected_entries) = if main_entries / 5 == 0 {
            if main_entries <= 2 {
                (1, 1)
            } else {
                (1, main_entries - 1)
            }
        } else {
            (main_entries / 5, main_entries - main_entries / 5)
        };
        Self::new(
            (window_entries, window_cid),
            (probation_entries, probation_cid),
            (protected_entries, protected_cid),
        )
    }

    /// The ids of (window, probation, protected).
    pub fn get_cache_ids(&self) -> (r: (u8, u8, u8))
        requires
            self.inner_ok(),
        ensures
            r == (self.wcid(), self.pcid(), self.qcid()),
    {
        (self._cid_window, self._cid_probation, self._cid_protected)
    }

    /// The generation that counters are currently aged toward.
    pub fn get_generation(&self) -> (r: Generation)
        ensures
            r == self.generation(),
    {
        self._generation
    }

    /// Total number of entries over the three segments.
    pub fn capacity(&self) -> (r: usize)
        requires
            self.inner_ok(),
        ensures
            r == self.window().cap() + self.slru().probation().cap() + self.slru().protected().cap(),
            r == self.entries(),
    {
        self._entries
    }

    /// Entries held over the three segments.
    pub fn len(&self) -> (r: usize)
        requires
            self.inner_ok(),
            self.window().inner_ok(),
            self.slru().probation().inner_ok(),
            self.slru().protected().inner_ok(),
            self.window().order().len() <= self.window().cap(),
            self.slru().probation().order().len() <= self.slru().probation().cap(),
            self.slru().protected().order().len() <= self.slru().protected().cap(),
        ensures
            r == self.window().order().len() + self.slru().probation().order().len() + self.slru().protected().order().len(),
    {
        self._window.len() + self._slru.len()
    }

    /// The three samples for a victim search around slot `idx`.
    pub fn det_idx(&self, idx: usize) -> (r: (usize, usize, usize))
        requires
            self.inner_ok(),
        ensures
            r == det_idx_spec(idx, self.salts().0, self.salts().1, self.entries() as usize),
            r.0 != r.1 && r.0 != r.2 && r.1 != r.2,
            r.1 < self.entries() && r.2 < self.entries(),
    {
        let n = self._entries;
        let t0 = (idx ^ self._random0) % n;
        let first = if t0 != idx {
            t0
        } else if t0 + 1 < n {
            t0 + 1
        } else {
            0
        };
        let c1 = (idx ^ self._random1) % n;
        proof {
            let x0 = idx ^ self._random0;
            let x1 = idx ^ self._random1;
            assert(x0 % n < n) by (nonlinear_arith)
                requires
                    n >= 3,
            ;
            assert(x1 % n < n) by (nonlinear_arith)
                requires
                    n >= 3,
            ;
        }
        let c2 = if c1 == 0 { n - 1 } else { c1 - 1 };
        let c3 = if c2 == 0 { n - 1 } else { c2 - 1 };
        let second = if c1 != idx && c1 != first {
            c1
        } else if c2 != idx && c2 != first {
            c2
        } else {
            c3
        };
        (idx, first, second)
    }

    /// The slot to evict around slot `idx`: of the three samples, an
    /// occupied one with the lowest counter.
    pub fn choose_evict<V>(&self, hmap: &SimpleHmap<V>, idx: usize) -> (r: usize)
        requires
            self.inner_ok(),
        ensures
            ({
                let (a, b, c) = det_idx_spec(idx, self.salts().0, self.salts().1, self.entries() as usize);
                r == evict_choice(hmap@, a, b, c)
            }),
    {
        let (a, b, c) = self.det_idx(idx);
        let mut toevict = a;
        let mut minfreq: u64 = 0x1_0000_0000;
        match hmap.get_index(a) {
            Some(e) => {
                if (e.freq.counter as u64) < minfreq {
                    minfreq = e.freq.counter as u64;
                    toevict = a;
                }
            },
            None => {},
        }
        match hmap.get_index(b) {
            Some(e) => {
                if (e.freq.counter as u64) < minfreq {
                    minfreq = e.freq.counter as u64;
                    toevict = b;
                }
            },
            None => {},
        }
        match hmap.get_index(c) {
            Some(e) => {
                if (e.freq.counter as u64) < minfreq {
                    toevict = c;
                }
            },
            None => {},
        }
        toevict
    }

    /// Set the counter of occupied slot `idx` to `f` aged toward the
    /// current generation, then counted once.
    fn count_access<V>(&self, hmap: &mut SimpleHmap<V>, idx: usize, f: Full)
        requires
            self.wf(old(hmap)@),
            old(hmap).wf(),
            idx < old(hmap)@.len(),
            old(hmap)@[idx as int] is Some,
        ensures
            self.wf(final(hmap)@),
            final(hmap).wf(),
            final(hmap).seed() == old(hmap).seed(),
            frame3(old(hmap)@, final(hmap)@, self.wcid(), self.pcid(), self.qcid(), idx as int),
            final(hmap)@ == old(hmap)@.update(
                idx as int,
                Some(Entry { freq: f.aged(self.generation()).bumped(), ..old(hmap)@[idx as int]->Some_0 }),
            ),
    {
        let ghost s0 = hmap@;
        let mut g = f;
        g.age(self._generation);
        g.add();
        hmap.set_freq(idx, g);
        proof {
            assert forall|k: int| 0 <= k < s0.len() && s0[k] is Some implies same_links(s0, hmap@, k) by {
            }
            lemma_freq_only(self._window, s0, hmap@);
            lemma_freq_only(self._slru.probation(), s0, hmap@);
            lemma_freq_only(self._slru.protected(), s0, hmap@);
        }
    }

    /// Keep the aging scan walking: when the window's pass ends the main
    /// segments' starts, and when that ends the window's starts again.
    fn update_scan_status<V>(&mut self, hmap: &mut SimpleHmap<V>)
        requires
            old(self).wf(old(hmap)@),
            old(hmap).wf(),
        ensures
            final(self).wf(final(hmap)@),
            final(hmap).wf(),
            final(hmap).seed() == old(hmap).seed(),
            final(self).window().order() == old(self).window().order(),
            old(self).slru().same_shape(&final(self).slru()),
            final(self).window().cid() == old(self).window().cid(),
            final(self).window().cap() == old(self).window().cap(),
            final(self).generation() == old(self).generation(),
            final(self).salts() == old(self).salts(),
            final(self).entries() == old(self).entries(),
            final(self).inserts() == old(self).inserts(),
            forall|i: int| #[trigger] frame3(old(hmap)@, final(hmap)@, old(self).wcid(), old(self).pcid(), old(self).qcid(), i),
            old(self).window().order().len() > 0 || old(self).slru().probation().order().len() > 0 || old(
                self,
            ).slru().protected().order().len() > 0 ==> final(self).window().scan_cursor() is Some || final(self).slru().scan_status()
                != crate::slru::ScanStatus::Stopped,
            old(self).window().scan_cursor() is Some ==> final(self).window().scan_cursor() == old(self).window().scan_cursor(),
            old(self).slru().probation().scan_cursor() is Some ==> final(self).slru().probation().scan_cursor() == old(
                self,
            ).slru().probation().scan_cursor(),
    {
        let ghost s0 = hmap@;
        let ghost w = self.wcid();
        let ghost p = self.pcid();
        let ghost q = self.qcid();
        proof {
            self._slru.probation().lemma_cursor_in_chain();
            self._slru.protected().lemma_cursor_in_chain();
        }
        if !self._window.is_scan_running() {
            self._slru.start_scan(hmap);
            proof {
                assert(frame2(s0, hmap@, p, q, -1));
                lemma_other_chain(self._window, s0, hmap@, p, q, -1);
            }
        }
        let ghost s1 = hmap@;
        if !self._slru.is_scan_running() {
            self._window.start_scan(hmap);
            proof {
                assert(frame(s1, hmap@, w, -1));
                lemma_frame_widen(s1, hmap@, w, w, -1);
                lemma_other_chain(self._slru.probation(), s1, hmap@, w, w, -1);
                lemma_other_chain(self._slru.protected(), s1, hmap@, w, w, -1);
            }
        }
        proof {
            assert forall|i: int| #[trigger] frame3(s0, hmap@, w, p, q, i) by {
                if s0 != s1 {
                    assert(frame2(s0, s1, p, q, i));
                }
                lemma_frame3_from2(s0, s1, w, p, q, i);
                if s1 != hmap@ {
                    assert(frame(s1, hmap@, w, i));
                    lemma_frame_widen(s1, hmap@, w, w, i);
                }
                lemma_frame3_from2(s1, hmap@, w, p, q, i);
                lemma_frame3_trans(s0, s1, hmap@, w, p, q, i);
            }
        }
    }

    /// Count an insert; every `capacity` inserts the generation flips, and
    /// the scans age counters toward the new one from then on.
    fn count_insert(&mut self)
        requires
            old(self).inner_ok(),
        ensures
            final(self).inner_ok(),
            final(self).window().order() == old(self).window().order(),
            final(self).window().cid() == old(self).window().cid(),
            final(self).window().cap() == old(self).window().cap(),
            final(self).slru().probation().order() == old(self).slru().probation().order(),
            final(self).slru().protected().order() == old(self).slru().protected().order(),
            final(self).slru().probation().cid() == old(self).slru().probation().cid(),
            final(self).slru().protected().cid() == old(self).slru().protected().cid(),
            final(self).slru().probation().cap() == old(self).slru().probation().cap(),
            final(self).slru().protected().cap() == old(self).slru().protected().cap(),
            old(self).window().inner_ok() ==> final(self).window().inner_ok(),
            old(self).slru().probation().inner_ok() ==> final(self).slru().probation().inner_ok(),
            old(self).slru().protected().inner_ok() ==> final(self).slru().protected().inner_ok(),
            final(self).salts() == old(self).salts(),
            final(self).entries() == old(self).entries(),
            final(self).slru().scan_status() == old(self).slru().scan_status(),
            final(self).window().scan_cursor() == old(self).window().scan_cursor(),
            final(self).slru().probation().scan_cursor() == old(self).slru().probation().scan_cursor(),
            final(self).slru().protected().scan_cursor() == old(self).slru().protected().scan_cursor(),
            old(self).inserts() + 1 >= old(self).entries() ==> final(self).generation() == old(self).generation().flipped()
                && final(self).inserts() == 0,
            old(self).inserts() + 1 < old(self).entries() ==> final(self).generation() == old(self).generation()
                && final(self).inserts() == old(self).inserts() + 1,
    {
        self._inserts = self._inserts + 1;
        if self._inserts >= self._entries {
            self._inserts = 0;
            self._generation = self._generation.flip();
            self._window.set_scanf(ScanFn::Halve(self._generation));
            self._slru.set_scanf(ScanFn::Halve(self._generation));
        }
    }

    /// Link the entry that the caller has just placed at slot
    /// `new_entry_idx`, and count an access to it.
    ///
    /// `maybe_old_entry` is the entry that the store displaced there, given
    /// only where it was cached. A fresh key goes to the window. Where the
    /// window overflows, three slots are sampled around its tail; if the one
    /// with the lowest counter is in the window the tail is dropped,
    /// otherwise the tail goes on to probation. A key inserted again while
    /// in the window moves to probation; one in the main segments is
    /// handled there. A slot that leaves every segment is reported for the
    /// caller to empty; this includes a dropped window tail, which is
    /// reported as `OldTailPtr` rather than `Success` so that its slot is
    /// freed and the store's length keeps matching the chains.
    #[verifier::rlimit(80)]
    #[verifier::spinoff_prover]
    pub fn insert_shared<V>(
        &mut self,
        hmap: &mut SimpleHmap<V>,
        maybe_old_entry: Option<&Entry<V>>,
        new_entry_idx: usize,
    ) -> (r: InsertResultShared)
        requires
            old(self).inner_ok(),
            old(self).wcid() != old(self).pcid(),
            old(self).wcid() != old(self).qcid(),
            old(self).slru().probation().cid() != old(self).slru().protected().cid(),
            old(self).window().order().len() <= old(self).window().cap(),
            old(self).slru().probation().order().len() <= old(self).slru().probation().cap(),
            old(self).slru().protected().order().len() <= old(self).slru().protected().cap(),
            old(hmap).wf(),
            new_entry_idx < old(hmap)@.len(),
            old(hmap)@[new_entry_idx as int] is Some,
            match maybe_old_entry {
                None => old(self).wf(old(hmap)@) && !old(self).window().order().contains(new_entry_idx)
                    && !old(self).slru().probation().order().contains(new_entry_idx)
                    && !old(self).slru().protected().order().contains(new_entry_idx),
                Some(c) => old(self).wf(restored(old(hmap)@, new_entry_idx as int, *c)) && ((c.cache_id
                    == old(self).wcid() && old(self).window().order().contains(new_entry_idx)) || (
                c.cache_id == old(self).pcid() && old(self).slru().probation().order().contains(
                    new_entry_idx,
                )) || (c.cache_id == old(self).qcid() && old(self).slru().protected().order().contains(
                    new_entry_idx,
                ))),
            },
        ensures
            final(self).wf(final(hmap)@),
            final(hmap).wf(),
            final(hmap).seed() == old(hmap).seed(),
            final(self).wcid() == old(self).wcid(),
            final(self).pcid() == old(self).pcid(),
            final(self).qcid() == old(self).qcid(),
            final(self).window().cap() == old(self).window().cap(),
            final(self).slru().probation().cap() == old(self).slru().probation().cap(),
            final(self).slru().protected().cap() == old(self).slru().protected().cap(),
            final(self).salts() == old(self).salts(),
            frame3(old(hmap)@, final(hmap)@, old(self).wcid(), old(self).pcid(), old(self).qcid(), new_entry_idx as int),
            (final(self).window().order(), final(self).slru().probation().order(), final(self).slru().protected().order(), r)
                == wtlfu_orders(
                old(self).window().order(),
                old(self).slru().probation().order(),
                old(self).slru().protected().order(),
                old(self).window().cap(),
                old(self).slru().probation().cap(),
                old(self).slru().protected().cap(),
                old(self).wcid(),
                old(self).pcid(),
                new_entry_idx,
                clash_tag(maybe_old_entry),
                clash_same_key(maybe_old_entry, old(hmap)@, new_entry_idx as int),
                window_tail_promoted(
                    old(hmap)@,
                    old(self).window().order(),
                    new_entry_idx,
                    old(self).wcid(),
                    old(self).salts(),
                    old(self).entries(),
                ),
            ),
            final(hmap)@[new_entry_idx as int]->Some_0.freq == old(hmap)@[new_entry_idx as int]->Some_0.freq.aged(
                old(self).generation(),
            ).bumped(),
            old(self).inserts() + 1 >= old(self).entries() ==> final(self).generation() == old(self).generation().flipped()
                && final(self).inserts() == 0,
            old(self).inserts() + 1 < old(self).entries() ==> final(self).generation() == old(self).generation()
                && final(self).inserts() == old(self).inserts() + 1,
            match r {
                InsertResultShared::OldTailPtr { evicted } => (evicted < old(hmap)@.len()
                    && final(hmap)@[evicted as int] is Some && !final(self).window().order().contains(evicted)
                    && !final(self).slru().probation().order().contains(evicted)
                    && !final(self).slru().protected().order().contains(evicted)),
                _ => true,
            },
    {
        let idx = new_entry_idx;
        let ghost s0 = hmap@;
        let ghost wo = self._window.order();
        let ghost po = self._slru.probation().order();
        let ghost qo = self._slru.protected().order();
        let ghost w = self.wcid();
        let ghost p = self.pcid();
        let ghost q = self.qcid();
        let wcid = self._cid_window;
        let f0 = match hmap.get_index(idx) {
            Some(e) => e.freq,
            None => Full::new(),
        };
        let ghost expect = |b: bool|
            wtlfu_orders(
                wo,
                po,
                qo,
                self._window.cap(),
                self._slru.probation().cap(),
                self._slru.protected().cap(),
                w,
                p,
                idx,
                clash_tag(maybe_old_entry),
                clash_same_key(maybe_old_entry, s0, idx as int),
                b,
            );
        let ghost b: bool = window_tail_promoted(s0, wo, idx, w, self.salts(), self.entries());
        let promote = match self._window.tail() {
            Some(t) => {
                let v = self.choose_evict(hmap, t);
                let vcid = match hmap.get_index(v) {
                    Some(e) => e.cache_id,
                    None => 0,
                };
                v != idx && vcid != wcid
            },
            None => true,
        };
        proof {
            if wo.len() >= self._window.cap() {
                assert(wo.len() > 0);
                assert(promote == b);
            }
        }
        let res = match maybe_old_entry {
            None => {
                let r = self.insert_fresh(hmap, idx, promote);
                proof {
                    assert((self._window.order(), self._slru.probation().order(), self._slru.protected().order(), r) == expect(b));
                }
                r
            },
            Some(c) => {
                let new_key = match hmap.get_index(idx) {
                    Some(e) => e.key,
                    None => 0,
                };
                let ghost rs = restored(s0, idx as int, *c);
                proof {
                    lemma_disjoint(self._window, self._slru.probation(), rs);
                    lemma_disjoint(self._window, self._slru.protected(), rs);
                    lemma_disjoint(self._slru.probation(), self._window, rs);
                    lemma_disjoint(self._slru.protected(), self._window, rs);
                }
                if c.cache_id == wcid {
                    let ghost wp = pos_of(wo, idx);
                    proof {
                        assert(wo[wp] == idx);
                        assert(wo.no_duplicates());
                    }
                    if c.key == new_key {
                        hmap.set_links(idx, c.toward_head, c.toward_tail);
                        hmap.set_cache_id(idx, wcid);
                        let ghost s1 = hmap@;
                        proof {
                            assert(s1 == rs);
                        }
                        self._window.remove_shared(hmap, idx);
                        let ghost s2 = hmap@;
                        let ghost wo1 = self._window.order();
                        proof {
                            assert(frame(s1, s2, w, -1));
                            lemma_frame_widen(s1, s2, w, w, idx as int);
                            lemma_other_chain(self._slru.probation(), s1, s2, w, w, idx as int);
                            lemma_other_chain(self._slru.protected(), s1, s2, w, w, idx as int);
                            lemma_frame3_from2(s1, s2, w, p, q, idx as int);
                            assert(frame3(s0, s1, w, p, q, idx as int));
                            lemma_frame3_trans(s0, s1, s2, w, p, q, idx as int);
                            assert(!wo1.contains(idx)) by {
                                if wo1.contains(idx) {
                                    let j = choose|j: int| 0 <= j < wo1.len() && wo1[j] == idx;
                                    let j1 = if j < wp { j } else { j + 1 };
                                    assert(wo[j1] == idx);
                                }
                            }
                        }
                        let r = self._slru.insert_shared(hmap, None, idx);
                        proof {
                            let s3 = hmap@;
                            lemma_other_chain(self._window, s2, s3, p, q, idx as int);
                            lemma_frame3_from2(s2, s3, w, p, q, idx as int);
                            lemma_frame3_trans(s0, s2, s3, w, p, q, idx as int);
                            if let InsertResultShared::OldTailPtr { evicted } = r {
                                if evicted != idx {
                                    lemma_disjoint(self._slru.probation(), self._window, s3);
                                    lemma_disjoint(self._slru.protected(), self._window, s3);
                                }
                            }
                            assert(wo1 == wo.remove(wp));
                            assert((self._window.order(), self._slru.probation().order(), self._slru.protected().order(), r) == expect(b));
                            lemma_slru_orders_evicted(po, qo, self._slru.probation().cap(), self._slru.protected().cap(), p, idx, None, false);
                            assert forall|y: usize| wo1.contains(y) implies wo.contains(y) by {
                                let i = choose|i: int| 0 <= i < wo1.len() && wo1[i] == y;
                                let i1 = if i < wp { i } else { i + 1 };
                                assert(wo[i1] == y);
                            }
                            assert(evicted_ok(hmap@, self._window.order(), self._slru.probation().order(), self._slru.protected().order(), r));
                        }
                        r
                    } else {
                        proof {
                            lemma_chain_without(self._slru.probation(), rs, s0, idx as int);
                            lemma_chain_without(self._slru.protected(), rs, s0, idx as int);
                        }
                        let r = self._window.insert_shared(hmap, Some(c), idx);
                        proof {
                            lemma_frame_widen(s0, hmap@, w, w, idx as int);
                            lemma_other_chain(self._slru.probation(), s0, hmap@, w, w, idx as int);
                            lemma_other_chain(self._slru.protected(), s0, hmap@, w, w, idx as int);
                            lemma_frame3_from2(s0, hmap@, w, p, q, idx as int);
                            assert((self._window.order(), self._slru.probation().order(), self._slru.protected().order(), r) == expect(b));
                        }
                        r
                    }
                } else if c.key != new_key {
                    let ccid = c.cache_id;
                    hmap.set_links(idx, c.toward_head, c.toward_tail);
                    hmap.set_cache_id(idx, ccid);
                    let ghost s1 = hmap@;
                    proof {
                        assert(s1 == rs);
                        assert(po.no_duplicates());
                        assert(qo.no_duplicates());
                        if po.contains(idx) {
                            assert(po[pos_of(po, idx)] == idx);
                        }
                        if qo.contains(idx) {
                            assert(qo[pos_of(qo, idx)] == idx);
                        }
                    }
                    self._slru.remove_shared(hmap, idx);
                    let ghost s2 = hmap@;
                    let ghost po1 = self._slru.probation().order();
                    let ghost qo1 = self._slru.protected().order();
                    proof {
                        assert(frame2(s1, s2, p, q, -1));
                        lemma_other_chain(self._window, s1, s2, p, q, -1);
                        assert(frame2(s1, s2, p, q, idx as int));
                        lemma_frame3_from2(s1, s2, w, p, q, idx as int);
                        assert(frame3(s0, s1, w, p, q, idx as int));
                        lemma_frame3_trans(s0, s1, s2, w, p, q, idx as int);
                        assert(!po1.contains(idx)) by {
                            if po.contains(idx) {
                                let pp = pos_of(po, idx);
                                if po1.contains(idx) {
                                    let j = choose|j: int| 0 <= j < po1.len() && po1[j] == idx;
                                    let j1 = if j < pp { j } else { j + 1 };
                                    assert(po[j1] == idx);
                                }
                            }
                        }
                        assert(!qo1.contains(idx)) by {
                            if qo.contains(idx) {
                                let pp = pos_of(qo, idx);
                                if qo1.contains(idx) {
                                    let j = choose|j: int| 0 <= j < qo1.len() && qo1[j] == idx;
                                    let j1 = if j < pp { j } else { j + 1 };
                                    assert(qo[j1] == idx);
                                }
                            }
                        }
                        assert(s2[idx as int] is Some);
                    }
                    let r = self.insert_fresh(hmap, idx, promote);
                    proof {
                        lemma_frame3_trans(s0, s2, hmap@, w, p, q, idx as int);
                        assert((self._window.order(), self._slru.probation().order(), self._slru.protected().order(), r) == expect(b));
                    }
                    r
                } else {
                    proof {
                        lemma_chain_without(self._window, rs, s0, idx as int);
                        assert(self._slru.chain_wf(rs));
                    }
                    let r = self._slru.insert_shared(hmap, Some(c), idx);
                    proof {
                        lemma_other_chain(self._window, s0, hmap@, p, q, idx as int);
                        lemma_frame3_from2(s0, hmap@, w, p, q, idx as int);
                        lemma_slru_orders_evicted(
                            po,
                            qo,
                            self._slru.probation().cap(),
                            self._slru.protected().cap(),
                            p,
                            idx,
                            clash_tag(maybe_old_entry),
                            clash_same_key(maybe_old_entry, s0, idx as int),
                        );
                        assert((self._window.order(), self._slru.probation().order(), self._slru.protected().order(), r) == expect(b));
                        assert(evicted_ok(hmap@, self._window.order(), self._slru.probation().order(), self._slru.protected().order(), r));
                    }
                    r
                }
            },
        };
        let ghost s4 = hmap@;
        proof {
            assert((self._window.order(), self._slru.probation().order(), self._slru.protected().order(), res) == expect(b));
            assert(evicted_ok(s4, self._window.order(), self._slru.probation().order(), self._slru.protected().order(), res));
        }
        let ghost wo4 = self._window.order();
        let ghost po4 = self._slru.probation().order();
        let ghost qo4 = self._slru.protected().order();
        proof {
            assert(self.wcid() == w && self.pcid() == p && self.qcid() == q);
        }
        self.update_scan_status(hmap);
        let ghost s5 = hmap@;
        proof {
            assert(frame3(s4, s5, w, p, q, idx as int));
            lemma_frame3_trans(s0, s4, s5, w, p, q, idx as int);
            assert(s5[idx as int] is Some);
        }
        self.count_access(hmap, idx, f0);
        self.count_insert();
        proof {
            lemma_frame3_trans(s0, s5, hmap@, w, p, q, idx as int);
            lemma_frame3_trans(s4, s5, hmap@, w, p, q, idx as int);
            if let InsertResultShared::OldTailPtr { evicted } = res {
                assert(hmap@[evicted as int] is Some);
            }
        }
        res
    }

    /// Link a fresh entry at slot `idx`, held by no segment, at the head of
    /// the window. A tail that overflows the window goes on to probation
    /// where `promote` is set, and is reported for eviction otherwise.
    fn insert_fresh<V>(&mut self, hmap: &mut SimpleHmap<V>, idx: usize, promote: bool) -> (r: InsertResultShared)
        requires
            old(self).wf(old(hmap)@),
            old(hmap).wf(),
            idx < old(hmap)@.len(),
            old(hmap)@[idx as int] is Some,
            !old(self).window().order().contains(idx),
            !old(self).slru().probation().order().contains(idx),
            !old(self).slru().protected().order().contains(idx),
        ensures
            final(self).wf(final(hmap)@),
            final(hmap).wf(),
            final(hmap).seed() == old(hmap).seed(),
            final(self).wcid() == old(self).wcid(),
            final(self).pcid() == old(self).pcid(),
            final(self).qcid() == old(self).qcid(),
            final(self).window().cap() == old(self).window().cap(),
            final(self).slru().probation().cap() == old(self).slru().probation().cap(),
            final(self).slru().protected().cap() == old(self).slru().protected().cap(),
            final(self).salts() == old(self).salts(),
            final(self).generation() == old(self).generation(),
            final(self).inserts() == old(self).inserts(),
            final(self).entries() == old(self).entries(),
            frame3(old(hmap)@, final(hmap)@, old(self).wcid(), old(self).pcid(), old(self).qcid(), idx as int),
            (final(self).window().order(), final(self).slru().probation().order(), final(self).slru().protected().order(), r)
                == fresh_orders(
                old(self).window().order(),
                old(self).slru().probation().order(),
                old(self).slru().protected().order(),
                old(self).window().cap(),
                old(self).slru().probation().cap(),
                old(self).slru().protected().cap(),
                old(self).pcid(),
                idx,
                promote,
            ),
            evicted_ok(final(hmap)@, final(self).window().order(), final(self).slru().probation().order(), final(self).slru().protected().order(), r),
    {
        let ghost s0 = hmap@;
        let ghost wo = self._window.order();
        let ghost po = self._slru.probation().order();
        let ghost qo = self._slru.protected().order();
        let ghost w = self.wcid();
        let ghost p = self.pcid();
        let ghost q = self.qcid();
        let ghost expect = |b: bool|
            fresh_orders(
                wo,
                po,
                qo,
                self._window.cap(),
                self._slru.probation().cap(),
                self._slru.protected().cap(),
                p,
                idx,
                b,
            );
        let ghost b = promote;
        proof {
            lemma_disjoint(self._window, self._slru.probation(), s0);
            lemma_disjoint(self._window, self._slru.protected(), s0);
        }
        let r = self._window.insert_shared(hmap, None, idx);
        let ghost s1 = hmap@;
        proof {
            lemma_frame_widen(s0, s1, w, w, idx as int);
            lemma_other_chain(self._slru.probation(), s0, s1, w, w, idx as int);
            lemma_other_chain(self._slru.protected(), s0, s1, w, w, idx as int);
            lemma_frame3_from2(s0, s1, w, p, q, idx as int);
        }
        match r {
            InsertResultShared::OldTailPtr { evicted } => {
                let t = evicted;
                if !promote {
                    proof {
                        if t != idx {
                            assert(wo.contains(t)) by {
                                assert(wo[wo.len() - 1] == t);
                            }
                        }
                        assert((self._window.order(), self._slru.probation().order(), self._slru.protected().order(), r) == expect(b));
                        assert(evicted_ok(hmap@, self._window.order(), self._slru.probation().order(), self._slru.protected().order(), r));
                    }
                    r
                } else {
                    proof {
                        if t != idx {
                            assert(wo.contains(t)) by {
                                assert(wo[wo.len() - 1] == t);
                            }
                        }
                    }
                    let r2 = self._slru.insert_shared(hmap, None, t);
                    proof {
                        let s2 = hmap@;
                        assert(!self._window.order().contains(t));
                        lemma_other_chain(self._window, s1, s2, p, q, t as int);
                        if t != idx {
                            let i = choose|i: int| 0 <= i < wo.len() && wo[i] == t;
                            assert(link_ok(s0, wo, i, w));
                            assert(s1[t as int] == s0[t as int] || s1[t as int]->Some_0.cache_id == w);
                        }
                        assert(frame2(s1, s2, p, q, t as int));
                        lemma_frame3_from2(s1, s2, w, p, q, t as int);
                        assert(frame3(s1, s2, w, p, q, idx as int));
                        lemma_frame3_trans(s0, s1, s2, w, p, q, idx as int);
                        if let InsertResultShared::OldTailPtr { evicted } = r2 {
                            if evicted != t {
                                lemma_disjoint(self._slru.probation(), self._window, s2);
                                lemma_disjoint(self._slru.protected(), self._window, s2);
                            }
                        }
                        assert((self._window.order(), self._slru.probation().order(), self._slru.protected().order(), r2) == expect(b));
                        lemma_slru_orders_evicted(po, qo, self._slru.probation().cap(), self._slru.protected().cap(), p, t, None, false);
                        crate::model::lemma_push_fresh(wo, self._window.cap(), idx);
                        assert(evicted_ok(hmap@, self._window.order(), self._slru.probation().order(), self._slru.protected().order(), r2));
                    }
                    r2
                }
            },
            other => {
                proof {
                    assert((self._window.order(), self._slru.probation().order(), self._slru.protected().order(), other) == expect(b));
                    assert(evicted_ok(hmap@, self._window.order(), self._slru.probation().order(), self._slru.protected().order(), other));
                }
                other
            },
        }
    }

    /// Take `entry` out of whichever segment holds it. The caller then
    /// empties its slot.
    pub fn remove_shared<V>(&mut self, hmap: &mut SimpleHmap<V>, entry: usize)
        requires
            old(self).wf(old(hmap)@),
            old(hmap).wf(),
            old(self).window().order().contains(entry) || old(self).slru().probation().order().contains(entry)
                || old(self).slru().protected().order().contains(entry),
        ensures
            final(self).wf(final(hmap)@),
            final(hmap).wf(),
            final(hmap).seed() == old(hmap).seed(),
            final(self).wcid() == old(self).wcid(),
            final(self).pcid() == old(self).pcid(),
            final(self).qcid() == old(self).qcid(),
            forall|i: int| #[trigger] frame3(old(hmap)@, final(hmap)@, old(self).wcid(), old(self).pcid(), old(self).qcid(), i),
            !final(self).window().order().contains(entry),
            !final(self).slru().probation().order().contains(entry),
            !final(self).slru().protected().order().contains(entry),
            forall|x: usize|
                x != entry ==> (old(self).window().order().contains(x) == final(self).window().order().contains(x)),
            forall|x: usize|
                x != entry ==> (old(self).slru().probation().order().contains(x) == final(self).slru().probation().order().contains(x)),
            forall|x: usize|
                x != entry ==> (old(self).slru().protected().order().contains(x) == final(self).slru().protected().order().contains(x)),
            old(self).window().order().contains(entry) ==> final(self).window().order() == old(self).window().order().remove(
                pos_of(old(self).window().order(), entry),
            ) && final(self).slru().probation().order() == old(self).slru().probation().order()
                && final(self).slru().protected().order() == old(self).slru().protected().order(),
            old(self).slru().probation().order().contains(entry) ==> final(self).slru().probation().order() == old(
                self,
            ).slru().probation().order().remove(pos_of(old(self).slru().probation().order(), entry))
                && final(self).window().order() == old(self).window().order()
                && final(self).slru().protected().order() == old(self).slru().protected().order(),
            old(self).slru().protected().order().contains(entry) ==> final(self).slru().protected().order() == old(
                self,
            ).slru().protected().order().remove(pos_of(old(self).slru().protected().order(), entry))
                && final(self).window().order() == old(self).window().order()
                && final(self).slru().probation().order() == old(self).slru().probation().order(),
    {
        let ghost s0 = hmap@;
        let ghost w = self.wcid();
        let ghost p = self.pcid();
        let ghost q = self.qcid();
        let ghost wo = self._window.order();
        let ghost po = self._slru.probation().order();
        let ghost qo = self._slru.protected().order();
        proof {
            lemma_disjoint(self._window, self._slru.probation(), s0);
            lemma_disjoint(self._window, self._slru.protected(), s0);
            lemma_disjoint(self._slru.probation(), self._window, s0);
            lemma_disjoint(self._slru.protected(), self._window, s0);
            lemma_disjoint(self._slru.probation(), self._slru.protected(), s0);
            lemma_disjoint(self._slru.protected(), self._slru.probation(), s0);
            if wo.contains(entry) {
                let i = choose|i: int| 0 <= i < wo.len() && wo[i] == entry;
                assert(link_ok(s0, wo, i, w));
            }
            if po.contains(entry) {
                let i = choose|i: int| 0 <= i < po.len() && po[i] == entry;
                assert(link_ok(s0, po, i, p));
            }
            if qo.contains(entry) {
                let i = choose|i: int| 0 <= i < qo.len() && qo[i] == entry;
                assert(link_ok(s0, qo, i, q));
            }
        }
        let cid = match hmap.get_index(entry) {
            Some(e) => e.cache_id,
            None => 0,
        };
        if cid == self._cid_window {
            self._window.remove_shared(hmap, entry);
            proof {
                assert(frame(s0, hmap@, w, -1));
                lemma_frame_widen(s0, hmap@, w, w, -1);
                lemma_other_chain(self._slru.probation(), s0, hmap@, w, w, -1);
                lemma_other_chain(self._slru.protected(), s0, hmap@, w, w, -1);
                let pp = choose|pp: int| 0 <= pp < wo.len() && wo[pp] == entry && self._window.order() == wo.remove(pp);
                crate::slru::lemma_remove_keeps(wo, pp);
                assert(wo.no_duplicates());
                assert forall|x: usize| self._window.order().contains(x) implies wo.contains(x) && x != entry by {
                    let i = choose|i: int| 0 <= i < wo.remove(pp).len() && wo.remove(pp)[i] == x;
                    let i1 = if i < pp { i } else { i + 1 };
                    assert(wo[i1] == x);
                }
            }
        } else {
            proof {
                if po.contains(entry) {
                    assert(po[pos_of(po, entry)] == entry);
                    crate::slru::lemma_remove_keeps(po, pos_of(po, entry));
                }
                if qo.contains(entry) {
                    assert(qo[pos_of(qo, entry)] == entry);
                    crate::slru::lemma_remove_keeps(qo, pos_of(qo, entry));
                }
            }
            self._slru.remove_shared(hmap, entry);
            proof {
                assert(frame2(s0, hmap@, p, q, -1));
                lemma_other_chain(self._window, s0, hmap@, p, q, -1);
                let po1 = self._slru.probation().order();
                let qo1 = self._slru.protected().order();
                assert(po.no_duplicates());
                assert(qo.no_duplicates());
                if po.contains(entry) {
                    let pp = pos_of(po, entry);
                    assert forall|x: usize| po1.contains(x) implies po.contains(x) && x != entry by {
                        let i = choose|i: int| 0 <= i < po1.len() && po1[i] == x;
                        let i1 = if i < pp { i } else { i + 1 };
                        assert(po[i1] == x);
                    }
                } else {
                    let pp = pos_of(qo, entry);
                    assert forall|x: usize| qo1.contains(x) implies qo.contains(x) && x != entry by {
                        let i = choose|i: int| 0 <= i < qo1.len() && qo1[i] == x;
                        let i1 = if i < pp { i } else { i + 1 };
                        assert(qo[i1] == x);
                    }
                }
            }
        }
        let ghost s1 = hmap@;
        proof {
            assert(self.wcid() == w && self.pcid() == p && self.qcid() == q);
        }
        self.update_scan_status(hmap);
        proof {
            assert forall|i: int| #[trigger] frame3(s0, hmap@, w, p, q, i) by {
                if cid == w {
                    assert(frame(s0, s1, w, i));
                    lemma_frame_widen(s0, s1, w, w, i);
                } else {
                    assert(frame2(s0, s1, p, q, i));
                }
                lemma_frame3_from2(s0, s1, w, p, q, i);
                assert(frame3(s1, hmap@, w, p, q, i));
                lemma_frame3_trans(s0, s1, hmap@, w, p, q, i);
            }
        }
    }

    /// A read of `entry`: its counter is aged toward the current generation
    /// and counts one access, and the scans take a step. No segment changes.
    pub fn on_get<V>(&mut self, hmap: &mut SimpleHmap<V>, entry: usize)
        requires
            old(self).wf(old(hmap)@),
            old(hmap).wf(),
            entry < old(hmap)@.len(),
            old(hmap)@[entry as int] is Some,
        ensures
            final(self).wf(final(hmap)@),
            final(hmap).wf(),
            final(hmap).seed() == old(hmap).seed(),
            final(self).wcid() == old(self).wcid(),
            final(self).pcid() == old(self).pcid(),
            final(self).qcid() == old(self).qcid(),
            final(self).generation() == old(self).generation(),
            final(self).window().order() == old(self).window().order(),
            final(self).slru().probation().order() == old(self).slru().probation().order(),
            final(self).slru().protected().order() == old(self).slru().protected().order(),
            frame3(old(hmap)@, final(hmap)@, old(self).wcid(), old(self).pcid(), old(self).qcid(), entry as int),
            final(hmap)@[entry as int]->Some_0.freq == old(hmap)@[entry as int]->Some_0.freq.aged(
                old(self).generation(),
            ).bumped(),
            old(hmap)@[entry as int]->Some_0.cache_id == old(self).wcid() && step_in(old(hmap)@, old(self).window().scan_cursor())
                is Some ==> final(self).window().scan_cursor() == step_in(old(hmap)@, old(self).window().scan_cursor()),
            old(hmap)@[entry as int]->Some_0.cache_id == old(self).pcid() && step_in(
                old(hmap)@,
                old(self).slru().probation().scan_cursor(),
            ) is Some ==> final(self).slru().probation().scan_cursor() == step_in(
                old(hmap)@,
                old(self).slru().probation().scan_cursor(),
            ),
    {
        let ghost s0 = hmap@;
        let ghost w = self.wcid();
        let ghost p = self.pcid();
        let ghost q = self.qcid();
        let (f0, cid) = match hmap.get_index(entry) {
            Some(e) => (e.freq, e.cache_id),
            None => (Full::new(), 0),
        };
        if cid == self._cid_window {
            self._window.on_get(hmap, entry);
            proof {
                assert(frame(s0, hmap@, w, -1));
                lemma_frame_widen(s0, hmap@, w, w, -1);
                lemma_other_chain(self._slru.probation(), s0, hmap@, w, w, -1);
                lemma_other_chain(self._slru.protected(), s0, hmap@, w, w, -1);
                assert(frame(s0, hmap@, w, entry as int));
                lemma_frame_widen(s0, hmap@, w, w, entry as int);
            }
        } else {
            self._slru.on_get(hmap, entry);
            proof {
                assert(frame2(s0, hmap@, p, q, -1));
                lemma_other_chain(self._window, s0, hmap@, p, q, -1);
                assert(frame2(s0, hmap@, p, q, entry as int));
            }
        }
        let ghost s1 = hmap@;
        proof {
            lemma_frame3_from2(s0, s1, w, p, q, entry as int);
            assert(self.wcid() == w && self.pcid() == p && self.qcid() == q);
        }
        self.update_scan_status(hmap);
        let ghost s2 = hmap@;
        proof {
            assert(frame3(s1, s2, w, p, q, entry as int));
            lemma_frame3_trans(s0, s1, s2, w, p, q, entry as int);
            assert(frame3(s0, s2, w, p, q, -1)) by {
                assert(frame3(s1, s2, w, p, q, -1));
                if cid == w {
                    assert(frame(s0, s1, w, -1));
                    lemma_frame_widen(s0, s1, w, w, -1);
                } else {
                    assert(frame2(s0, s1, p, q, -1));
                }
                lemma_frame3_from2(s0, s1, w, p, q, -1);
                lemma_frame3_trans(s0, s1, s2, w, p, q, -1);
            }
        }
        self.count_access(hmap, entry, f0);
        proof {
            lemma_frame3_trans(s0, s2, hmap@, w, p, q, entry as int);
            assert(s2[entry as int] is Some);
        }
    }

    /// Forget every entry of the three segments.
    pub fn clear_shared(&mut self)
        requires
            old(self).inner_ok(),
        ensures
            final(self).inner_ok(),
            final(self).window().order() == Seq::<usize>::empty(),
            final(self).slru().probation().order() == Seq::<usize>::empty(),
            final(self).slru().protected().order() == Seq::<usize>::empty(),
            final(self).window().inner_ok(),
            final(self).slru().probation().inner_ok(),
            final(self).slru().protected().inner_ok(),
            final(self).wcid() == old(self).wcid(),
            final(self).pcid() == old(self).pcid(),
            final(self).qcid() == old(self).qcid(),
            final(self).window().cap() == old(self).window().cap(),
            final(self).slru().probation().cap() == old(self).slru().probation().cap(),
            final(self).slru().protected().cap() == old(self).slru().protected().cap(),
    {
        self._window.clear_shared();
        self._slru.clear_shared();
    }

    /// Kick the aging scan where no segment is scanning.
    pub fn start_scan<V>(&mut self, hmap: &mut SimpleHmap<V>)
        requires
            old(self).wf(old(hmap)@),
            old(hmap).wf(),
        ensures
            final(self).wf(final(hmap)@),
            final(hmap).wf(),
            final(self).window().order() == old(self).window().order(),
            final(self).slru().probation().order() == old(self).slru().probation().order(),
            final(self).slru().protected().order() == old(self).slru().protected().order(),
            forall|i: int| #[trigger] frame3(old(hmap)@, final(hmap)@, old(self).wcid(), old(self).pcid(), old(self).qcid(), i),
            old(self).window().order().len() > 0 || old(self).slru().probation().order().len() > 0 || old(
                self,
            ).slru().protected().order().len() > 0 ==> final(self).is_scan_running_spec(),
            old(self).window().scan_cursor() is Some ==> final(self).window().scan_cursor() == old(self).window().scan_cursor(),
            old(self).slru().probation().scan_cursor() is Some ==> final(self).slru().probation().scan_cursor() == old(
                self,
            ).slru().probation().scan_cursor(),
    {
        self.update_scan_status(hmap);
    }

    /// A scan is walking one of the segments.
    pub open spec fn is_scan_running_spec(&self) -> bool {
        self.window().scan_cursor() is Some || self.slru().scan_status() != crate::slru::ScanStatus::Stopped
    }

    pub fn is_scan_running(&self) -> (r: bool)
        ensures
            r == self.is_scan_running_spec(),
    {
        self._window.is_scan_running() || self._slru.is_scan_running()
    }

    /// No segment holds more entries than its capacity, and together they
    /// hold no more than the total.
    pub proof fn law_len_within_capacity<V>(&self, s: Seq<Option<Entry<V>>>)
        requires
            self.wf(s),
        ensures
            self.window().order().len() <= self.window().cap(),
            self.slru().probation().order().len() <= self.slru().probation().cap(),
            self.slru().protected().order().len() <= self.slru().protected().cap(),
            self.window().order().len() + self.slru().probation().order().len() + self.slru().protected().order().len()
                <= self.entries(),
    {
    }
}

} // verus!
