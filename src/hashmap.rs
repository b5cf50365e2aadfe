//! Fixed-capacity store whose slots never move: a slot index handed out by
//! `insert` stays valid until that slot is emptied.
use vstd::prelude::*;
use crate::entry::{Entry, Full, Generation};

verus! {

/// Number of occupied slots.
pub open spec fn live_count<V>(s: Seq<Option<Entry<V>>>) -> nat
    decreases s.len(),
{
    if s.len() == 0 {
        0
    } else {
        live_count(s.drop_last()) + if s.last() is Some { 1nat } else { 0nat }
    }
}

pub open spec fn holds_key<V>(s: Seq<Option<Entry<V>>>, i: int, key: u64) -> bool {
    0 <= i < s.len() && s[i] is Some && s[i]->Some_0.key == key
}

pub open spec fn has_key<V>(s: Seq<Option<Entry<V>>>, key: u64) -> bool {
    exists|i: int| holds_key(s, i, key)
}

/// No key is held by two occupied slots.
pub open spec fn keys_unique<V>(s: Seq<Option<Entry<V>>>) -> bool {
    forall|i: int, j: int|
        0 <= i < s.len() && 0 <= j < s.len() && s[i] is Some && s[j] is Some
            && s[i]->Some_0.key == s[j]->Some_0.key ==> i == j
}

/// Slot `j` matches `key` for a probe of kind `mode`: 0 for the same key, 1
/// for an empty slot, 2 for an occupied slot whose hash agrees modulo the
/// capacity.
pub open spec fn probe_match<V>(s: Seq<Option<Entry<V>>>, j: int, key: u64, seed: u64, mode: u8) -> bool {
    if mode == 0 {
        holds_key(s, j, key)
    } else if mode == 1 {
        s[j] is None
    } else {
        s[j] is Some && ((s[j]->Some_0.key ^ seed) % (s.len() as u64)) == ((key ^ seed) % (s.len() as u64))
    }
}

pub proof fn lemma_live_count_update<V>(s: Seq<Option<Entry<V>>>, i: int, x: Option<Entry<V>>)
    requires
        0 <= i < s.len(),
    ensures
        live_count(s.update(i, x)) + (if s[i] is Some { 1int } else { 0int })
            == live_count(s) + (if x is Some { 1int } else { 0int }),
    decreases s.len(),
{
    if i == s.len() - 1 {
        assert(s.update(i, x).drop_last() =~= s.drop_last());
    } else {
        assert(s.update(i, x).drop_last() =~= s.drop_last().update(i, x));
        lemma_live_count_update(s.drop_last(), i, x);
    }
}

pub proof fn lemma_live_count_bound<V>(s: Seq<Option<Entry<V>>>)
    ensures
        live_count(s) <= s.len(),
        live_count(s) == s.len() <==> forall|i: int| 0 <= i < s.len() ==> s[i] is Some,
    decreases s.len(),
{
    if s.len() > 0 {
        lemma_live_count_bound(s.drop_last());
        if forall|i: int| 0 <= i < s.len() ==> s[i] is Some {
            assert forall|i: int| 0 <= i < s.drop_last().len() implies s.drop_last()[i] is Some by {
                assert(s.drop_last()[i] == s[i]);
            }
        }
        assert forall|i: int| 0 <= i < s.len() && live_count(s) == s.len() implies s[i] is Some by {
            if i < s.len() - 1 {
                assert(s.drop_last()[i] == s[i]);
            }
        }
    }
}

pub proof fn lemma_live_count_empty<V>(s: Seq<Option<Entry<V>>>)
    requires
        forall|i: int| 0 <= i < s.len() ==> s[i] is None,
    ensures
        live_count(s) == 0,
    decreases s.len(),
{
    if s.len() > 0 {
        lemma_live_count_empty(s.drop_last());
    }
}

/// The backing store shared by the caches: a fixed number of slots,
/// addressed by key through an open-addressing probe and by index directly.
pub struct SimpleHmap<V> {
    usage: usize,
    table: Vec<Option<Entry<V>>>,
    hash_builder: u64,
}

impl<V> View for SimpleHmap<V> {
    type V = Seq<Option<Entry<V>>>;

    closed spec fn view(&self) -> Seq<Option<Entry<V>>> {
        self.table@
    }
}

impl<V> SimpleHmap<V> {
    pub closed spec fn spec_usage(&self) -> nat {
        self.usage as nat
    }

    /// The seed that keys are mixed with before probing.
    pub closed spec fn seed(&self) -> u64 {
        self.hash_builder
    }

    pub open spec fn wf(&self) -> bool {
        &&& self@.len() <= usize::MAX
        &&& self.spec_usage() == live_count(self@)
        &&& keys_unique(self@)
    }

    pub open spec fn spec_hash(&self, key: u64) -> u64 {
        key ^ self.seed()
    }

    pub fn with_capacity(capacity: usize) -> (r: Self)
        ensures
            r.wf(),
            r.seed() == 0,
            r@.len() == capacity,
            forall|i: int| 0 <= i < capacity ==> r@[i] is None,
    {
        Self::with_capacity_and_hasher(capacity, 0)
    }

    pub fn with_capacity_and_hasher(capacity: usize, hash_builder: u64) -> (r: Self)
        ensures
            r.wf(),
            r.seed() == hash_builder,
            r@.len() == capacity,
            forall|i: int| 0 <= i < capacity ==> r@[i] is None,
    {
        let mut table: Vec<Option<Entry<V>>> = Vec::with_capacity(capacity);
        let mut i: usize = 0;
        while i < capacity
            invariant
                i <= capacity,
                table@.len() == i,
                forall|j: int| 0 <= j < i ==> table@[j] is None,
            decreases capacity - i,
        {
            table.push(None);
            i = i + 1;
        }
        proof {
            lemma_live_count_empty(table@);
        }
        SimpleHmap { usage: 0, table, hash_builder }
    }

    pub fn capacity(&self) -> (r: usize)
        ensures
            r == self@.len(),
    {
        self.table.len()
    }

    pub fn len(&self) -> (r: usize)
        requires
            self.wf(),
        ensures
            r == live_count(self@),
    {
        self.usage
    }

    pub fn hasher(&self) -> (r: u64)
        ensures
            r == self.seed(),
    {
        self.hash_builder
    }

    fn hash(&self, key: u64) -> (r: u64)
        ensures
            r == self.spec_hash(key),
    {
        key ^ self.hash_builder
    }

    /// Probe every slot once, starting where the key hashes to, for the
    /// first one that matches in the sense of `mode`.
    fn probe(&self, key: u64, mode: u8) -> (r: Option<usize>)
        ensures
            match r {
                Some(i) => i < self@.len() && probe_match(self@, i as int, key, self.seed(), mode),
                None => forall|j: int| 0 <= j < self@.len() ==> !probe_match(self@, j, key, self.seed(), mode),
            },
    {
        let cap = self.table.len();
        if cap == 0 {
            return None;
        }
        let cap64 = cap as u64;
        let h = self.hash(key);
        let start = (h % cap64) as usize;
        let mut i: usize = start;
        while i < cap
            invariant
                cap == self@.len(),
                cap64 == cap as u64,
                h == self.spec_hash(key),
                start <= i <= cap,
                forall|j: int| start <= j < i ==> !probe_match(self@, j, key, self.seed(), mode),
            decreases cap - i,
        {
            if self.matches_at(i, key, h, mode) {
                return Some(i);
            }
            i = i + 1;
        }
        let mut i: usize = 0;
        while i < start
            invariant
                cap == self@.len(),
                cap64 == cap as u64,
                h == self.spec_hash(key),
                start <= cap,
                i <= start,
                forall|j: int| start <= j < cap ==> !probe_match(self@, j, key, self.seed(), mode),
                forall|j: int| 0 <= j < i ==> !probe_match(self@, j, key, self.seed(), mode),
            decreases start - i,
        {
            if self.matches_at(i, key, h, mode) {
                return Some(i);
            }
            i = i + 1;
        }
        None
    }

    fn matches_at(&self, i: usize, key: u64, h: u64, mode: u8) -> (r: bool)
        requires
            i < self@.len(),
            h == self.spec_hash(key),
        ensures
            r == probe_match(self@, i as int, key, self.seed(), mode),
    {
        let cap64 = self.table.len() as u64;
        match &self.table[i] {
            None => mode == 1,
            Some(e) => {
                if mode == 0 {
                    e.key == key
                } else if mode == 1 {
                    false
                } else {
                    self.hash(e.key) % cap64 == h % cap64
                }
            },
        }
    }

    proof fn lemma_probe_key(&self, key: u64, found: Option<usize>)
        requires
            match found {
                Some(i) => i < self@.len() && probe_match(self@, i as int, key, self.seed(), 0),
                None => forall|j: int| 0 <= j < self@.len() ==> !probe_match(self@, j, key, self.seed(), 0),
            },
        ensures
            match found {
                Some(i) => holds_key(self@, i as int, key),
                None => !has_key(self@, key),
            },
    {
        if found is None {
            assert forall|j: int| !holds_key(self@, j, key) by {
                if 0 <= j < self@.len() {
                    assert(!probe_match(self@, j, key, self.seed(), 0));
                }
            }
        }
    }

    /// Index and entry of the slot that holds `key`, if any.
    pub fn get_full(&self, key: u64) -> (r: Option<(usize, &Entry<V>)>)
        ensures
            match r {
                Some((i, e)) => holds_key(self@, i as int, key) && self@[i as int] == Some(*e),
                None => !has_key(self@, key),
            },
    {
        let found = self.probe(key, 0);
        proof {
            self.lemma_probe_key(key, found);
        }
        match found {
            None => None,
            Some(i) => match &self.table[i] {
                Some(e) => Some((i, e)),
                None => None,
            },
        }
    }

    /// The entry at slot `idx`, unless that slot is empty or out of range.
    pub fn get_index(&self, idx: usize) -> (r: Option<&Entry<V>>)
        ensures
            match r {
                Some(e) => idx < self@.len() && self@[idx as int] == Some(*e),
                None => idx >= self@.len() || self@[idx as int] is None,
            },
    {
        if idx >= self.table.len() {
            return None;
        }
        match &self.table[idx] {
            Some(e) => Some(e),
            None => None,
        }
    }

    /// Empty slot `idx` and hand back what it held; `None` where it was
    /// already empty or out of range. No other slot moves.
    pub fn remove_idx(&mut self, idx: usize) -> (r: Option<Entry<V>>)
        requires
            old(self).wf(),
        ensures
            final(self).wf(),
            final(self).seed() == old(self).seed(),
            idx < old(self)@.len() ==> final(self)@ == old(self)@.update(idx as int, None)
                && r == old(self)@[idx as int],
            idx >= old(self)@.len() ==> final(self)@ == old(self)@ && r is None,
    {
        if idx >= self.table.len() {
            return None;
        }
        proof {
            lemma_live_count_update(self@, idx as int, None);
        }
        let r = self.table[idx].take();
        if r.is_some() {
            self.usage = self.usage - 1;
        }
        r
    }

    /// Empty the slot that holds `key`, if any, and hand back its entry.
    pub fn remove(&mut self, key: u64) -> (r: Option<Entry<V>>)
        requires
            old(self).wf(),
        ensures
            final(self).wf(),
            final(self).seed() == old(self).seed(),
            !has_key(old(self)@, key) ==> r is None && final(self)@ == old(self)@,
            has_key(old(self)@, key) ==> exists|i: int|
                holds_key(old(self)@, i, key) && r == old(self)@[i] && final(self)@ == old(
                    self,
                )@.update(i, None),
    {
        let found = self.probe(key, 0);
        proof {
            self.lemma_probe_key(key, found);
        }
        match found {
            None => None,
            Some(i) => self.remove_idx(i),
        }
    }

    /// Empty every slot.
    pub fn clear(&mut self)
        requires
            old(self).wf(),
        ensures
            final(self).wf(),
            final(self).seed() == old(self).seed(),
            final(self)@.len() == old(self)@.len(),
            forall|i: int| 0 <= i < final(self)@.len() ==> final(self)@[i] is None,
    {
        let cap = self.table.len();
        let mut i: usize = 0;
        while i < cap
            invariant
                cap == self.table@.len(),
                cap == old(self)@.len(),
                self.hash_builder == old(self).seed(),
                i <= cap,
                forall|j: int| 0 <= j < i ==> self.table@[j] is None,
            decreases cap - i,
        {
            self.table.set(i, None);
            i = i + 1;
        }
        proof {
            lemma_live_count_empty(self.table@);
        }
        self.usage = 0;
    }

    /// Place `entry` without growing and without moving any other slot.
    ///
    /// The slot already holding the key is reused; failing that, a free slot
    /// is taken; failing that (the store is full), a slot is forced: one
    /// whose key hashes to the same value modulo the capacity, or else the
    /// slot the new key hashes to. What the chosen slot held comes back as
    /// the clash, with the slot's index.
    pub fn insert(&mut self, entry: Entry<V>) -> (r: (Option<Entry<V>>, usize))
        requires
            old(self).wf(),
            old(self)@.len() > 0,
        ensures
            final(self).wf(),
            final(self).seed() == old(self).seed(),
            r.1 < old(self)@.len(),
            final(self)@ == old(self)@.update(r.1 as int, Some(entry)),
            r.0 == old(self)@[r.1 as int],
            has_key(old(self)@, entry.key) ==> holds_key(old(self)@, r.1 as int, entry.key),
            r.0 is Some <==> (has_key(old(self)@, entry.key) || live_count(old(self)@) == old(
                self,
            )@.len()),
            !has_key(old(self)@, entry.key) && live_count(old(self)@) == old(self)@.len() && (exists|j: int|
                0 <= j < old(self)@.len() && probe_match(old(self)@, j, entry.key, old(self).seed(), 2))
                ==> probe_match(old(self)@, r.1 as int, entry.key, old(self).seed(), 2),
            !has_key(old(self)@, entry.key) && live_count(old(self)@) == old(self)@.len() && !(exists|j: int|
                0 <= j < old(self)@.len() && probe_match(old(self)@, j, entry.key, old(self).seed(), 2))
                ==> r.1 == (old(self).spec_hash(entry.key) % (old(self)@.len() as u64)) as usize,
    {
        let key = entry.key;
        proof {
            lemma_live_count_bound(self@);
        }
        let found = self.probe(key, 0);
        proof {
            self.lemma_probe_key(key, found);
        }
        let idx = match found {
            Some(i) => i,
            None => match self.probe(key, 1) {
                Some(i) => {
                    assert(probe_match(self@, i as int, key, self.seed(), 1));
                    i
                },
                None => match self.probe(key, 2) {
                    Some(i) => i,
                    None => (self.hash(key) % (self.table.len() as u64)) as usize,
                },
            },
        };
        proof {
            lemma_live_count_update(self@, idx as int, Some(entry));
            if live_count(self@) < self@.len() && !has_key(self@, key) {
                assert(exists|j: int| 0 <= j < self@.len() && self@[j] is None);
                let j = choose|j: int| 0 <= j < self@.len() && self@[j] is None;
                assert(probe_match(self@, j, key, self.seed(), 1));
                assert(self@[idx as int] is None);
            }
            if live_count(self@) == self@.len() {
                assert(self@[idx as int] is Some);
            }
            assert forall|a: int, b: int|
                0 <= a < self@.len() && 0 <= b < self@.len()
                    && self@.update(idx as int, Some(entry))[a] is Some
                    && self@.update(idx as int, Some(entry))[b] is Some
                    && self@.update(idx as int, Some(entry))[a]->Some_0.key
                    == self@.update(idx as int, Some(entry))[b]->Some_0.key implies a == b by {
                if a != idx && b != idx {
                } else if a == idx && b != idx {
                    assert(holds_key(self@, b, key));
                } else if a != idx && b == idx {
                    assert(holds_key(self@, a, key));
                }
            }
        }
        let ghost s0 = self@;
        let mut slot = Some(entry);
        std::mem::swap(&mut slot, &mut self.table[idx]);
        proof {
            assert(self@ == s0.update(idx as int, Some(entry)));
            lemma_live_count_bound(self@);
        }
        let cap = self.table.len();
        if slot.is_none() {
            assert(s0[idx as int] is None);
            assert(live_count(self@) == live_count(s0) + 1);
            assert(self.usage < cap);
            self.usage = self.usage + 1;
        }
        (slot, idx)
    }

    proof fn lemma_same_keys(&self, idx: usize, e: Entry<V>)
        requires
            self.wf(),
            idx < self@.len(),
            self@[idx as int] is Some,
            e.key == self@[idx as int]->Some_0.key,
        ensures
            live_count(self@.update(idx as int, Some(e))) == live_count(self@),
            keys_unique(self@.update(idx as int, Some(e))),
    {
        lemma_live_count_update(self@, idx as int, Some(e));
        let s2 = self@.update(idx as int, Some(e));
        assert forall|a: int, b: int|
            0 <= a < s2.len() && 0 <= b < s2.len() && s2[a] is Some && s2[b] is Some
                && s2[a]->Some_0.key == s2[b]->Some_0.key implies a == b by {
            assert(self@[a] is Some && self@[b] is Some);
        }
    }

    /// Overwrite the chain handles of occupied slot `idx`.
    pub fn set_links(&mut self, idx: usize, head: Option<usize>, tail: Option<usize>)
        requires
            old(self).wf(),
            idx < old(self)@.len(),
            old(self)@[idx as int] is Some,
        ensures
            final(self).wf(),
            final(self).seed() == old(self).seed(),
            final(self)@ == old(self)@.update(
                idx as int,
                Some(
                    Entry { toward_head: head, toward_tail: tail, ..old(self)@[idx as int]->Some_0 },
                ),
            ),
    {
        proof {
            self.lemma_same_keys(
                idx,
                Entry { toward_head: head, toward_tail: tail, ..self@[idx as int]->Some_0 },
            );
        }
        match &mut self.table[idx] {
            Some(e) => {
                e.toward_head = head;
                e.toward_tail = tail;
            },
            None => {},
        }
    }

    /// Overwrite the handle toward the head of occupied slot `idx`.
    pub fn set_head_ptr(&mut self, idx: usize, head: Option<usize>)
        requires
            old(self).wf(),
            idx < old(self)@.len(),
            old(self)@[idx as int] is Some,
        ensures
            final(self).wf(),
            final(self).seed() == old(self).seed(),
            final(self)@ == old(self)@.update(
                idx as int,
                Some(Entry { toward_head: head, ..old(self)@[idx as int]->Some_0 }),
            ),
    {
        proof {
            self.lemma_same_keys(idx, Entry { toward_head: head, ..self@[idx as int]->Some_0 });
        }
        match &mut self.table[idx] {
            Some(e) => {
                e.toward_head = head;
            },
            None => {},
        }
    }

    /// Overwrite the handle toward the tail of occupied slot `idx`.
    pub fn set_tail_ptr(&mut self, idx: usize, tail: Option<usize>)
        requires
            old(self).wf(),
            idx < old(self)@.len(),
            old(self)@[idx as int] is Some,
        ensures
            final(self).wf(),
            final(self).seed() == old(self).seed(),
            final(self)@ == old(self)@.update(
                idx as int,
                Some(Entry { toward_tail: tail, ..old(self)@[idx as int]->Some_0 }),
            ),
    {
        proof {
            self.lemma_same_keys(idx, Entry { toward_tail: tail, ..self@[idx as int]->Some_0 });
        }
        match &mut self.table[idx] {
            Some(e) => {
                e.toward_tail = tail;
            },
            None => {},
        }
    }

    /// Stamp occupied slot `idx` with the id of the cache that owns it.
    pub fn set_cache_id(&mut self, idx: usize, cache_id: u8)
        requires
            old(self).wf(),
            idx < old(self)@.len(),
            old(self)@[idx as int] is Some,
        ensures
            final(self).wf(),
            final(self).seed() == old(self).seed(),
            final(self)@ == old(self)@.update(
                idx as int,
                Some(Entry { cache_id, ..old(self)@[idx as int]->Some_0 }),
            ),
    {
        proof {
            self.lemma_same_keys(idx, Entry { cache_id, ..self@[idx as int]->Some_0 });
        }
        match &mut self.table[idx] {
            Some(e) => {
                e.cache_id = cache_id;
            },
            None => {},
        }
    }

    /// Age the frequency tag of occupied slot `idx` toward generation
    /// `current`, then count one access there if `count` is set.
    pub fn touch(&mut self, idx: usize, current: Generation, count: bool)
        requires
            old(self).wf(),
            idx < old(self)@.len(),
            old(self)@[idx as int] is Some,
        ensures
            final(self).wf(),
            final(self).seed() == old(self).seed(),
            final(self)@ == old(self)@.update(
                idx as int,
                Some(
                    Entry {
                        freq: if count {
                            old(self)@[idx as int]->Some_0.freq.aged(current).bumped()
                        } else {
                            old(self)@[idx as int]->Some_0.freq.aged(current)
                        },
                        ..old(self)@[idx as int]->Some_0
                    },
                ),
            ),
    {
        let ghost e0 = self@[idx as int]->Some_0;
        let ghost f = if count { e0.freq.aged(current).bumped() } else { e0.freq.aged(current) };
        proof {
            self.lemma_same_keys(idx, Entry { freq: f, ..e0 });
        }
        match &mut self.table[idx] {
            Some(e) => {
                e.freq.age(current);
                if count {
                    e.freq.add();
                }
            },
            None => {},
        }
    }

    /// The value of occupied slot `idx`, to change in place. Nothing else
    /// in the slot can change through it.
    pub fn val_mut(&mut self, idx: usize) -> (r: &mut V)
        requires
            old(self).wf(),
            idx < old(self)@.len(),
            old(self)@[idx as int] is Some,
        ensures
            *r == old(self)@[idx as int]->Some_0.val,
            final(self)@ == old(self)@.update(idx as int, Some(Entry { val: *final(r), ..old(self)@[idx as int]->Some_0 })),
            final(self).spec_usage() == old(self).spec_usage(),
            final(self).seed() == old(self).seed(),
    {
        self.table[idx].as_mut().unwrap().val_mut_ref()
    }

    /// Overwrite the frequency tag of occupied slot `idx`.
    pub fn set_freq(&mut self, idx: usize, freq: Full)
        requires
            old(self).wf(),
            idx < old(self)@.len(),
            old(self)@[idx as int] is Some,
        ensures
            final(self).wf(),
            final(self).seed() == old(self).seed(),
            final(self)@ == old(self)@.update(idx as int, Some(Entry { freq, ..old(self)@[idx as int]->Some_0 })),
    {
        proof {
            self.lemma_same_keys(idx, Entry { freq, ..self@[idx as int]->Some_0 });
        }
        match &mut self.table[idx] {
            Some(e) => {
                e.freq = freq;
            },
            None => {},
        }
    }
}

} // verus!
