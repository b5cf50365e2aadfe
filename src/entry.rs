//! Slot record of the store, and the frequency tag that S-W-TinyLFU keeps in it.
use vstd::prelude::*;

verus! {

/// Largest value a frequency counter reaches: it saturates there.
pub const COUNTER_MAX: u32 = 0x1fff_ffff;

/// The two epochs of the lazy counter aging. Neither is older than the
/// other: every flip makes the previous one stale.
#[derive(PartialEq, Eq, Structural, Clone, Copy, Debug)]
pub enum Generation {
    Day,
    Night,
}

impl Generation {
    pub open spec fn flipped(self) -> Generation {
        match self {
            Generation::Day => Generation::Night,
            Generation::Night => Generation::Day,
        }
    }

    pub fn flip(self) -> (r: Generation)
        ensures
            r == self.flipped(),
            r != self,
    {
        match self {
            Generation::Day => Generation::Night,
            Generation::Night => Generation::Day,
        }
    }
}

/// A frequency counter together with the generation it was last aged in.
#[derive(PartialEq, Eq, Structural, Clone, Copy, Debug)]
pub struct Full {
    pub counter: u32,
    pub generation: Generation,
}

impl Full {
    /// The counter after lazy aging: halved once if its generation is stale.
    pub open spec fn aged(self, current: Generation) -> Full {
        if self.generation == current {
            self
        } else {
            Full { counter: self.counter / 2, generation: current }
        }
    }

    /// The counter after one more access, saturating at `COUNTER_MAX`.
    pub open spec fn bumped(self) -> Full {
        Full {
            counter: if self.counter < COUNTER_MAX { (self.counter + 1) as u32 } else { self.counter },
            generation: self.generation,
        }
    }

    pub fn new() -> (r: Full)
        ensures
            r.counter == 0,
            r.generation == Generation::Day,
    {
        Full { counter: 0, generation: Generation::Day }
    }

    pub fn generation(&self) -> (r: Generation)
        ensures
            r == self.generation,
    {
        self.generation
    }

    pub fn get_counter(&self) -> (r: u32)
        ensures
            r == self.counter,
    {
        self.counter
    }

    /// Halve the counter and switch generation if it is not `current`.
    pub fn age(&mut self, current: Generation)
        ensures
            *final(self) == old(self).aged(current),
    {
        if self.generation != current {
            self.counter = self.counter / 2;
            self.generation = current;
        }
    }

    /// Count one access.
    pub fn add(&mut self)
        ensures
            *final(self) == old(self).bumped(),
    {
        if self.counter < COUNTER_MAX {
            self.counter = self.counter + 1;
        }
    }

    /// The counter after `next` toward the generation `max` carries: a
    /// current counter counts one access; a stale one is halved and takes
    /// that generation.
    pub open spec fn stepped(self, current: Generation) -> Full {
        if self.generation == current {
            self.bumped()
        } else {
            Full { counter: self.counter / 2, generation: current }
        }
    }

    /// Count one access if the counter is in the generation that `max`
    /// carries; otherwise halve it once and move it to that generation.
    pub fn next(&mut self, max: &Full)
        ensures
            *final(self) == old(self).stepped(max.generation),
    {
        if self.generation == max.generation {
            self.add();
        } else {
            self.counter = self.counter / 2;
            self.generation = max.generation;
        }
    }
}

/// Lazy aging halves a counter at most once per generation: aging again
/// toward the same generation changes nothing, and a stale counter is
/// halved exactly once and then carries the current generation.
pub proof fn law_halve_once_per_generation(f: Full, current: Generation)
    ensures
        f.aged(current).aged(current) == f.aged(current),
        f.aged(current).generation == current,
        f.generation != current ==> f.aged(current).counter == f.counter / 2,
        f.generation == current ==> f.aged(current) == f,
{
}

/// One slot of the store: the user's key and value, the id of the cache
/// that owns it, its frequency tag, and the handles (slot indices) of its
/// neighbours in the owner's chain.
pub struct Entry<V> {
    pub cache_id: u8,
    pub freq: Full,
    pub toward_head: Option<usize>,
    pub toward_tail: Option<usize>,
    pub key: u64,
    pub val: V,
}

impl<V> Entry<V> {
    pub fn new_entry(
        head: Option<usize>,
        tail: Option<usize>,
        key: u64,
        val: V,
        cache_id: u8,
    ) -> (r: Entry<V>)
        ensures
            r.toward_head == head,
            r.toward_tail == tail,
            r.key == key,
            r.val == val,
            r.cache_id == cache_id,
            r.freq == (Full { counter: 0, generation: Generation::Day }),
    {
        Entry {
            cache_id,
            freq: Full::new(),
            toward_head: head,
            toward_tail: tail,
            key,
            val,
        }
    }

    pub fn get_head_ptr(&self) -> (r: Option<usize>)
        ensures
            r == self.toward_head,
    {
        self.toward_head
    }

    pub fn get_tail_ptr(&self) -> (r: Option<usize>)
        ensures
            r == self.toward_tail,
    {
        self.toward_tail
    }

    pub fn get_key(&self) -> (r: u64)
        ensures
            r == self.key,
    {
        self.key
    }

    pub fn get_val(&self) -> (r: &V)
        ensures
            *r == self.val,
    {
        &self.val
    }

    pub fn get_cache_id(&self) -> (r: u8)
        ensures
            r == self.cache_id,
    {
        self.cache_id
    }

    /// The value, to change in place.
    pub fn val_mut_ref(&mut self) -> (r: &mut V)
        ensures
            *r == old(self).val,
            *final(self) == (Entry { val: *final(r), ..*old(self) }),
    {
        &mut self.val
    }

    /// Give back the owned parts: key and value.
    pub fn deconstruct(self) -> (r: (u64, V))
        ensures
            r == (self.key, self.val),
    {
        (self.key, self.val)
    }
}

} // verus!
