//! Lazy scan: a cursor that walks one chain from head to tail, one step per
//! operation, applying the scan function to each entry it reaches.
use vstd::prelude::*;
use crate::entry::{Entry, Generation};
use crate::hashmap::SimpleHmap;

verus! {

/// What a scan does to each entry it visits.
#[derive(PartialEq, Eq, Structural, Clone, Copy, Debug)]
pub enum ScanFn {
    /// Visit without touching anything.
    Nothing,
    /// Halve the entry's counter once if its generation is not the given one.
    Halve(Generation),
}

/// The store after the scan function `f` was applied to slot `idx`.
pub open spec fn applied<V>(s: Seq<Option<Entry<V>>>, idx: int, f: ScanFn) -> Seq<Option<Entry<V>>> {
    match f {
        ScanFn::Nothing => s,
        ScanFn::Halve(g) => s.update(
            idx,
            Some(Entry { freq: s[idx]->Some_0.freq.aged(g), ..s[idx]->Some_0 }),
        ),
    }
}

/// The cursor may advance from where it stands: it is off, or it stands on
/// an occupied slot whose successor is absent or occupied.
pub open spec fn cursor_ok<V>(s: Seq<Option<Entry<V>>>, last: Option<usize>) -> bool {
    match last {
        None => true,
        Some(l) => {
            &&& l < s.len()
            &&& s[l as int] is Some
            &&& match s[l as int]->Some_0.toward_tail {
                None => true,
                Some(n) => n < s.len() && s[n as int] is Some,
            }
        },
    }
}

pub struct Scan {
    last: Option<usize>,
    f: ScanFn,
}

impl Scan {
    /// The entry visited last, or `None` when no scan is running.
    pub closed spec fn cursor(&self) -> Option<usize> {
        self.last
    }

    pub closed spec fn spec_f(&self) -> ScanFn {
        self.f
    }

    pub fn new(f: ScanFn) -> (r: Scan)
        ensures
            r.cursor() is None,
            r.spec_f() == f,
    {
        Scan { last: None, f }
    }

    pub fn set_scanf(&mut self, f: ScanFn)
        ensures
            final(self).cursor() == old(self).cursor(),
            final(self).spec_f() == f,
    {
        self.f = f;
    }

    pub fn is_running(&self) -> (r: bool)
        ensures
            r == self.cursor() is Some,
    {
        self.last.is_some()
    }

    /// Visit `entry` and start walking from it.
    pub fn start_scan<V>(&mut self, store: &mut SimpleHmap<V>, entry: usize)
        requires
            old(store).wf(),
            entry < old(store)@.len(),
            old(store)@[entry as int] is Some,
        ensures
            final(store).wf(),
            final(store).seed() == old(store).seed(),
            final(store)@ == applied(old(store)@, entry as int, old(self).spec_f()),
            final(self).cursor() == Some(entry),
            final(self).spec_f() == old(self).spec_f(),
    {
        self.apply_raw(store, entry);
        self.last = Some(entry);
    }

    pub fn stop(&mut self)
        ensures
            final(self).cursor() is None,
            final(self).spec_f() == old(self).spec_f(),
    {
        self.last = None;
    }

    /// Apply the scan function to `entry` without moving the cursor.
    pub fn apply_raw<V>(&self, store: &mut SimpleHmap<V>, entry: usize)
        requires
            old(store).wf(),
            entry < old(store)@.len(),
            old(store)@[entry as int] is Some,
        ensures
            final(store).wf(),
            final(store).seed() == old(store).seed(),
            final(store)@ == applied(old(store)@, entry as int, self.spec_f()),
    {
        match self.f {
            ScanFn::Nothing => {},
            ScanFn::Halve(g) => {
                store.touch(entry, g, false);
            },
        }
    }

    /// Step to the successor of the last visited entry and visit it; stop
    /// when there is none.
    pub fn apply_next<V>(&mut self, store: &mut SimpleHmap<V>)
        requires
            old(store).wf(),
            cursor_ok(old(store)@, old(self).cursor()),
        ensures
            final(store).wf(),
            final(store).seed() == old(store).seed(),
            final(self).spec_f() == old(self).spec_f(),
            final(self).cursor() == match old(self).cursor() {
                None => None,
                Some(l) => old(store)@[l as int]->Some_0.toward_tail,
            },
            final(store)@ == match final(self).cursor() {
                None => old(store)@,
                Some(n) => applied(old(store)@, n as int, old(self).spec_f()),
            },
    {
        match self.last {
            None => {},
            Some(l) => {
                let next = match store.get_index(l) {
                    Some(e) => e.toward_tail,
                    None => None,
                };
                match next {
                    None => {
                        self.last = None;
                    },
                    Some(n) => {
                        self.apply_raw(store, n);
                        self.last = Some(n);
                    },
                }
            },
        }
    }

    /// Called before `entry` leaves its chain: a cursor standing on it
    /// moves on, so that it never dangles.
    pub fn check_and_next<V>(&mut self, store: &mut SimpleHmap<V>, entry: usize)
        requires
            old(store).wf(),
            cursor_ok(old(store)@, old(self).cursor()),
        ensures
            final(store).wf(),
            final(store).seed() == old(store).seed(),
            final(self).spec_f() == old(self).spec_f(),
            old(self).cursor() != Some(entry) ==> final(self).cursor() == old(self).cursor()
                && final(store)@ == old(store)@,
            old(self).cursor() == Some(entry) ==> final(self).cursor()
                == old(store)@[entry as int]->Some_0.toward_tail,
            old(self).cursor() == Some(entry) ==> (final(store)@ == match final(self).cursor() {
                None => old(store)@,
                Some(n) => applied(old(store)@, n as int, old(self).spec_f()),
            }),
    {
        if self.last == Some(entry) {
            self.apply_next(store);
        }
    }
}

} // verus!
