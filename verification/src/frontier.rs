//! The frontier: the bounded, priority-ordered multiset of in-progress
//! chains awaiting extension. An entry pairs a chain with its priority key:
//! primarily the chain's length (longer first), tie-broken by the running
//! distance score (lower first — the score falls by each step's distance,
//! so chains covering more ground are preferred). Ties beyond the key are
//! resolved arbitrarily.

use vstd::prelude::*;
use crate::fact::Fact;
use crate::chain::chain_ok;

verus! {

/// One frontier entry: a chain and the distance part of its priority key.
pub struct Entry {
    /// Running distance score: starts at zero for a seed and falls by the
    /// geodesic distance of each appended step.
    pub dist: i64,
    /// The chain, as indices into the fact store.
    pub chain: Vec<usize>,
}

/// Entry `a` has priority at least that of `b`: a longer chain wins, and
/// among equal lengths the lower distance score wins.
pub open spec fn prio_ge(a: Entry, b: Entry) -> bool {
    ||| a.chain@.len() > b.chain@.len()
    ||| (a.chain@.len() == b.chain@.len() && a.dist <= b.dist)
}

/// The bounded priority multiset of live chains.
pub struct Frontier {
    /// The live entries, in no particular order.
    pub entries: Vec<Entry>,
}

impl Frontier {
    /// Every chain held by the frontier is well-formed.
    pub open spec fn all_ok(self, facts: Seq<Fact>) -> bool {
        forall|i: int|
            0 <= i < self.entries@.len() ==> chain_ok(facts, (#[trigger] self.entries@[i]).chain@)
    }

    pub fn new() -> (f: Frontier)
        ensures
            f.entries@.len() == 0,
    {
        Frontier { entries: Vec::new() }
    }

    pub fn len(&self) -> (n: usize)
        ensures
            n == self.entries@.len(),
    {
        self.entries.len()
    }

    /// Adds an entry; duplicates are permitted.
    pub fn insert(&mut self, e: Entry)
        ensures
            final(self).entries@ == old(self).entries@.push(e),
    {
        self.entries.push(e);
    }

    /// Removes and returns an entry of highest priority, or nothing when
    /// the frontier is empty.
    pub fn pop_highest(&mut self) -> (r: Option<Entry>)
        ensures
            match r {
                None => old(self).entries@.len() == 0 && final(self).entries@ == old(self).entries@,
                Some(e) => {
                    &&& old(self).entries@.len() >= 1
                    &&& exists|i: int|
                        0 <= i < old(self).entries@.len() && old(self).entries@[i] == e
                            && final(self).entries@ == old(self).entries@.remove(i)
                    &&& forall|j: int|
                        0 <= j < old(self).entries@.len() ==> prio_ge(
                            e,
                            #[trigger] old(self).entries@[j],
                        )
                },
            },
    {
        if self.entries.len() == 0 {
            return None;
        }
        let i = self.best_slot(true);
        let e = self.entries.remove(i);
        Some(e)
    }

    /// Removes and returns an entry of lowest priority, or nothing when
    /// the frontier is empty; the memory governor's failsafe.
    pub fn pop_lowest(&mut self) -> (r: Option<Entry>)
        ensures
            match r {
                None => old(self).entries@.len() == 0 && final(self).entries@ == old(self).entries@,
                Some(e) => {
                    &&& old(self).entries@.len() >= 1
                    &&& exists|i: int|
                        0 <= i < old(self).entries@.len() && old(self).entries@[i] == e
                            && final(self).entries@ == old(self).entries@.remove(i)
                    &&& forall|j: int|
                        0 <= j < old(self).entries@.len() ==> prio_ge(
                            #[trigger] old(self).entries@[j],
                            e,
                        )
                },
            },
    {
        if self.entries.len() == 0 {
            return None;
        }
        let i = self.best_slot(false);
        let e = self.entries.remove(i);
        Some(e)
    }

    /// Finds the position of a highest-priority (`highest` set) or
    /// lowest-priority (`highest` clear) entry.
    fn best_slot(&self, highest: bool) -> (best: usize)
        requires
            self.entries@.len() >= 1,
        ensures
            best < self.entries@.len(),
            highest ==> forall|j: int|
                0 <= j < self.entries@.len() ==> prio_ge(
                    self.entries@[best as int],
                    #[trigger] self.entries@[j],
                ),
            !highest ==> forall|j: int|
                0 <= j < self.entries@.len() ==> prio_ge(
                    #[trigger] self.entries@[j],
                    self.entries@[best as int],
                ),
    {
        let mut best: usize = 0;
        let mut i: usize = 1;
        while i < self.entries.len()
            invariant
                0 <= best < i <= self.entries@.len(),
                highest ==> forall|j: int|
                    0 <= j < i ==> prio_ge(self.entries@[best as int], #[trigger] self.entries@[j]),
                !highest ==> forall|j: int|
                    0 <= j < i ==> prio_ge(#[trigger] self.entries@[j], self.entries@[best as int]),
            decreases self.entries@.len() - i,
        {
            let a = &self.entries[i];
            let b = &self.entries[best];
            let update = if highest {
                // candidate of strictly higher priority
                a.chain.len() > b.chain.len() || (a.chain.len() == b.chain.len() && a.dist < b.dist)
            } else {
                // candidate of strictly lower priority
                a.chain.len() < b.chain.len() || (a.chain.len() == b.chain.len() && a.dist > b.dist)
            };
            if update {
                best = i;
            }
            i += 1;
        }
        best
    }
}

} // verus!
