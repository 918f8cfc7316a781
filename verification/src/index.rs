//! The name index: a mapping from a name to every retained fact whose
//! place bears that name, built once before the search and read-only
//! afterwards. From it the adjacency lists are derived: for each fact, the
//! facts whose place name equals its boundary name, i.e. the candidate
//! continuations of a chain ending in that fact.

use vstd::prelude::*;
use crate::fact::Fact;
use crate::store::FactStore;
use crate::chain::copy_chain;

verus! {

/// Mapping from a place name to the indices of all facts bearing it.
pub struct NameIndex {
    /// The distinct place names seen so far.
    pub keys: Vec<String>,
    /// `vals[a]` lists the facts whose place bears `keys[a]`.
    pub vals: Vec<Vec<usize>>,
}

impl NameIndex {
    /// Structural well-formedness: keys are distinct, every group is
    /// non-empty, every listed index is a fact whose place bears the
    /// group's name, and no group lists an index twice.
    pub open spec fn entries_wf(self, facts: Seq<Fact>) -> bool {
        &&& self.keys@.len() == self.vals@.len()
        &&& forall|a: int, b: int|
            0 <= a < b < self.keys@.len() ==> (#[trigger] self.keys@[a])@ != (
            #[trigger] self.keys@[b])@
        &&& forall|a: int| 0 <= a < self.vals@.len() ==> (#[trigger] self.vals@[a])@.len() >= 1
        &&& forall|a: int, m: int|
            0 <= a < self.vals@.len() && 0 <= m < self.vals@[a]@.len() ==> (
            #[trigger] self.vals@[a]@[m]) < facts.len() && facts[self.vals@[a]@[m] as int].place_name@
                == self.keys@[a]@
        &&& forall|a: int, m1: int, m2: int|
            0 <= a < self.vals@.len() && 0 <= m1 < m2 < self.vals@[a]@.len() ==> (
            #[trigger] self.vals@[a]@[m1]) != (#[trigger] self.vals@[a]@[m2])
    }

    /// Fact `j` is listed under its own place name.
    pub open spec fn lists_fact(self, facts: Seq<Fact>, j: int) -> bool {
        exists|a: int, m: int|
            0 <= a < self.keys@.len() && 0 <= m < self.vals@[a]@.len() && self.keys@[a]@
                == facts[j].place_name@ && (#[trigger] self.vals@[a]@[m]) as int == j
    }

    /// Every fact with index below `n` is listed.
    pub open spec fn complete_upto(self, facts: Seq<Fact>, n: int) -> bool {
        forall|j: int| 0 <= j < n ==> self.lists_fact(facts, j)
    }

    /// A well-formed index over `facts` lists exactly the facts' places.
    pub open spec fn wf(self, facts: Seq<Fact>) -> bool {
        &&& self.entries_wf(facts)
        &&& self.complete_upto(facts, facts.len() as int)
    }

    /// Finds the group slot holding `name`, if any.
    fn find_slot(&self, name: &String) -> (r: Option<usize>)
        ensures
            match r {
                Some(a) => a < self.keys@.len() && self.keys@[a as int]@ == name@,
                None => forall|a: int| 0 <= a < self.keys@.len() ==> (#[trigger] self.keys@[a])@ != name@,
            },
    {
        let mut a: usize = 0;
        while a < self.keys.len()
            invariant
                0 <= a <= self.keys@.len(),
                forall|b: int| 0 <= b < a ==> (#[trigger] self.keys@[b])@ != name@,
            decreases self.keys@.len() - a,
        {
            if self.keys[a] == *name {
                return Some(a);
            }
            a += 1;
        }
        None
    }

    /// Looks a name up: returns the indices of every fact whose place
    /// bears `name`, or nothing when no fact does.
    pub fn lookup<'a>(&'a self, store: &FactStore, name: &String) -> (r: Option<&'a Vec<usize>>)
        requires
            self.wf(store.facts@),
        ensures
            match r {
                Some(v) => {
                    &&& v@.len() >= 1
                    &&& forall|m: int|
                        0 <= m < v@.len() ==> (#[trigger] v@[m]) < store.facts@.len()
                            && store.facts@[v@[m] as int].place_name@ == name@
                    &&& forall|m1: int, m2: int|
                        0 <= m1 < m2 < v@.len() ==> (#[trigger] v@[m1]) != (#[trigger] v@[m2])
                    &&& forall|k: int|
                        0 <= k < store.facts@.len() && (#[trigger] store.facts@[k]).place_name@
                            == name@ ==> exists|m: int| 0 <= m < v@.len() && (#[trigger] v@[m]) as int == k
                },
                None => forall|k: int|
                    0 <= k < store.facts@.len() ==> (#[trigger] store.facts@[k]).place_name@ != name@,
            },
    {
        let ghost facts = store.facts@;
        match self.find_slot(name) {
            Some(a) => {
                let v = &self.vals[a];
                proof {
                    assert forall|k: int|
                        0 <= k < facts.len() && (#[trigger] facts[k]).place_name@ == name@ implies exists|m: int|
                        0 <= m < v@.len() && (#[trigger] v@[m]) as int == k by {
                        assert(self.lists_fact(facts, k));
                        let (a2, m) = choose|a2: int, m: int|
                            0 <= a2 < self.keys@.len() && 0 <= m < self.vals@[a2]@.len()
                                && self.keys@[a2]@ == facts[k].place_name@ && (
                            #[trigger] self.vals@[a2]@[m]) as int == k;
                        if a2 != a {
                            assert(self.keys@[a2]@ != self.keys@[a as int]@);
                            assert(false);
                        }
                        assert(v@[m] as int == k);
                    }
                }
                Some(v)
            },
            None => {
                proof {
                    assert forall|k: int|
                        0 <= k < facts.len() implies (#[trigger] facts[k]).place_name@ != name@ by {
                        if facts[k].place_name@ == name@ {
                            assert(self.lists_fact(facts, k));
                        }
                    }
                }
                None
            },
        }
    }

    /// Builds the name index by a single pass over the retained facts.
    pub fn build(store: &FactStore) -> (idx: NameIndex)
        ensures
            idx.wf(store.facts@),
    {
        let ghost facts = store.facts@;
        let mut idx = NameIndex { keys: Vec::new(), vals: Vec::new() };
        let mut j: usize = 0;
        while j < store.len()
            invariant
                0 <= j <= facts.len(),
                facts == store.facts@,
                idx.entries_wf(facts),
                idx.complete_upto(facts, j as int),
                forall|a: int, m: int|
                    0 <= a < idx.vals@.len() && 0 <= m < idx.vals@[a]@.len() ==> (
                #[trigger] idx.vals@[a]@[m]) < j,
            decreases facts.len() - j,
        {
            let name = &store.get(j).place_name;
            let ghost old_idx = idx;
            match idx.find_slot(name) {
                Some(a) => {
                    idx.vals[a].push(j);
                    proof {
                        assert(idx.keys@ == old_idx.keys@);
                        assert(idx.vals@.len() == old_idx.vals@.len());
                        assert(idx.vals@[a as int]@ == old_idx.vals@[a as int]@.push(j));
                        assert(forall|b: int|
                            0 <= b < idx.vals@.len() && b != a ==> idx.vals@[b]
                                == old_idx.vals@[b]);
                        assert forall|jj: int| 0 <= jj < j + 1 implies idx.lists_fact(facts, jj) by {
                            if jj < j {
                                assert(old_idx.lists_fact(facts, jj));
                                let (a2, m) = choose|a2: int, m: int|
                                    0 <= a2 < old_idx.keys@.len() && 0 <= m
                                        < old_idx.vals@[a2]@.len() && old_idx.keys@[a2]@
                                        == facts[jj].place_name@ && (
                                    #[trigger] old_idx.vals@[a2]@[m]) as int == jj;
                                assert(idx.vals@[a2]@[m] as int == jj);
                            } else {
                                let m = idx.vals@[a as int]@.len() - 1;
                                assert(idx.vals@[a as int]@[m] as int == jj);
                            }
                        }
                    }
                },
                None => {
                    let mut group: Vec<usize> = Vec::new();
                    group.push(j);
                    idx.keys.push(name.clone());
                    idx.vals.push(group);
                    proof {
                        let a = idx.keys@.len() - 1;
                        assert(idx.keys@[a]@ == facts[j as int].place_name@);
                        assert(idx.vals@[a]@ =~= seq![j]);
                        assert forall|jj: int| 0 <= jj < j + 1 implies idx.lists_fact(facts, jj) by {
                            if jj < j {
                                assert(old_idx.lists_fact(facts, jj));
                                let (a2, m) = choose|a2: int, m: int|
                                    0 <= a2 < old_idx.keys@.len() && 0 <= m
                                        < old_idx.vals@[a2]@.len() && old_idx.keys@[a2]@
                                        == facts[jj].place_name@ && (
                                    #[trigger] old_idx.vals@[a2]@[m]) as int == jj;
                                assert(idx.vals@[a2]@[m] as int == jj);
                            } else {
                                assert(idx.vals@[a]@[0] as int == jj);
                            }
                        }
                    }
                },
            }
            j += 1;
        }
        idx
    }
}

/// For each fact, the indices of the facts whose place name equals its
/// boundary name: the candidate continuations of a chain ending there.
pub struct Adjacency {
    /// `succ[j]` lists the candidates that may follow fact `j`.
    pub succ: Vec<Vec<usize>>,
}

impl Adjacency {
    /// The lists are exact: sound, duplicate-free and complete.
    pub open spec fn wf(self, facts: Seq<Fact>) -> bool {
        &&& self.succ@.len() == facts.len()
        &&& forall|j: int, m: int|
            0 <= j < self.succ@.len() && 0 <= m < self.succ@[j]@.len() ==> (
            #[trigger] self.succ@[j]@[m]) < facts.len() && facts[self.succ@[j]@[m] as int].place_name@
                == facts[j].boundary_name@
        &&& forall|j: int, m1: int, m2: int|
            0 <= j < self.succ@.len() && 0 <= m1 < m2 < self.succ@[j]@.len() ==> (
            #[trigger] self.succ@[j]@[m1]) != (#[trigger] self.succ@[j]@[m2])
        &&& forall|j: int, k: int|
            0 <= j < self.succ@.len() && 0 <= k < facts.len() && (
            #[trigger] facts[k]).place_name@ == (#[trigger] facts[j]).boundary_name@ ==> exists|m: int|
                0 <= m < self.succ@[j]@.len() && (#[trigger] self.succ@[j]@[m]) as int == k
    }
}

/// Derives the adjacency lists from the name index: for each fact, the
/// outcome of looking its boundary name up.
pub fn build_adjacency(store: &FactStore, idx: &NameIndex) -> (adj: Adjacency)
    requires
        idx.wf(store.facts@),
    ensures
        adj.wf(store.facts@),
{
    let ghost facts = store.facts@;
    let mut succ: Vec<Vec<usize>> = Vec::new();
    let mut j: usize = 0;
    while j < store.len()
        invariant
            0 <= j <= facts.len(),
            facts == store.facts@,
            idx.wf(facts),
            succ@.len() == j,
            forall|jj: int, m: int|
                0 <= jj < j && 0 <= m < succ@[jj]@.len() ==> (#[trigger] succ@[jj]@[m])
                    < facts.len() && facts[succ@[jj]@[m] as int].place_name@
                    == facts[jj].boundary_name@,
            forall|jj: int, m1: int, m2: int|
                0 <= jj < j && 0 <= m1 < m2 < succ@[jj]@.len() ==> (#[trigger] succ@[jj]@[m1]) != (
                #[trigger] succ@[jj]@[m2]),
            forall|jj: int, k: int|
                0 <= jj < j && 0 <= k < facts.len() && (#[trigger] facts[k]).place_name@ == (
                #[trigger] facts[jj]).boundary_name@ ==> exists|m: int|
                    0 <= m < succ@[jj]@.len() && (#[trigger] succ@[jj]@[m]) as int == k,
        decreases facts.len() - j,
    {
        let name = &store.get(j).boundary_name;
        let group: Vec<usize> = match idx.lookup(store, name) {
            Some(v) => {
                let g = copy_chain(v);
                proof {
                    assert forall|k: int|
                        0 <= k < facts.len() && (#[trigger] facts[k]).place_name@
                            == facts[j as int].boundary_name@ implies exists|m: int|
                        0 <= m < g@.len() && (#[trigger] g@[m]) as int == k by {
                        let m = choose|m: int|
                            0 <= m < v@.len() && (#[trigger] v@[m]) as int == k;
                        assert(g@[m] as int == k);
                    }
                }
                g
            },
            None => Vec::new(),
        };
        succ.push(group);
        proof {
            assert forall|jj: int, k: int|
                0 <= jj < j + 1 && 0 <= k < facts.len() && (#[trigger] facts[k]).place_name@ == (
                #[trigger] facts[jj]).boundary_name@ implies exists|m: int|
                0 <= m < succ@[jj]@.len() && (#[trigger] succ@[jj]@[m]) as int == k by {
                if jj == j {
                    assert(succ@[jj] == group);
                    let m = choose|m: int|
                        0 <= m < group@.len() && (#[trigger] group@[m]) as int == k;
                    assert(succ@[jj]@[m] as int == k);
                } else {
                    let m = choose|m: int|
                        0 <= m < succ@[jj]@.len() && (#[trigger] succ@[jj]@[m]) as int == k;
                    assert(succ@[jj]@[m] as int == k);
                }
            }
        }
        j += 1;
    }
    Adjacency { succ }
}

} // verus!
