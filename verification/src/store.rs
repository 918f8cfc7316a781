//! The containment fact store: the filtered set of facts retained for the
//! search. Candidates arrive already restricted to the allowed place
//! categories and to non-empty names; construction groups them by place
//! identifier and discards every group in which some fact's place name
//! equals its own boundary name.

use vstd::prelude::*;
use crate::fact::Fact;

verus! {

/// The place identifier `id` is tainted in `input`: some fact with that
/// place identifier is self-named, so the whole group is discarded.
pub open spec fn tainted_id(input: Seq<Fact>, id: u64) -> bool {
    exists|k: int|
        0 <= k < input.len() && (#[trigger] input[k]).place_id == id && input[k].self_named()
}

/// The filtered, immutable set of containment facts.
pub struct FactStore {
    /// The retained facts; all other components refer to them by index.
    pub facts: Vec<Fact>,
}

impl FactStore {
    /// No retained fact is self-named.
    pub open spec fn wf(self) -> bool {
        forall|j: int| 0 <= j < self.facts@.len() ==> !(#[trigger] self.facts@[j]).self_named()
    }

    pub fn len(&self) -> (n: usize)
        ensures
            n == self.facts@.len(),
    {
        self.facts.len()
    }

    pub fn get(&self, j: usize) -> (f: &Fact)
        requires
            j < self.facts@.len(),
        ensures
            *f == self.facts@[j as int],
    {
        &self.facts[j]
    }
}

/// Does `seen` hold `id`?
fn ids_contain(seen: &Vec<u64>, id: u64) -> (r: bool)
    ensures
        r == seen@.contains(id),
{
    let mut i: usize = 0;
    while i < seen.len()
        invariant
            0 <= i <= seen@.len(),
            forall|j: int| 0 <= j < i ==> seen@[j] != id,
        decreases seen@.len() - i,
    {
        if seen[i] == id {
            assert(seen@.contains(id));
            return true;
        }
        i += 1;
    }
    false
}

/// Builds the fact store: retains exactly the candidates whose place
/// identifier group holds no self-named fact, in input order. Rows are
/// kept as given — the contract's filter equation pins this down — so a
/// candidate repeated in the input, identifiers and all, yields repeated
/// facts; deduplication of observations is the ingesting caller's choice,
/// and identity-keyed components collapse equal identifier pairs anyway.
pub fn build_fact_store(input: &Vec<Fact>) -> (store: FactStore)
    ensures
        store.wf(),
        store.facts@ == input@.filter(|f: Fact| !tainted_id(input@, f.place_id)),
{
    // First pass: collect the tainted place identifiers.
    let mut bad: Vec<u64> = Vec::new();
    let mut i: usize = 0;
    while i < input.len()
        invariant
            0 <= i <= input@.len(),
            forall|id: u64| #[trigger] bad@.contains(id) ==> tainted_id(input@, id),
            forall|k: int|
                0 <= k < i && (#[trigger] input@[k]).self_named() ==> bad@.contains(
                    input@[k].place_id,
                ),
        decreases input@.len() - i,
    {
        if input[i].is_self_named() {
            let id = input[i].place_id;
            let ghost prev = bad@;
            bad.push(id);
            proof {
                assert(bad@[bad@.len() - 1] == id);
                assert(bad@.contains(id));
                assert forall|x: u64| #[trigger] bad@.contains(x) implies tainted_id(input@, x) by {
                    let w = choose|w: int| 0 <= w < bad@.len() && bad@[w] == x;
                    if w < prev.len() {
                        assert(prev[w] == x);
                        assert(prev.contains(x));
                    } else {
                        assert(x == id);
                    }
                }
                assert forall|k: int|
                    0 <= k < i + 1 && (#[trigger] input@[k]).self_named() implies bad@.contains(
                    input@[k].place_id,
                ) by {
                    if k < i {
                        assert(prev.contains(input@[k].place_id));
                        let w = choose|w: int| 0 <= w < prev.len() && prev[w] == input@[k].place_id;
                        assert(bad@[w] == input@[k].place_id);
                    } else {
                        assert(bad@[bad@.len() - 1] == input@[k].place_id);
                    }
                }
            }
        }
        i += 1;
    }
    let ghost pred = |f: Fact| !tainted_id(input@, f.place_id);
    // Second pass: retain the candidates whose group is clean.
    let mut facts: Vec<Fact> = Vec::new();
    let mut j: usize = 0;
    while j < input.len()
        invariant
            0 <= j <= input@.len(),
            forall|id: u64| #[trigger] bad@.contains(id) <==> tainted_id(input@, id),
            pred == (|f: Fact| !tainted_id(input@, f.place_id)),
            facts@ == input@.take(j as int).filter(pred),
            forall|t: int| 0 <= t < facts@.len() ==> !(#[trigger] facts@[t]).self_named(),
        decreases input@.len() - j,
    {
        let keep = !ids_contain(&bad, input[j].place_id);
        let ghost prevf = facts@;
        proof {
            reveal(Seq::filter);
            assert(input@.take(j + 1).drop_last() =~= input@.take(j as int));
            assert(input@.take(j + 1).last() == input@[j as int]);
            if keep && input@[j as int].self_named() {
                // the fact itself would taint its own group
                assert(tainted_id(input@, input@[j as int].place_id));
            }
        }
        if keep {
            facts.push(input[j].clone());
            proof {
                assert forall|t: int| 0 <= t < facts@.len() implies !(
                #[trigger] facts@[t]).self_named() by {
                    if t < prevf.len() {
                        assert(facts@[t] == prevf[t]);
                    } else {
                        assert(facts@[t] == input@[j as int]);
                    }
                }
            }
        }
        j += 1;
    }
    proof {
        assert(input@.take(input@.len() as int) == input@);
    }
    FactStore { facts }
}

} // verus!
