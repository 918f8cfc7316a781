//! The chain model: an ordered walk through containment facts, linked by
//! name equality between one fact's boundary and the next fact's place,
//! with no repeated place identifier and no repeated boundary identifier.
//!
//! A chain is a sequence of indices into the fact store. Chains are
//! immutable: extending one copies the prefix and appends a single index,
//! so a chain still held elsewhere is never changed.

use vstd::prelude::*;
use crate::fact::Fact;

verus! {

/// Every index of the chain points into the fact store.
pub open spec fn chain_in_bounds(facts: Seq<Fact>, c: Seq<usize>) -> bool {
    forall|i: int| 0 <= i < c.len() ==> (#[trigger] c[i]) < facts.len()
}

/// Consecutive facts are linked: the boundary name of each fact equals the
/// place name of the next.
pub open spec fn chain_linked(facts: Seq<Fact>, c: Seq<usize>) -> bool {
    forall|i: int|
        0 <= i < c.len() - 1 ==> facts[#[trigger] c[i] as int].boundary_name@
            == facts[c[i + 1] as int].place_name@
}

/// No two facts of the chain share a place identifier, and no two share a
/// boundary identifier; this is the cycle and reuse guard.
pub open spec fn chain_ids_distinct(facts: Seq<Fact>, c: Seq<usize>) -> bool {
    forall|i: int, j: int|
        0 <= i < j < c.len() ==> facts[#[trigger] c[i] as int].place_id
            != facts[#[trigger] c[j] as int].place_id && facts[c[i] as int].boundary_id
            != facts[c[j] as int].boundary_id
}

/// A well-formed chain: non-empty, in bounds, linked, and free of repeated
/// identifiers.
pub open spec fn chain_ok(facts: Seq<Fact>, c: Seq<usize>) -> bool {
    &&& c.len() >= 1
    &&& chain_in_bounds(facts, c)
    &&& chain_linked(facts, c)
    &&& chain_ids_distinct(facts, c)
}

/// The origin of a chain is its first fact; two chains are deduplicated by
/// the identity of their origins.
pub open spec fn origin_of(facts: Seq<Fact>, c: Seq<usize>) -> Fact
    recommends
        chain_ok(facts, c),
{
    facts[c[0] as int]
}

/// The candidate fact `k` may extend chain `c` iff its place identifier and
/// its boundary identifier occur nowhere in `c`.
pub open spec fn may_extend(facts: Seq<Fact>, c: Seq<usize>, k: usize) -> bool {
    forall|i: int|
        0 <= i < c.len() ==> facts[#[trigger] c[i] as int].place_id != facts[k as int].place_id
            && facts[c[i] as int].boundary_id != facts[k as int].boundary_id
}

/// Decides whether `k` may extend `c` (the cycle and reuse guard).
pub fn can_extend(facts: &Vec<Fact>, c: &Vec<usize>, k: usize) -> (r: bool)
    requires
        chain_in_bounds(facts@, c@),
        k < facts@.len(),
    ensures
        r == may_extend(facts@, c@, k),
{
    let cand = &facts[k];
    let mut i: usize = 0;
    while i < c.len()
        invariant
            0 <= i <= c@.len(),
            chain_in_bounds(facts@, c@),
            k < facts@.len(),
            cand == facts@[k as int],
            forall|j: int|
                0 <= j < i ==> facts@[#[trigger] c@[j] as int].place_id != facts@[k as int].place_id
                    && facts@[c@[j] as int].boundary_id != facts@[k as int].boundary_id,
        decreases c@.len() - i,
    {
        let f = &facts[c[i]];
        if f.place_id == cand.place_id || f.boundary_id == cand.boundary_id {
            return false;
        }
        i += 1;
    }
    true
}

/// Copies a chain; the copy shares no storage with the original.
pub fn copy_chain(c: &Vec<usize>) -> (r: Vec<usize>)
    ensures
        r@ == c@,
{
    let mut r: Vec<usize> = Vec::new();
    let mut i: usize = 0;
    while i < c.len()
        invariant
            0 <= i <= c@.len(),
            r@ == c@.take(i as int),
        decreases c@.len() - i,
    {
        r.push(c[i]);
        assert(c@.take(i + 1 as int) == c@.take(i as int).push(c@[i as int]));
        i += 1;
    }
    assert(c@.take(c@.len() as int) == c@);
    r
}

/// Extending a well-formed chain with an admissible linked candidate yields
/// a well-formed chain.
pub proof fn lemma_extend_ok(facts: Seq<Fact>, c: Seq<usize>, k: usize)
    requires
        chain_ok(facts, c),
        k < facts.len(),
        facts[c[c.len() - 1] as int].boundary_name@ == facts[k as int].place_name@,
        may_extend(facts, c, k),
    ensures
        chain_ok(facts, c.push(k)),
        origin_of(facts, c.push(k)) == origin_of(facts, c),
{
    let c2 = c.push(k);
    assert forall|i: int| 0 <= i < c2.len() - 1 implies facts[#[trigger] c2[i] as int].boundary_name@
        == facts[c2[i + 1] as int].place_name@ by {
        if i < c.len() - 1 {
            assert(c2[i] == c[i]);
            assert(c2[i + 1] == c[i + 1]);
        } else {
            assert(c2[i] == c[c.len() - 1]);
            assert(c2[i + 1] == k);
        }
    }
}

} // verus!
