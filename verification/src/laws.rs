//! The library's global guarantees, stated on their own so that a reader
//! finds them in one place. Each follows from the component contracts and
//! is proved here, not assumed.

use vstd::prelude::*;
use crate::fact::Fact;
use crate::chain::{chain_ok, chain_in_bounds, origin_of};
use crate::store::FactStore;
use crate::finished::{lemma_len_for_identity, FinishedStore};
use crate::engine::seeded_chain;
use crate::index::Adjacency;

verus! {

/// In a well-formed finished store, consecutive facts of every stored
/// chain are linked: each fact's boundary name equals the next fact's
/// place name.
pub proof fn lemma_finished_chains_linked(s: FinishedStore, facts: Seq<Fact>)
    requires
        s.wf(facts),
    ensures
        forall|t: int, i: int|
            0 <= t < s.chains@.len() && 0 <= i < (#[trigger] s.chains@[t])@.len() - 1
                ==> facts[#[trigger] s.chains@[t]@[i] as int].boundary_name@ == facts[s.chains@[t]@[i
                + 1] as int].place_name@,
{
    assert forall|t: int, i: int|
        0 <= t < s.chains@.len() && 0 <= i < (#[trigger] s.chains@[t])@.len()
            - 1 implies facts[#[trigger] s.chains@[t]@[i] as int].boundary_name@ == facts[s.chains@[t]@[
        i + 1] as int].place_name@ by {
        assert(chain_ok(facts, s.chains@[t]@));
    }
}

/// In a well-formed finished store, no stored chain repeats a place
/// identifier and none repeats a boundary identifier.
pub proof fn lemma_finished_ids_distinct(s: FinishedStore, facts: Seq<Fact>)
    requires
        s.wf(facts),
    ensures
        forall|t: int, i: int, j: int|
            0 <= t < s.chains@.len() && 0 <= i < j < (#[trigger] s.chains@[t])@.len()
                ==> facts[#[trigger] s.chains@[t]@[i] as int].place_id != facts[#[trigger] s.chains@[t]@[j] as int].place_id
                && facts[s.chains@[t]@[i] as int].boundary_id != facts[s.chains@[t]@[j] as int].boundary_id,
{
    assert forall|t: int, i: int, j: int|
        0 <= t < s.chains@.len() && 0 <= i < j < (
        #[trigger] s.chains@[t])@.len() implies facts[#[trigger] s.chains@[t]@[i] as int].place_id
        != facts[#[trigger] s.chains@[t]@[j] as int].place_id && facts[s.chains@[t]@[i] as int].boundary_id
        != facts[s.chains@[t]@[j] as int].boundary_id by {
        assert(chain_ok(facts, s.chains@[t]@));
    }
}

/// A well-formed finished store holds at most one chain per origin
/// identity.
pub proof fn lemma_one_chain_per_origin(s: FinishedStore, facts: Seq<Fact>)
    requires
        s.wf(facts),
    ensures
        forall|t1: int, t2: int|
            0 <= t1 < t2 < s.chains@.len() ==> !origin_of(
                facts,
                (#[trigger] s.chains@[t1])@,
            ).same_identity_spec(origin_of(facts, (#[trigger] s.chains@[t2])@)),
{
}

/// Over a well-formed fact store, no chain — wherever it lives — passes
/// through a self-named fact: such facts were excluded at construction.
pub proof fn lemma_no_self_named_in_chain(store: FactStore, c: Seq<usize>)
    requires
        store.wf(),
        chain_in_bounds(store.facts@, c),
    ensures
        forall|i: int| 0 <= i < c.len() ==> !facts_at(store, c, i).self_named(),
{
}

/// The fact a chain passes through at position `i`.
pub open spec fn facts_at(store: FactStore, c: Seq<usize>, i: int) -> Fact {
    store.facts@[c[i] as int]
}

/// Re-running the engine is idempotent in the recorded lengths: any two
/// finished stores that are complete (every seeded well-formed chain's
/// length is attained for its origin) and sound (every non-empty record
/// is the length of some seeded well-formed chain of its origin) agree on
/// the length recorded for every origin. A drained, ungoverned run from
/// an empty store yields exactly such a store, by the search driver's
/// contract.
pub proof fn lemma_clean_runs_agree(
    facts: Seq<Fact>,
    adj: Adjacency,
    fin1: FinishedStore,
    fin2: FinishedStore,
    o: Fact,
)
    requires
        fin1.wf(facts),
        fin2.wf(facts),
        forall|c: Seq<usize>|
            seeded_chain(facts, adj, c) ==> #[trigger] fin1.len_for(facts, origin_of(facts, c))
                >= c.len(),
        forall|c: Seq<usize>|
            seeded_chain(facts, adj, c) ==> #[trigger] fin2.len_for(facts, origin_of(facts, c))
                >= c.len(),
        forall|o2: Fact|
            #[trigger] fin1.len_for(facts, o2) == 0 || exists|c: Seq<usize>|
                seeded_chain(facts, adj, c) && origin_of(facts, c).same_identity_spec(o2)
                    && c.len() == fin1.len_for(facts, o2),
        forall|o2: Fact|
            #[trigger] fin2.len_for(facts, o2) == 0 || exists|c: Seq<usize>|
                seeded_chain(facts, adj, c) && origin_of(facts, c).same_identity_spec(o2)
                    && c.len() == fin2.len_for(facts, o2),
    ensures
        fin1.len_for(facts, o) == fin2.len_for(facts, o),
{
    if fin1.len_for(facts, o) > fin2.len_for(facts, o) {
        assert(fin1.len_for(facts, o) != 0);
        let c = choose|c: Seq<usize>|
            seeded_chain(facts, adj, c) && origin_of(facts, c).same_identity_spec(o) && c.len()
                == fin1.len_for(facts, o);
        assert(fin2.len_for(facts, origin_of(facts, c)) >= c.len());
        lemma_len_for_identity(fin2, facts, origin_of(facts, c), o);
        assert(false);
    }
    if fin2.len_for(facts, o) > fin1.len_for(facts, o) {
        assert(fin2.len_for(facts, o) != 0);
        let c = choose|c: Seq<usize>|
            seeded_chain(facts, adj, c) && origin_of(facts, c).same_identity_spec(o) && c.len()
                == fin2.len_for(facts, o);
        assert(fin1.len_for(facts, origin_of(facts, c)) >= c.len());
        lemma_len_for_identity(fin1, facts, origin_of(facts, c), o);
        assert(false);
    }
}

} // verus!
