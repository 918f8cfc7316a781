//! The search driver and the memory governor: the best-first main loop
//! that drains the frontier, extends chains through the adjacency lists,
//! commits finished chains under the longest-wins rule, keeps the frontier
//! within its capacity, polls an external stop request once per iteration,
//! and bounds the whole run by a hard iteration ceiling.

use vstd::prelude::*;
use core::sync::atomic::AtomicBool;
use crate::fact::Fact;
use crate::chain::{chain_ok, may_extend, origin_of, can_extend, copy_chain, lemma_extend_ok};
use crate::store::FactStore;
use crate::index::Adjacency;
use crate::frontier::{prio_ge, Entry, Frontier};
use crate::finished::FinishedStore;

verus! {

/// Default frontier capacity.
pub const DEFAULT_CAPACITY: usize = 8000000;

/// Default archive-retention margin: a chain more than this many steps
/// shorter than the longest recorded for its origin may be pruned.
pub const DEFAULT_MARGIN: usize = 10;

/// Default hard iteration ceiling, a defensive liveness bound.
pub const DEFAULT_CEILING: u64 = 1000000000000;

/// The configuration the search accepts.
pub struct SearchConfig {
    /// Frontier capacity: the governor runs when the frontier grows past it.
    pub capacity: usize,
    /// Archive-retention margin of the governor.
    pub margin: usize,
    /// Hard ceiling on the number of main-loop iterations.
    pub ceiling: u64,
}

impl SearchConfig {
    pub fn defaults() -> (c: SearchConfig)
        ensures
            c.capacity == DEFAULT_CAPACITY,
            c.margin == DEFAULT_MARGIN,
            c.ceiling == DEFAULT_CEILING,
    {
        SearchConfig {
            capacity: DEFAULT_CAPACITY,
            margin: DEFAULT_MARGIN,
            ceiling: DEFAULT_CEILING,
        }
    }
}

/// The per-edge distance table is parallel to the adjacency lists:
/// `dists[j][m]` is the non-negative rounded geodesic distance between the
/// place of fact `j` and the place of its `m`-th candidate continuation.
/// The caller computes it; the spherical trigonometry itself is not the
/// search core's concern.
pub open spec fn dists_wf(facts: Seq<Fact>, adj: Adjacency, dists: Seq<Vec<i64>>) -> bool {
    &&& dists.len() == facts.len()
    &&& forall|j: int| 0 <= j < dists.len() ==> (#[trigger] dists[j])@.len() == adj.succ@[j]@.len()
    &&& forall|j: int, m: int|
        0 <= j < dists.len() && 0 <= m < dists[j]@.len() ==> 0 <= #[trigger] dists[j]@[m]
}

/// Why the main loop ended.
#[derive(Clone, Copy, Debug, PartialEq, Eq, Structural)]
pub enum EndReason {
    /// The frontier ran out of chains to extend.
    FrontierEmpty,
    /// The external stop request was observed.
    StopRequested,
    /// The hard iteration ceiling was reached.
    CeilingReached,
}

/// What a run reports besides its effect on the engine.
pub struct RunOutcome {
    /// Why the loop ended.
    pub reason: EndReason,
    /// Whether the memory governor was ever invoked.
    pub governed: bool,
    /// When the loop ended on the stop request: the head index of the one
    /// chain that had just been popped and is dropped unrecorded, the
    /// run's only such loss.
    pub stopped_on: Option<usize>,
}

/// The engine still holds entry-sized progress for origin `o`: either the
/// finished store records a chain of length at least `n` for it, or a
/// live chain of that origin and at least that length sits in `es`.
pub open spec fn covered(
    fin: FinishedStore,
    es: Seq<Entry>,
    facts: Seq<Fact>,
    o: Fact,
    n: int,
) -> bool {
    ||| fin.len_for(facts, o) >= n
    ||| exists|t: int|
        0 <= t < es.len() && origin_of(facts, (#[trigger] es[t]).chain@).same_identity_spec(o)
            && es[t].chain@.len() >= n
}

/// A well-formed chain whose head the search would seed: its first
/// fact's boundary name is continuable at all.
pub open spec fn seeded_chain(facts: Seq<Fact>, adj: Adjacency, c: Seq<usize>) -> bool {
    &&& chain_ok(facts, c)
    &&& adj.succ@[c[0] as int]@.len() >= 1
}

/// The engine still holds everything chain `c` calls for: its origin's
/// record has reached `c`'s length, the frontier holds an at least as
/// long chain of the same origin, or a proper prefix of `c` is still
/// awaiting extension.
pub open spec fn chain_covered(
    fin: FinishedStore,
    es: Seq<Entry>,
    facts: Seq<Fact>,
    c: Seq<usize>,
) -> bool {
    ||| fin.len_for(facts, origin_of(facts, c)) >= c.len()
    ||| exists|t: int|
        0 <= t < es.len() && ({
            let d = (#[trigger] es[t]).chain@;
            ||| (origin_of(facts, d).same_identity_spec(origin_of(facts, c)) && d.len() >= c.len())
            ||| (d.len() < c.len() && d == c.take(d.len() as int) && d.len() >= 1)
        })
}

/// Coverage survives growth: records never shrink and the frontier keeps
/// its old entries in place.
proof fn lemma_covered_still(
    fin1: FinishedStore,
    fin2: FinishedStore,
    es1: Seq<Entry>,
    es2: Seq<Entry>,
    facts: Seq<Fact>,
    o: Fact,
    n: int,
)
    requires
        covered(fin1, es1, facts, o, n),
        forall|o2: Fact| #[trigger] fin2.len_for(facts, o2) >= fin1.len_for(facts, o2),
        es2.len() >= es1.len(),
        forall|t: int| 0 <= t < es1.len() ==> #[trigger] es2[t] == es1[t],
    ensures
        covered(fin2, es2, facts, o, n),
{
    if fin1.len_for(facts, o) >= n {
        assert(fin2.len_for(facts, o) >= fin1.len_for(facts, o));
    } else {
        let t = choose|t: int|
            0 <= t < es1.len() && origin_of(facts, (#[trigger] es1[t]).chain@).same_identity_spec(o)
                && es1[t].chain@.len() >= n;
        assert(es2[t] == es1[t]);
        assert(origin_of(facts, es2[t].chain@).same_identity_spec(o));
    }
}

/// Coverage survives removing one entry of a different origin.
proof fn lemma_covered_after_remove(
    fin: FinishedStore,
    pre: Seq<Entry>,
    facts: Seq<Fact>,
    o: Fact,
    n: int,
    i0: int,
)
    requires
        covered(fin, pre, facts, o, n),
        0 <= i0 < pre.len(),
        !origin_of(facts, pre[i0].chain@).same_identity_spec(o),
    ensures
        covered(fin, pre.remove(i0), facts, o, n),
{
    if fin.len_for(facts, o) < n {
        let t = choose|t: int|
            0 <= t < pre.len() && origin_of(facts, (#[trigger] pre[t]).chain@).same_identity_spec(o)
                && pre[t].chain@.len() >= n;
        assert(t != i0);
        let s = if t < i0 {
            t
        } else {
            t - 1
        };
        assert(pre.remove(i0)[s] == pre[t]);
        assert(origin_of(facts, pre.remove(i0)[s].chain@).same_identity_spec(o));
    }
}

/// A highest-priority entry bounds every covering witness: coverage then
/// rests on the finished store or fits within that entry's length.
proof fn lemma_covered_bound(
    fin: FinishedStore,
    es: Seq<Entry>,
    facts: Seq<Fact>,
    o: Fact,
    n: int,
    e: Entry,
)
    requires
        covered(fin, es, facts, o, n),
        forall|t: int| 0 <= t < es.len() ==> prio_ge(e, #[trigger] es[t]),
    ensures
        fin.len_for(facts, o) >= n || e.chain@.len() >= n,
{
    if fin.len_for(facts, o) < n {
        let t = choose|t: int|
            0 <= t < es.len() && origin_of(facts, (#[trigger] es[t]).chain@).same_identity_spec(o)
                && es[t].chain@.len() >= n;
        assert(prio_ge(e, es[t]));
    }
}

/// Coverage transfers along origin identity and down in length.
proof fn lemma_covered_weaken(
    fin: FinishedStore,
    es: Seq<Entry>,
    facts: Seq<Fact>,
    o1: Fact,
    o2: Fact,
    n1: int,
    n2: int,
)
    requires
        covered(fin, es, facts, o1, n1),
        o1.same_identity_spec(o2),
        n2 <= n1,
        fin.wf(facts),
    ensures
        covered(fin, es, facts, o2, n2),
{
    if fin.len_for(facts, o1) >= n1 {
        crate::finished::lemma_len_for_identity(fin, facts, o1, o2);
    } else {
        let t = choose|t: int|
            0 <= t < es.len() && origin_of(facts, (#[trigger] es[t]).chain@).same_identity_spec(o1)
                && es[t].chain@.len() >= n1;
        assert(origin_of(facts, es[t].chain@).same_identity_spec(o2));
    }
}

/// Coverage plus an archive pass over the frontier — as the governor and
/// the final flush perform — puts the record itself at the needed length,
/// for any coverage above seed length.
proof fn lemma_covered_archived(
    fin1: FinishedStore,
    fin2: FinishedStore,
    es1: Seq<Entry>,
    facts: Seq<Fact>,
    o: Fact,
    n: int,
)
    requires
        covered(fin1, es1, facts, o, n),
        n > 1,
        fin2.wf(facts),
        forall|o2: Fact| #[trigger] fin2.len_for(facts, o2) >= fin1.len_for(facts, o2),
        forall|t: int|
            0 <= t < es1.len() && (#[trigger] es1[t]).chain@.len() > 1 ==> fin2.len_for(
                facts,
                origin_of(facts, es1[t].chain@),
            ) >= es1[t].chain@.len(),
    ensures
        fin2.len_for(facts, o) >= n,
{
    if fin1.len_for(facts, o) >= n {
        assert(fin2.len_for(facts, o) >= fin1.len_for(facts, o));
    } else {
        let t = choose|t: int|
            0 <= t < es1.len() && origin_of(facts, (#[trigger] es1[t]).chain@).same_identity_spec(o)
                && es1[t].chain@.len() >= n;
        assert(fin2.len_for(facts, origin_of(facts, es1[t].chain@)) >= es1[t].chain@.len());
        crate::finished::lemma_len_for_identity(fin2, facts, origin_of(facts, es1[t].chain@), o);
    }
}

/// One main-loop iteration keeps every covered origin covered: a popped
/// witness is either outdone by the popped entry's own restored coverage
/// (the pop takes a highest-priority entry, so no witness was longer) or
/// it was not the witness at all and survives the removal.
proof fn lemma_covered_through_iteration(
    fin_top: FinishedStore,
    es_top: Seq<Entry>,
    fin_now: FinishedStore,
    es_now: Seq<Entry>,
    facts: Seq<Fact>,
    o: Fact,
    n: int,
    e: Entry,
    i0: int,
)
    requires
        covered(fin_top, es_top, facts, o, n),
        0 <= i0 < es_top.len(),
        es_top[i0] == e,
        forall|t: int| 0 <= t < es_top.len() ==> prio_ge(e, #[trigger] es_top[t]),
        es_now.len() >= es_top.len() - 1,
        forall|t: int| 0 <= t < es_top.len() - 1 ==> #[trigger] es_now[t] == es_top.remove(i0)[t],
        forall|o2: Fact| #[trigger] fin_now.len_for(facts, o2) >= fin_top.len_for(facts, o2),
        fin_now.wf(facts),
        covered(fin_now, es_now, facts, origin_of(facts, e.chain@), e.chain@.len() as int),
    ensures
        covered(fin_now, es_now, facts, o, n),
{
    lemma_covered_bound(fin_top, es_top, facts, o, n, e);
    if fin_top.len_for(facts, o) >= n {
        assert(fin_now.len_for(facts, o) >= fin_top.len_for(facts, o));
    } else {
        assert(e.chain@.len() >= n);
        if origin_of(facts, e.chain@).same_identity_spec(o) {
            lemma_covered_weaken(
                fin_now,
                es_now,
                facts,
                origin_of(facts, e.chain@),
                o,
                e.chain@.len() as int,
                n,
            );
        } else {
            lemma_covered_after_remove(fin_top, es_top, facts, o, n, i0);
            lemma_covered_still(fin_top, fin_now, es_top.remove(i0), es_now, facts, o, n);
        }
    }
}

/// The search engine: the frontier of live chains, the finished-chain
/// store, the step counter and the configuration.
pub struct Engine {
    /// Live chains awaiting extension.
    pub frontier: Frontier,
    /// Longest finished chain per origin.
    pub finished: FinishedStore,
    /// Main-loop iterations performed so far.
    pub steps_done: u64,
    /// The run's configuration.
    pub config: SearchConfig,
}

impl Engine {
    /// Both chain collections hold only well-formed chains.
    pub open spec fn wf(self, facts: Seq<Fact>) -> bool {
        &&& self.frontier.all_ok(facts)
        &&& self.finished.wf(facts)
    }

    /// Fact `j` is present as a length-one seed chain.
    pub open spec fn seeded(fr: Frontier, j: int) -> bool {
        exists|i: int|
            0 <= i < fr.entries@.len() && (#[trigger] fr.entries@[i]).chain@.len() == 1
                && fr.entries@[i].chain@[0] as int == j
    }

    pub fn new(config: SearchConfig) -> (e: Engine)
        ensures
            e.frontier.entries@.len() == 0,
            e.finished.chains@.len() == 0,
            e.steps_done == 0,
            e.config == config,
    {
        Engine { frontier: Frontier::new(), finished: FinishedStore::new(), steps_done: 0, config }
    }

    /// Seeds the frontier: one length-one chain, at distance score zero,
    /// for every fact whose boundary name can be continued at all.
    pub fn seed(&mut self, store: &FactStore, adj: &Adjacency)
        requires
            old(self).frontier.entries@.len() == 0,
            old(self).finished.wf(store.facts@),
            adj.wf(store.facts@),
        ensures
            final(self).finished == old(self).finished,
            final(self).steps_done == old(self).steps_done,
            final(self).config == old(self).config,
            final(self).wf(store.facts@),
            forall|i: int|
                0 <= i < final(self).frontier.entries@.len() ==> {
                    let e = #[trigger] final(self).frontier.entries@[i];
                    &&& e.chain@.len() == 1
                    &&& e.dist == 0
                    &&& e.chain@[0] < store.facts@.len()
                    &&& adj.succ@[e.chain@[0] as int]@.len() >= 1
                },
            forall|j: int|
                0 <= j < store.facts@.len() && (#[trigger] adj.succ@[j])@.len() >= 1
                    ==> Self::seeded(final(self).frontier, j),
            forall|i1: int, i2: int|
                0 <= i1 < i2 < final(self).frontier.entries@.len() ==> (#[trigger] final(self).frontier.entries@[i1]).chain@[0] != (#[trigger] final(self).frontier.entries@[i2]).chain@[0],
    {
        let ghost facts = store.facts@;
        let mut j: usize = 0;
        while j < store.len()
            invariant
                0 <= j <= facts.len(),
                facts == store.facts@,
                adj.wf(facts),
                self.finished == old(self).finished,
                self.steps_done == old(self).steps_done,
                self.config == old(self).config,
                self.finished.wf(facts),
                forall|i: int|
                    0 <= i < self.frontier.entries@.len() ==> {
                        let e = #[trigger] self.frontier.entries@[i];
                        &&& e.chain@.len() == 1
                        &&& e.dist == 0
                        &&& e.chain@[0] < facts.len()
                        &&& adj.succ@[e.chain@[0] as int]@.len() >= 1
                    },
                forall|jj: int|
                    0 <= jj < j && (#[trigger] adj.succ@[jj])@.len() >= 1 ==> Self::seeded(
                        self.frontier,
                        jj,
                    ),
                forall|i: int|
                    0 <= i < self.frontier.entries@.len() ==> (#[trigger] self.frontier.entries@[i]).chain@[0] < j,
                forall|i1: int, i2: int|
                    0 <= i1 < i2 < self.frontier.entries@.len() ==> (#[trigger] self.frontier.entries@[i1]).chain@[0] != (#[trigger] self.frontier.entries@[i2]).chain@[0],
            decreases facts.len() - j,
        {
            let ghost pre = self.frontier;
            if adj.succ[j].len() > 0 {
                let mut c: Vec<usize> = Vec::new();
                c.push(j);
                self.frontier.insert(Entry { dist: 0, chain: c });
                proof {
                    let n = self.frontier.entries@.len() - 1;
                    assert(self.frontier.entries@[n].chain@ =~= seq![j]);
                    assert forall|i1: int, i2: int|
                        0 <= i1 < i2 < self.frontier.entries@.len() implies (
                    #[trigger] self.frontier.entries@[i1]).chain@[0] != (
                    #[trigger] self.frontier.entries@[i2]).chain@[0] by {
                        if i2 == n {
                            assert(self.frontier.entries@[i1] == pre.entries@[i1]);
                            assert(self.frontier.entries@[i1].chain@[0] < j);
                            assert(self.frontier.entries@[i2].chain@[0] == j);
                        } else {
                            assert(self.frontier.entries@[i1] == pre.entries@[i1]);
                            assert(self.frontier.entries@[i2] == pre.entries@[i2]);
                        }
                    }
                    assert forall|jj: int|
                        0 <= jj < j + 1 && (#[trigger] adj.succ@[jj])@.len()
                            >= 1 implies Self::seeded(self.frontier, jj) by {
                        if jj < j {
                            let i = choose|i: int|
                                0 <= i < pre.entries@.len() && (#[trigger] pre.entries@[i]).chain@.len()
                                    == 1 && pre.entries@[i].chain@[0] as int == jj;
                            assert(self.frontier.entries@[i] == pre.entries@[i]);
                        } else {
                            assert(self.frontier.entries@[n].chain@.len() == 1
                                && self.frontier.entries@[n].chain@[0] as int == jj);
                        }
                    }
                }
            }
            j += 1;
        }
        proof {
            assert forall|i: int| 0 <= i < self.frontier.entries@.len() implies chain_ok(
                facts,
                (#[trigger] self.frontier.entries@[i]).chain@,
            ) by {
                let e = self.frontier.entries@[i];
                assert(e.chain@.len() == 1);
            }
        }
    }

    /// The memory governor. First every chain of length above one still in
    /// the frontier is archived into the finished store under the
    /// longest-wins rule, so that no result is lost to pruning; then the
    /// chains that have fallen more than the margin behind their origin's
    /// record are dropped (seeds are always retained); finally, while the
    /// frontier still exceeds its capacity, lowest-priority entries are
    /// discarded one by one.
    pub fn enforce_capacity(&mut self, store: &FactStore)
        requires
            old(self).wf(store.facts@),
        ensures
            final(self).steps_done == old(self).steps_done,
            final(self).config == old(self).config,
            final(self).wf(store.facts@),
            final(self).frontier.entries@.len() <= old(self).config.capacity,
            forall|i: int|
                0 <= i < final(self).frontier.entries@.len() ==> exists|i0: int|
                    0 <= i0 < old(self).frontier.entries@.len() && #[trigger] final(self).frontier.entries@[i] == old(self).frontier.entries@[i0],
            forall|i: int|
                0 <= i < old(self).frontier.entries@.len() && (#[trigger] old(self).frontier.entries@[i]).chain@.len() > 1 ==> final(self).finished.len_for(
                    store.facts@,
                    origin_of(store.facts@, old(self).frontier.entries@[i].chain@),
                ) >= old(self).frontier.entries@[i].chain@.len(),
            forall|o: Fact|
                #[trigger] final(self).finished.len_for(store.facts@, o) >= old(self).finished.len_for(store.facts@, o),
            (old(self).config.capacity >= 1 && exists|i: int|
                0 <= i < old(self).frontier.entries@.len() && (#[trigger] old(self).frontier.entries@[i]).chain@.len() == 1) ==> final(self).frontier.entries@.len() >= 1,
            forall|o: Fact|
                #[trigger] final(self).finished.len_for(store.facts@, o) == old(self).finished.len_for(store.facts@, o) || exists|i: int|
                    0 <= i < old(self).frontier.entries@.len() && origin_of(
                        store.facts@,
                        (#[trigger] old(self).frontier.entries@[i]).chain@,
                    ).same_identity_spec(o) && old(self).frontier.entries@[i].chain@.len()
                        == final(self).finished.len_for(store.facts@, o),
    {
        let ghost facts = store.facts@;
        // Archive: record every in-progress chain of length above one.
        let mut i: usize = 0;
        while i < self.frontier.len()
            invariant
                0 <= i <= self.frontier.entries@.len(),
                facts == store.facts@,
                self.frontier == old(self).frontier,
                self.steps_done == old(self).steps_done,
                self.config == old(self).config,
                self.frontier.all_ok(facts),
                self.finished.wf(facts),
                forall|o: Fact|
                    #[trigger] self.finished.len_for(facts, o) >= old(self).finished.len_for(
                        facts,
                        o,
                    ),
                forall|t: int|
                    0 <= t < i && (#[trigger] self.frontier.entries@[t]).chain@.len() > 1
                        ==> self.finished.len_for(
                        facts,
                        origin_of(facts, self.frontier.entries@[t].chain@),
                    ) >= self.frontier.entries@[t].chain@.len(),
                forall|o: Fact|
                    #[trigger] self.finished.len_for(facts, o) == old(self).finished.len_for(
                        facts,
                        o,
                    ) || exists|t: int|
                        0 <= t < self.frontier.entries@.len() && origin_of(
                            facts,
                            (#[trigger] self.frontier.entries@[t]).chain@,
                        ).same_identity_spec(o) && self.frontier.entries@[t].chain@.len()
                            == self.finished.len_for(facts, o),
            decreases self.frontier.entries@.len() - i,
        {
            let elen = self.frontier.entries[i].chain.len();
            if elen > 1 {
                let c = copy_chain(&self.frontier.entries[i].chain);
                let ghost fin_pre = self.finished;
                self.finished.commit(store, &c);
                proof {
                    let co = origin_of(facts, c@);
                    assert forall|o: Fact| #[trigger] self.finished.len_for(facts, o) >= fin_pre.len_for(
                        facts,
                        o,
                    ) by {
                        if o.same_identity_spec(co) {
                            crate::finished::lemma_len_for_identity(self.finished, facts, o, co);
                            crate::finished::lemma_len_for_identity(fin_pre, facts, o, co);
                        }
                    }
                    assert forall|o: Fact|
                        #[trigger] self.finished.len_for(facts, o) == old(self).finished.len_for(
                        facts,
                        o,
                    ) || (exists|t: int|
                        0 <= t < self.frontier.entries@.len() && origin_of(
                            facts,
                            (#[trigger] self.frontier.entries@[t]).chain@,
                        ).same_identity_spec(o) && self.frontier.entries@[t].chain@.len()
                            == self.finished.len_for(facts, o)) by {
                        if self.finished.len_for(facts, o) != old(self).finished.len_for(facts, o) {
                            if self.finished.len_for(facts, o) == fin_pre.len_for(facts, o) {
                                let t = choose|t: int|
                                    0 <= t < self.frontier.entries@.len() && origin_of(
                                        facts,
                                        (#[trigger] self.frontier.entries@[t]).chain@,
                                    ).same_identity_spec(o)
                                        && self.frontier.entries@[t].chain@.len()
                                        == fin_pre.len_for(facts, o);
                                assert(self.frontier.entries@[t].chain@.len()
                                    == self.finished.len_for(facts, o));
                            } else {
                                // this archive commit moved the record for o
                                assert(o.same_identity_spec(co));
                                crate::finished::lemma_len_for_identity(self.finished, facts, o, co);
                                crate::finished::lemma_len_for_identity(fin_pre, facts, o, co);
                                assert(self.finished.len_for(facts, co) == c@.len());
                                assert(self.frontier.entries@[i as int].chain@ == c@);
                                assert(origin_of(facts, self.frontier.entries@[i as int].chain@).same_identity_spec(o));
                            }
                        }
                    }
                }
            }
            i += 1;
        }
        proof {
            // restate the record frame over the frontier as it stood on
            // entry, which the remaining phases leave untouched
            assert forall|o: Fact|
                #[trigger] self.finished.len_for(facts, o) == old(self).finished.len_for(facts, o)
                    || (exists|i2: int|
                    0 <= i2 < old(self).frontier.entries@.len() && origin_of(
                        facts,
                        (#[trigger] old(self).frontier.entries@[i2]).chain@,
                    ).same_identity_spec(o) && old(self).frontier.entries@[i2].chain@.len()
                        == self.finished.len_for(facts, o)) by {
                if self.finished.len_for(facts, o) != old(self).finished.len_for(facts, o) {
                    let t = choose|t: int|
                        0 <= t < self.frontier.entries@.len() && origin_of(
                            facts,
                            (#[trigger] self.frontier.entries@[t]).chain@,
                        ).same_identity_spec(o) && self.frontier.entries@[t].chain@.len()
                            == self.finished.len_for(facts, o);
                    assert(old(self).frontier.entries@[t].chain@.len() == self.finished.len_for(
                        facts,
                        o,
                    ));
                    assert(origin_of(facts, old(self).frontier.entries@[t].chain@).same_identity_spec(o));
                }
            }
        }
        let ghost fin2 = self.finished;
        let ghost snap2 = self.frontier;
        // Retention: keep seeds and the chains still within the margin.
        let mut kept: Vec<Entry> = Vec::new();
        while self.frontier.entries.len() > 0
            invariant
                facts == store.facts@,
                self.finished == fin2,
                self.steps_done == old(self).steps_done,
                self.config == old(self).config,
                self.finished.wf(facts),
                snap2.all_ok(facts),
                self.frontier.entries@ == snap2.entries@.take(
                    self.frontier.entries@.len() as int,
                ),
                self.frontier.entries@.len() <= snap2.entries@.len(),
                forall|t: int|
                    0 <= t < kept@.len() ==> exists|i0: int|
                        0 <= i0 < snap2.entries@.len() && #[trigger] kept@[t]
                            == snap2.entries@[i0],
                forall|t: int| 0 <= t < kept@.len() ==> chain_ok(facts, (#[trigger] kept@[t]).chain@),
                (exists|t: int|
                    self.frontier.entries@.len() <= t < snap2.entries@.len() && (
                    #[trigger] snap2.entries@[t]).chain@.len() == 1) ==> (exists|t: int|
                    0 <= t < kept@.len() && (#[trigger] kept@[t]).chain@.len() == 1),
            decreases self.frontier.entries@.len(),
        {
            let ghost pre_len = self.frontier.entries@.len() as int;
            let e = match self.frontier.entries.pop() {
                Some(e) => e,
                None => {
                    proof {
                        assert(false);
                    }
                    return ;
                },
            };
            proof {
                assert(e == snap2.entries@[pre_len - 1]);
                assert(chain_ok(facts, e.chain@));
            }
            let keep = if e.chain.len() == 1 {
                true
            } else {
                let n = self.finished.len_for_exec(store, &e.chain);
                n <= self.config.margin || e.chain.len() >= n - self.config.margin
            };
            let ghost kept_pre = kept@;
            if keep {
                kept.push(e);
            }
            proof {
                assert forall|t: int|
                    self.frontier.entries@.len() <= t < snap2.entries@.len() && (
                    #[trigger] snap2.entries@[t]).chain@.len() == 1 implies (exists|t2: int|
                    0 <= t2 < kept@.len() && (#[trigger] kept@[t2]).chain@.len() == 1) by {
                    if t == pre_len - 1 {
                        assert(kept@[kept@.len() - 1].chain@.len() == 1);
                    } else {
                        let t2 = choose|t2: int|
                            0 <= t2 < kept_pre.len() && (#[trigger] kept_pre[t2]).chain@.len()
                                == 1;
                        assert(kept@[t2].chain@.len() == 1);
                    }
                }
            }
        }
        self.frontier.entries = kept;
        let ghost snap3 = self.frontier;
        // Failsafe: discard lowest-priority entries down to the capacity.
        while self.frontier.len() > self.config.capacity
            invariant
                facts == store.facts@,
                self.finished == fin2,
                self.steps_done == old(self).steps_done,
                self.config == old(self).config,
                self.finished.wf(facts),
                self.frontier.all_ok(facts),
                forall|t: int|
                    0 <= t < self.frontier.entries@.len() ==> exists|i0: int|
                        0 <= i0 < snap3.entries@.len() && #[trigger] self.frontier.entries@[t]
                            == snap3.entries@[i0],
                self.frontier.entries@.len() >= snap3.entries@.len()
                    || self.frontier.entries@.len() >= self.config.capacity,
            decreases self.frontier.entries@.len(),
        {
            let ghost pre = self.frontier;
            match self.frontier.pop_lowest() {
                Some(_e) => {
                    proof {
                        let i0 = choose|i0: int|
                            0 <= i0 < pre.entries@.len() && pre.entries@[i0] == _e
                                && self.frontier.entries@ == pre.entries@.remove(i0);
                        assert forall|t: int|
                            0 <= t < self.frontier.entries@.len() implies exists|w: int|
                            0 <= w < snap3.entries@.len() && #[trigger] self.frontier.entries@[t]
                                == snap3.entries@[w] by {
                            let s = if t < i0 {
                                t
                            } else {
                                t + 1
                            };
                            assert(self.frontier.entries@[t] == pre.entries@[s]);
                            let w = choose|w: int|
                                0 <= w < snap3.entries@.len() && pre.entries@[s]
                                    == snap3.entries@[w];
                            assert(self.frontier.entries@[t] == snap3.entries@[w]);
                        }
                        assert(self.frontier.all_ok(facts)) by {
                            assert forall|t: int|
                                0 <= t < self.frontier.entries@.len() implies chain_ok(
                                facts,
                                (#[trigger] self.frontier.entries@[t]).chain@,
                            ) by {
                                let w = choose|w: int|
                                    0 <= w < snap3.entries@.len() && self.frontier.entries@[t]
                                        == snap3.entries@[w];
                                assert(chain_ok(facts, snap3.entries@[w].chain@));
                            }
                        }
                    }
                },
                None => {
                    proof {
                        assert(false);
                    }
                },
            }
        }
        proof {
            // Surviving entries all come from the frontier as it stood on
            // entry, through the retention set.
            assert forall|t: int| 0 <= t < self.frontier.entries@.len() implies exists|i0: int|
                0 <= i0 < old(self).frontier.entries@.len() && #[trigger] self.frontier.entries@[t]
                    == old(self).frontier.entries@[i0] by {
                let w = choose|w: int|
                    0 <= w < snap3.entries@.len() && self.frontier.entries@[t]
                        == snap3.entries@[w];
                let i0 = choose|i0: int|
                    0 <= i0 < snap2.entries@.len() && snap3.entries@[w] == snap2.entries@[i0];
                assert(self.frontier.entries@[t] == old(self).frontier.entries@[i0]);
            }
        }
    }

    /// Drains the frontier at the end of a run: every chain of length
    /// above one still awaiting extension is committed under the
    /// longest-wins rule, so a truncated run does not silently drop the
    /// progress already made. Length-one seeds are not flushed: the store
    /// changes only at origins for which the frontier held a chain of
    /// length above one.
    pub fn flush_remainder(&mut self, store: &FactStore)
        requires
            old(self).wf(store.facts@),
        ensures
            final(self).steps_done == old(self).steps_done,
            final(self).config == old(self).config,
            final(self).wf(store.facts@),
            final(self).frontier.entries@.len() == 0,
            forall|i: int|
                0 <= i < old(self).frontier.entries@.len() && (#[trigger] old(self).frontier.entries@[i]).chain@.len() > 1
                    ==> final(self).finished.len_for(
                    store.facts@,
                    origin_of(store.facts@, old(self).frontier.entries@[i].chain@),
                ) >= old(self).frontier.entries@[i].chain@.len(),
            forall|o: Fact|
                #[trigger] final(self).finished.len_for(store.facts@, o) >= old(self).finished.len_for(store.facts@, o),
            forall|o: Fact|
                #[trigger] final(self).finished.len_for(store.facts@, o) == old(self).finished.len_for(store.facts@, o) || exists|i: int|
                    0 <= i < old(self).frontier.entries@.len() && (#[trigger] old(self).frontier.entries@[i]).chain@.len() > 1
                        && origin_of(store.facts@, old(self).frontier.entries@[i].chain@).same_identity_spec(o)
                        && old(self).frontier.entries@[i].chain@.len() == final(self).finished.len_for(store.facts@, o),
    {
        let ghost facts = store.facts@;
        let ghost snap = self.frontier;
        while self.frontier.entries.len() > 0
            invariant
                facts == store.facts@,
                self.steps_done == old(self).steps_done,
                self.config == old(self).config,
                self.finished.wf(facts),
                snap == old(self).frontier,
                snap.all_ok(facts),
                self.frontier.entries@ == snap.entries@.take(self.frontier.entries@.len() as int),
                self.frontier.entries@.len() <= snap.entries@.len(),
                forall|o: Fact|
                    #[trigger] self.finished.len_for(facts, o) >= old(self).finished.len_for(facts, o),
                forall|t: int|
                    self.frontier.entries@.len() <= t < snap.entries@.len() && (#[trigger] snap.entries@[t]).chain@.len() > 1
                        ==> self.finished.len_for(facts, origin_of(facts, snap.entries@[t].chain@))
                        >= snap.entries@[t].chain@.len(),
                forall|o: Fact|
                    #[trigger] self.finished.len_for(facts, o) == old(self).finished.len_for(facts, o) || exists|i: int|
                        self.frontier.entries@.len() <= i < snap.entries@.len() && (#[trigger] snap.entries@[i]).chain@.len() > 1
                            && origin_of(facts, snap.entries@[i].chain@).same_identity_spec(o)
                            && snap.entries@[i].chain@.len() == self.finished.len_for(facts, o),
            decreases self.frontier.entries@.len(),
        {
            let ghost pre_len = self.frontier.entries@.len() as int;
            let e = match self.frontier.entries.pop() {
                Some(e) => e,
                None => {
                    proof {
                        assert(false);
                    }
                    return ;
                },
            };
            proof {
                assert(e == snap.entries@[pre_len - 1]);
                assert(chain_ok(facts, e.chain@));
            }
            if e.chain.len() > 1 {
                let ghost fin_pre = self.finished;
                self.finished.commit(store, &e.chain);
                proof {
                    let co = origin_of(facts, e.chain@);
                    assert forall|o: Fact| #[trigger] self.finished.len_for(facts, o) >= fin_pre.len_for(
                        facts,
                        o,
                    ) by {
                        if o.same_identity_spec(co) {
                            crate::finished::lemma_len_for_identity(self.finished, facts, o, co);
                            crate::finished::lemma_len_for_identity(fin_pre, facts, o, co);
                        }
                    }
                    assert forall|t: int|
                        self.frontier.entries@.len() <= t < snap.entries@.len() && (#[trigger] snap.entries@[t]).chain@.len() > 1
                            implies self.finished.len_for(
                        facts,
                        origin_of(facts, snap.entries@[t].chain@),
                    ) >= snap.entries@[t].chain@.len() by {
                        if t > pre_len - 1 {
                            assert(fin_pre.len_for(facts, origin_of(facts, snap.entries@[t].chain@))
                                >= snap.entries@[t].chain@.len());
                        }
                    }
                    assert forall|o: Fact|
                        #[trigger] self.finished.len_for(facts, o) == old(self).finished.len_for(
                        facts,
                        o,
                    ) || (exists|i: int|
                        self.frontier.entries@.len() <= i < snap.entries@.len() && (#[trigger] snap.entries@[i]).chain@.len() > 1
                            && origin_of(facts, snap.entries@[i].chain@).same_identity_spec(o)
                            && snap.entries@[i].chain@.len() == self.finished.len_for(
                            facts,
                            o,
                        )) by {
                        if self.finished.len_for(facts, o) != old(self).finished.len_for(facts, o) {
                            if self.finished.len_for(facts, o) == fin_pre.len_for(facts, o) {
                                let i = choose|i: int|
                                    pre_len <= i < snap.entries@.len() && (#[trigger] snap.entries@[i]).chain@.len() > 1
                                        && origin_of(facts, snap.entries@[i].chain@).same_identity_spec(o)
                                        && snap.entries@[i].chain@.len() == fin_pre.len_for(
                                        facts,
                                        o,
                                    );
                                assert(snap.entries@[i].chain@.len() == self.finished.len_for(
                                    facts,
                                    o,
                                ));
                            } else {
                                // this commit moved the record for o
                                assert(o.same_identity_spec(co));
                                crate::finished::lemma_len_for_identity(self.finished, facts, o, co);
                                crate::finished::lemma_len_for_identity(fin_pre, facts, o, co);
                                assert(self.finished.len_for(facts, co) == e.chain@.len());
                                assert(snap.entries@[pre_len - 1].chain@.len()
                                    == self.finished.len_for(facts, o));
                                assert(origin_of(facts, snap.entries@[pre_len - 1].chain@).same_identity_spec(o));
                            }
                        }
                    }
                }
            } else {
                proof {
                    assert forall|o: Fact|
                        #[trigger] self.finished.len_for(facts, o) == old(self).finished.len_for(
                        facts,
                        o,
                    ) || (exists|i: int|
                        self.frontier.entries@.len() <= i < snap.entries@.len() && (#[trigger] snap.entries@[i]).chain@.len() > 1
                            && origin_of(facts, snap.entries@[i].chain@).same_identity_spec(o)
                            && snap.entries@[i].chain@.len() == self.finished.len_for(
                            facts,
                            o,
                        )) by {
                        if self.finished.len_for(facts, o) != old(self).finished.len_for(facts, o) {
                            let i = choose|i: int|
                                pre_len <= i < snap.entries@.len() && (#[trigger] snap.entries@[i]).chain@.len() > 1
                                    && origin_of(facts, snap.entries@[i].chain@).same_identity_spec(o)
                                    && snap.entries@[i].chain@.len() == self.finished.len_for(
                                    facts,
                                    o,
                                );
                            assert(origin_of(facts, snap.entries@[i].chain@).same_identity_spec(o));
                        }
                    }
                }
            }
        }
    }

    /// The best-first main loop. Each iteration pops the highest-priority
    /// chain, polls the stop request, then either commits the chain (no
    /// continuation exists, or a continuation would reuse an identifier)
    /// or pushes each admissible extension back onto the frontier; the
    /// governor runs whenever the frontier outgrows its capacity, and the
    /// iteration ceiling bounds the loop. Whatever ends the loop — an
    /// empty frontier, the stop request, or the ceiling — the remaining
    /// frontier is drained into the finished store, and the outcome says
    /// which it was. The contract ties the run to its input. Every chain
    /// of length above one in the frontier at entry ends with its
    /// origin's recorded length at least that length, excepting only the
    /// origin of the single chain dropped when a stop was observed; a run
    /// that drained its frontier without the governor ever pruning
    /// archives every entry, seeds included. Over a fully seeded frontier
    /// such a drained run is moreover exhaustive: every well-formed
    /// continuable chain over the facts has its length attained by its
    /// origin's record. And records are sound: when every entry at entry
    /// has a continuable head, a record only ever changes to the length
    /// of some well-formed continuable chain of its origin — so the
    /// record of a drained, ungoverned run is exactly the length of the
    /// longest such chain per origin, and re-runs agree on it.
    pub fn run(
        &mut self,
        store: &FactStore,
        adj: &Adjacency,
        dists: &Vec<Vec<i64>>,
        stop: &AtomicBool,
    ) -> (r: RunOutcome)
        requires
            old(self).wf(store.facts@),
            adj.wf(store.facts@),
            dists_wf(store.facts@, *adj, dists@),
            old(self).steps_done == 0,
        ensures
            final(self).config == old(self).config,
            final(self).wf(store.facts@),
            final(self).frontier.entries@.len() == 0,
            final(self).steps_done <= final(self).config.ceiling,
            forall|o: Fact|
                #[trigger] final(self).finished.len_for(store.facts@, o) >= old(self).finished.len_for(store.facts@, o),
            (r.reason == EndReason::StopRequested) <==> (r.stopped_on is Some),
            match r.stopped_on {
                Some(j) => j < store.facts@.len(),
                None => true,
            },
            r.reason == EndReason::CeilingReached ==> final(self).steps_done == final(self).config.ceiling,
            old(self).config.ceiling == 0 ==> r.reason == EndReason::CeilingReached,
            (old(self).frontier.entries@.len() == 0 && old(self).config.ceiling >= 1)
                ==> r.reason == EndReason::FrontierEmpty,
            forall|i: int|
                0 <= i < old(self).frontier.entries@.len() && (#[trigger] old(self).frontier.entries@[i]).chain@.len() > 1 && (match r.stopped_on {
                    Some(j) => !store.facts@[j as int].same_identity_spec(
                        origin_of(store.facts@, old(self).frontier.entries@[i].chain@),
                    ),
                    None => true,
                }) ==> final(self).finished.len_for(
                    store.facts@,
                    origin_of(store.facts@, old(self).frontier.entries@[i].chain@),
                ) >= old(self).frontier.entries@[i].chain@.len(),
            (r.reason == EndReason::FrontierEmpty && !r.governed) ==> (forall|i: int|
                0 <= i < old(self).frontier.entries@.len() ==> final(self).finished.len_for(
                    store.facts@,
                    origin_of(store.facts@, (#[trigger] old(self).frontier.entries@[i]).chain@),
                ) >= old(self).frontier.entries@[i].chain@.len()),
            (r.reason == EndReason::FrontierEmpty && !r.governed && (forall|j: int|
                0 <= j < store.facts@.len() && (#[trigger] adj.succ@[j])@.len() >= 1
                    ==> Self::seeded(old(self).frontier, j))) ==> (forall|c: Seq<usize>|
                seeded_chain(store.facts@, *adj, c) ==> final(self).finished.len_for(
                    store.facts@,
                    origin_of(store.facts@, c),
                ) >= c.len()),
            (forall|i: int|
                0 <= i < old(self).frontier.entries@.len() ==> adj.succ@[(#[trigger] old(self).frontier.entries@[i]).chain@[0] as int]@.len() >= 1)
                ==> (forall|o: Fact|
                #[trigger] final(self).finished.len_for(store.facts@, o) == old(self).finished.len_for(store.facts@, o) || exists|c: Seq<usize>|
                    seeded_chain(store.facts@, *adj, c) && origin_of(store.facts@, c).same_identity_spec(o)
                        && c.len() == final(self).finished.len_for(store.facts@, o)),
    {
        let ghost facts = store.facts@;
        let ghost init = self.frontier;
        let ghost seeds_complete = forall|j: int|
            0 <= j < facts.len() && (#[trigger] adj.succ@[j])@.len() >= 1 ==> Self::seeded(
                init,
                j,
            );
        let ghost heads_ok = forall|i: int|
            0 <= i < init.entries@.len() ==> adj.succ@[(#[trigger] init.entries@[i]).chain@[0] as int]@.len() >= 1;
        let mut done = false;
        let mut reason = EndReason::CeilingReached;
        let mut stopped_on: Option<usize> = None;
        let mut governed = false;
        proof {
            assert forall|i: int|
                0 <= i < init.entries@.len() implies covered(
                self.finished,
                self.frontier.entries@,
                facts,
                origin_of(facts, (#[trigger] init.entries@[i]).chain@),
                init.entries@[i].chain@.len() as int,
            ) by {
                assert(self.frontier.entries@[i] == init.entries@[i]);
                assert(origin_of(facts, self.frontier.entries@[i].chain@).same_identity_spec(
                    origin_of(facts, init.entries@[i].chain@),
                ));
            }
            if seeds_complete {
                assert forall|c: Seq<usize>| seeded_chain(facts, *adj, c) implies chain_covered(
                    self.finished,
                    self.frontier.entries@,
                    facts,
                    c,
                ) by {
                    let j = c[0] as int;
                    assert(Self::seeded(init, j));
                    let i = choose|i: int|
                        0 <= i < init.entries@.len() && (#[trigger] init.entries@[i]).chain@.len()
                            == 1 && init.entries@[i].chain@[0] as int == j;
                    assert(self.frontier.entries@[i] == init.entries@[i]);
                    let d = self.frontier.entries@[i].chain@;
                    if c.len() == 1 {
                        assert(origin_of(facts, d) == origin_of(facts, c));
                        assert(origin_of(facts, d).same_identity_spec(origin_of(facts, c)));
                    } else {
                        assert(d =~= c.take(1));
                    }
                }
            }
            if heads_ok {
                assert forall|t: int|
                    0 <= t < self.frontier.entries@.len() implies adj.succ@[(
                #[trigger] self.frontier.entries@[t]).chain@[0] as int]@.len() >= 1 by {
                    assert(self.frontier.entries@[t] == init.entries@[t]);
                    assert(adj.succ@[init.entries@[t].chain@[0] as int]@.len() >= 1);
                }
            }
        }
        while !done
            invariant
                facts == store.facts@,
                init == old(self).frontier,
                adj.wf(facts),
                dists_wf(facts, *adj, dists@),
                self.config == old(self).config,
                self.steps_done <= self.config.ceiling,
                self.wf(facts),
                forall|o: Fact|
                    #[trigger] self.finished.len_for(facts, o) >= old(self).finished.len_for(facts, o),
                !done ==> stopped_on is None,
                heads_ok ==> (forall|t: int|
                    0 <= t < self.frontier.entries@.len()
                        ==> adj.succ@[(#[trigger] self.frontier.entries@[t]).chain@[0] as int]@.len() >= 1),
                heads_ok ==> (forall|o: Fact|
                    #[trigger] self.finished.len_for(facts, o) == old(self).finished.len_for(
                        facts,
                        o,
                    ) || exists|c: Seq<usize>|
                        seeded_chain(facts, *adj, c) && origin_of(facts, c).same_identity_spec(o)
                            && c.len() == self.finished.len_for(facts, o)),
                init.entries@.len() == 0 ==> self.frontier.entries@.len() == 0
                    && self.steps_done == 0,
                (done && reason == EndReason::CeilingReached) ==> self.steps_done
                    == self.config.ceiling,
                (done && self.config.ceiling == 0) ==> reason == EndReason::CeilingReached,
                (done && init.entries@.len() == 0 && self.config.ceiling >= 1) ==> reason
                    == EndReason::FrontierEmpty,
                !done ==> (forall|i: int|
                    0 <= i < init.entries@.len() && (#[trigger] init.entries@[i]).chain@.len() > 1
                        ==> covered(
                        self.finished,
                        self.frontier.entries@,
                        facts,
                        origin_of(facts, init.entries@[i].chain@),
                        init.entries@[i].chain@.len() as int,
                    )),
                (!done && !governed) ==> (forall|i: int|
                    0 <= i < init.entries@.len() ==> covered(
                        self.finished,
                        self.frontier.entries@,
                        facts,
                        origin_of(facts, (#[trigger] init.entries@[i]).chain@),
                        init.entries@[i].chain@.len() as int,
                    )),
                (!done && !governed && seeds_complete) ==> (forall|c: Seq<usize>|
                    seeded_chain(facts, *adj, c) ==> chain_covered(
                        self.finished,
                        self.frontier.entries@,
                        facts,
                        c,
                    )),
                done ==> ({
                    &&& ((reason == EndReason::StopRequested) <==> (stopped_on is Some))
                    &&& match stopped_on {
                        Some(j) => j < facts.len(),
                        None => true,
                    }
                    &&& forall|i: int|
                        0 <= i < init.entries@.len() && (#[trigger] init.entries@[i]).chain@.len() > 1 && (match stopped_on {
                            Some(j) => !facts[j as int].same_identity_spec(
                                origin_of(facts, init.entries@[i].chain@),
                            ),
                            None => true,
                        }) ==> covered(
                            self.finished,
                            self.frontier.entries@,
                            facts,
                            origin_of(facts, init.entries@[i].chain@),
                            init.entries@[i].chain@.len() as int,
                        )
                    &&& (reason == EndReason::FrontierEmpty ==> self.frontier.entries@.len() == 0)
                    &&& ((reason == EndReason::FrontierEmpty && !governed) ==> (forall|i: int|
                        0 <= i < init.entries@.len() ==> covered(
                            self.finished,
                            self.frontier.entries@,
                            facts,
                            origin_of(facts, (#[trigger] init.entries@[i]).chain@),
                            init.entries@[i].chain@.len() as int,
                        )))
                    &&& ((reason == EndReason::FrontierEmpty && !governed && seeds_complete)
                        ==> (forall|c: Seq<usize>|
                        seeded_chain(facts, *adj, c) ==> self.finished.len_for(
                            facts,
                            origin_of(facts, c),
                        ) >= c.len()))
                }),
            decreases self.config.ceiling - self.steps_done, (if done { 0int } else { 1int }),
        {
            if self.steps_done >= self.config.ceiling {
                reason = EndReason::CeilingReached;
                done = true;
                continue ;
            }
            let ghost pre = self.frontier;
            let ghost fin_top = self.finished;
            let e = match self.frontier.pop_highest() {
                None => {
                    reason = EndReason::FrontierEmpty;
                    done = true;
                    proof {
                        if !governed && seeds_complete {
                            assert forall|c: Seq<usize>|
                                seeded_chain(facts, *adj, c) implies self.finished.len_for(
                                facts,
                                origin_of(facts, c),
                            ) >= c.len() by {
                                assert(chain_covered(
                                    self.finished,
                                    self.frontier.entries@,
                                    facts,
                                    c,
                                ));
                                assert(self.frontier.entries@.len() == 0);
                            }
                        }
                    }
                    continue ;
                },
                Some(e) => e,
            };
            let ghost i0 = choose|i: int|
                0 <= i < pre.entries@.len() && pre.entries@[i] == e && self.frontier.entries@
                    == pre.entries@.remove(i);
            proof {
                assert(chain_ok(facts, e.chain@));
                assert forall|t: int|
                    0 <= t < self.frontier.entries@.len() implies chain_ok(
                    facts,
                    (#[trigger] self.frontier.entries@[t]).chain@,
                ) by {
                    let s = if t < i0 {
                        t
                    } else {
                        t + 1
                    };
                    assert(self.frontier.entries@[t] == pre.entries@[s]);
                }
                if heads_ok {
                    assert(adj.succ@[e.chain@[0] as int]@.len() >= 1);
                    assert forall|t: int|
                        0 <= t < self.frontier.entries@.len() implies adj.succ@[(
                    #[trigger] self.frontier.entries@[t]).chain@[0] as int]@.len() >= 1 by {
                        let s = if t < i0 {
                            t
                        } else {
                            t + 1
                        };
                        assert(self.frontier.entries@[t] == pre.entries@[s]);
                        assert(adj.succ@[pre.entries@[s].chain@[0] as int]@.len() >= 1);
                    }
                }
            }
            if stop.load(core::sync::atomic::Ordering::SeqCst) {
                // A stop was requested: the popped chain is dropped, the
                // rest of the frontier is drained below.
                let j0 = e.chain[0];
                reason = EndReason::StopRequested;
                stopped_on = Some(j0);
                done = true;
                proof {
                    assert(facts[j0 as int] == origin_of(facts, e.chain@));
                    assert forall|i: int|
                        0 <= i < init.entries@.len() && (#[trigger] init.entries@[i]).chain@.len()
                            > 1 && !facts[j0 as int].same_identity_spec(
                            origin_of(facts, init.entries@[i].chain@),
                        ) implies covered(
                        self.finished,
                        self.frontier.entries@,
                        facts,
                        origin_of(facts, init.entries@[i].chain@),
                        init.entries@[i].chain@.len() as int,
                    ) by {
                        lemma_covered_after_remove(
                            fin_top,
                            pre.entries@,
                            facts,
                            origin_of(facts, init.entries@[i].chain@),
                            init.entries@[i].chain@.len() as int,
                            i0,
                        );
                    }
                }
                continue ;
            }
            let last = e.chain[e.chain.len() - 1];
            let cands = &adj.succ[last];
            let ghost pre_steps = self.steps_done;
            let ghost fr_pop = self.frontier;
            if cands.len() == 0 {
                // No continuation: the chain is finished.
                let ghost fin_pre = self.finished;
                self.finished.commit(store, &e.chain);
                proof {
                    let co = origin_of(facts, e.chain@);
                    assert forall|o: Fact| #[trigger] self.finished.len_for(facts, o) >= fin_pre.len_for(
                        facts,
                        o,
                    ) by {
                        if o.same_identity_spec(co) {
                            crate::finished::lemma_len_for_identity(self.finished, facts, o, co);
                            crate::finished::lemma_len_for_identity(fin_pre, facts, o, co);
                        }
                    }
                    assert forall|o: Fact| #[trigger] self.finished.len_for(facts, o) >= old(self).finished.len_for(
                        facts,
                        o,
                    ) by {
                        assert(self.finished.len_for(facts, o) >= fin_pre.len_for(facts, o));
                        assert(fin_pre.len_for(facts, o) >= old(self).finished.len_for(facts, o));
                    }
                    assert(self.finished.len_for(facts, co) >= e.chain@.len());
                    assert(covered(self.finished, self.frontier.entries@, facts, co, e.chain@.len() as int));
                    if heads_ok {
                        assert(seeded_chain(facts, *adj, e.chain@));
                        assert forall|o: Fact|
                            #[trigger] self.finished.len_for(facts, o) == old(self).finished.len_for(
                            facts,
                            o,
                        ) || (exists|cw: Seq<usize>|
                            seeded_chain(facts, *adj, cw) && origin_of(facts, cw).same_identity_spec(o)
                                && cw.len() == self.finished.len_for(facts, o)) by {
                            if self.finished.len_for(facts, o) != old(self).finished.len_for(
                                facts,
                                o,
                            ) {
                                if self.finished.len_for(facts, o) == fin_pre.len_for(facts, o) {
                                    let cw = choose|cw: Seq<usize>|
                                        seeded_chain(facts, *adj, cw) && origin_of(
                                            facts,
                                            cw,
                                        ).same_identity_spec(o) && cw.len() == fin_pre.len_for(
                                            facts,
                                            o,
                                        );
                                    assert(cw.len() == self.finished.len_for(facts, o));
                                } else {
                                    assert(o.same_identity_spec(co));
                                    crate::finished::lemma_len_for_identity(
                                        self.finished,
                                        facts,
                                        o,
                                        co,
                                    );
                                    crate::finished::lemma_len_for_identity(fin_pre, facts, o, co);
                                    assert(self.finished.len_for(facts, co) == e.chain@.len());
                                    assert(origin_of(facts, e.chain@).same_identity_spec(o));
                                    assert(e.chain@.len() == self.finished.len_for(facts, o));
                                }
                            }
                        }
                    }
                }
            } else {
                // Fork: each candidate either extends the chain or, on an
                // identifier reuse, finishes it; either way the popped
                // chain's origin keeps its progress.
                let mut m: usize = 0;
                while m < cands.len()
                    invariant
                        facts == store.facts@,
                        adj.wf(facts),
                        dists_wf(facts, *adj, dists@),
                        self.config == old(self).config,
                        self.steps_done == pre_steps,
                        pre_steps < self.config.ceiling,
                        self.wf(facts),
                        chain_ok(facts, e.chain@),
                        last == e.chain@[e.chain@.len() - 1],
                        last < facts.len(),
                        cands@ == adj.succ@[last as int]@,
                        0 <= m <= cands@.len(),
                        forall|o: Fact|
                            #[trigger] self.finished.len_for(facts, o) >= old(self).finished.len_for(facts, o),
                        forall|o2: Fact|
                            #[trigger] self.finished.len_for(facts, o2) >= fin_top.len_for(facts, o2),
                        self.frontier.entries@.len() >= fr_pop.entries@.len(),
                        forall|t: int|
                            0 <= t < fr_pop.entries@.len() ==> #[trigger] self.frontier.entries@[t]
                                == fr_pop.entries@[t],
                        m >= 1 ==> covered(
                            self.finished,
                            self.frontier.entries@,
                            facts,
                            origin_of(facts, e.chain@),
                            e.chain@.len() as int,
                        ),
                        forall|m2: int|
                            0 <= m2 < m && may_extend(facts, e.chain@, cands@[m2])
                                ==> exists|tt: int|
                                0 <= tt < self.frontier.entries@.len()
                                    && (#[trigger] self.frontier.entries@[tt]).chain@
                                    == e.chain@.push(cands@[m2]),
                        heads_ok ==> adj.succ@[e.chain@[0] as int]@.len() >= 1,
                        heads_ok ==> (forall|t: int|
                            0 <= t < self.frontier.entries@.len()
                                ==> adj.succ@[(#[trigger] self.frontier.entries@[t]).chain@[0] as int]@.len() >= 1),
                        heads_ok ==> (forall|o: Fact|
                            #[trigger] self.finished.len_for(facts, o) == old(self).finished.len_for(
                                facts,
                                o,
                            ) || exists|cw: Seq<usize>|
                                seeded_chain(facts, *adj, cw) && origin_of(facts, cw).same_identity_spec(o)
                                    && cw.len() == self.finished.len_for(facts, o)),
                    decreases cands@.len() - m,
                {
                    let k = cands[m];
                    proof {
                        assert(adj.succ@[last as int]@[m as int] == k);
                        assert(k < facts.len());
                        assert(facts[k as int].place_name@ == facts[last as int].boundary_name@);
                    }
                    if can_extend(&store.facts, &e.chain, k) {
                        let mut c2 = copy_chain(&e.chain);
                        c2.push(k);
                        proof {
                            lemma_extend_ok(facts, e.chain@, k);
                            assert(c2@ == e.chain@.push(k));
                        }
                        let step = dists[last][m];
                        let nd = if e.dist >= i64::MIN + step {
                            e.dist - step
                        } else {
                            i64::MIN
                        };
                        let ghost fr_pre = self.frontier;
                        self.frontier.insert(Entry { dist: nd, chain: c2 });
                        proof {
                            let n = self.frontier.entries@.len() - 1;
                            assert forall|t: int|
                                0 <= t < self.frontier.entries@.len() implies chain_ok(
                                facts,
                                (#[trigger] self.frontier.entries@[t]).chain@,
                            ) by {
                                if t < n {
                                    assert(self.frontier.entries@[t] == fr_pre.entries@[t]);
                                } else {
                                    assert(self.frontier.entries@[t].chain@ == e.chain@.push(k));
                                }
                            }
                            // the fork carries the popped chain's origin on
                            assert(self.frontier.entries@[n].chain@ == e.chain@.push(k));
                            assert(origin_of(facts, self.frontier.entries@[n].chain@)
                                == origin_of(facts, e.chain@));
                            assert(self.frontier.entries@[n].chain@.len() >= e.chain@.len());
                            assert(covered(
                                self.finished,
                                self.frontier.entries@,
                                facts,
                                origin_of(facts, e.chain@),
                                e.chain@.len() as int,
                            ));
                            assert forall|m2: int|
                                0 <= m2 < m + 1 && may_extend(facts, e.chain@, cands@[m2])
                                    implies exists|tt: int|
                                0 <= tt < self.frontier.entries@.len()
                                    && (#[trigger] self.frontier.entries@[tt]).chain@
                                    == e.chain@.push(cands@[m2]) by {
                                if m2 == m {
                                    assert(cands@[m2] == k);
                                    assert(self.frontier.entries@[n].chain@ == e.chain@.push(
                                        cands@[m2],
                                    ));
                                } else {
                                    let tt = choose|tt: int|
                                        0 <= tt < fr_pre.entries@.len()
                                            && (#[trigger] fr_pre.entries@[tt]).chain@
                                            == e.chain@.push(cands@[m2]);
                                    assert(self.frontier.entries@[tt].chain@ == e.chain@.push(
                                        cands@[m2],
                                    ));
                                }
                            }
                            if heads_ok {
                                assert forall|t: int|
                                    0 <= t < self.frontier.entries@.len() implies adj.succ@[(
                                #[trigger] self.frontier.entries@[t]).chain@[0] as int]@.len()
                                    >= 1 by {
                                    if t < n {
                                        assert(self.frontier.entries@[t] == fr_pre.entries@[t]);
                                        assert(adj.succ@[fr_pre.entries@[t].chain@[0] as int]@.len()
                                            >= 1);
                                    } else {
                                        assert(self.frontier.entries@[t].chain@[0]
                                            == e.chain@[0]);
                                    }
                                }
                            }
                        }
                    } else {
                        // An identifier reuse: a dead end for this branch.
                        let ghost fin_pre = self.finished;
                        self.finished.commit(store, &e.chain);
                        proof {
                            let co = origin_of(facts, e.chain@);
                            assert forall|o: Fact| #[trigger] self.finished.len_for(facts, o) >= fin_pre.len_for(
                                facts,
                                o,
                            ) by {
                                if o.same_identity_spec(co) {
                                    crate::finished::lemma_len_for_identity(self.finished, facts, o, co);
                                    crate::finished::lemma_len_for_identity(fin_pre, facts, o, co);
                                }
                            }
                            assert forall|o: Fact| #[trigger] self.finished.len_for(facts, o) >= old(self).finished.len_for(
                                facts,
                                o,
                            ) by {
                                assert(self.finished.len_for(facts, o) >= fin_pre.len_for(facts, o));
                                assert(fin_pre.len_for(facts, o) >= old(self).finished.len_for(facts, o));
                            }
                            assert forall|o: Fact| #[trigger] self.finished.len_for(facts, o) >= fin_top.len_for(
                                facts,
                                o,
                            ) by {
                                assert(self.finished.len_for(facts, o) >= fin_pre.len_for(facts, o));
                                assert(fin_pre.len_for(facts, o) >= fin_top.len_for(facts, o));
                            }
                            assert(self.finished.len_for(facts, co) >= e.chain@.len());
                            assert(covered(
                                self.finished,
                                self.frontier.entries@,
                                facts,
                                co,
                                e.chain@.len() as int,
                            ));
                        if heads_ok {
                            assert(seeded_chain(facts, *adj, e.chain@));
                            assert forall|o: Fact|
                                #[trigger] self.finished.len_for(facts, o) == old(self).finished.len_for(
                                facts,
                                o,
                            ) || (exists|cw: Seq<usize>|
                                seeded_chain(facts, *adj, cw) && origin_of(facts, cw).same_identity_spec(o)
                                    && cw.len() == self.finished.len_for(facts, o)) by {
                                if self.finished.len_for(facts, o) != old(self).finished.len_for(
                                    facts,
                                    o,
                                ) {
                                    if self.finished.len_for(facts, o) == fin_pre.len_for(facts, o) {
                                        let cw = choose|cw: Seq<usize>|
                                            seeded_chain(facts, *adj, cw) && origin_of(
                                                facts,
                                                cw,
                                            ).same_identity_spec(o) && cw.len() == fin_pre.len_for(
                                                facts,
                                                o,
                                            );
                                        assert(cw.len() == self.finished.len_for(facts, o));
                                    } else {
                                        assert(o.same_identity_spec(co));
                                        crate::finished::lemma_len_for_identity(
                                            self.finished,
                                            facts,
                                            o,
                                            co,
                                        );
                                        crate::finished::lemma_len_for_identity(fin_pre, facts, o, co);
                                        assert(self.finished.len_for(facts, co) == e.chain@.len());
                                        assert(origin_of(facts, e.chain@).same_identity_spec(o));
                                        assert(e.chain@.len() == self.finished.len_for(facts, o));
                                    }
                                }
                            }
                        }
                        }
                    }
                    m += 1;
                }
            }
            // every origin covered at the top of the iteration is covered
            // again: the popped entry was a highest-priority one
            proof {
                assert(covered(
                    self.finished,
                    self.frontier.entries@,
                    facts,
                    origin_of(facts, e.chain@),
                    e.chain@.len() as int,
                ));
                assert forall|i: int|
                    0 <= i < init.entries@.len() && (#[trigger] init.entries@[i]).chain@.len()
                        > 1 implies covered(
                    self.finished,
                    self.frontier.entries@,
                    facts,
                    origin_of(facts, init.entries@[i].chain@),
                    init.entries@[i].chain@.len() as int,
                ) by {
                    lemma_covered_through_iteration(
                        fin_top,
                        pre.entries@,
                        self.finished,
                        self.frontier.entries@,
                        facts,
                        origin_of(facts, init.entries@[i].chain@),
                        init.entries@[i].chain@.len() as int,
                        e,
                        i0,
                    );
                }
                if !governed {
                    assert forall|i: int| 0 <= i < init.entries@.len() implies covered(
                        self.finished,
                        self.frontier.entries@,
                        facts,
                        origin_of(facts, (#[trigger] init.entries@[i]).chain@),
                        init.entries@[i].chain@.len() as int,
                    ) by {
                        lemma_covered_through_iteration(
                            fin_top,
                            pre.entries@,
                            self.finished,
                            self.frontier.entries@,
                            facts,
                            origin_of(facts, init.entries@[i].chain@),
                            init.entries@[i].chain@.len() as int,
                            e,
                            i0,
                        );
                    }
                }
            }
            if self.frontier.len() > self.config.capacity {
                governed = true;
                let ghost mid = *self;
                self.enforce_capacity(store);
                proof {
                    assert forall|o: Fact| #[trigger] self.finished.len_for(facts, o) >= old(self).finished.len_for(
                        facts,
                        o,
                    ) by {
                        assert(self.finished.len_for(facts, o) >= mid.finished.len_for(facts, o));
                        assert(mid.finished.len_for(facts, o) >= old(self).finished.len_for(facts, o));
                    }
                    assert forall|i: int|
                        0 <= i < init.entries@.len() && (#[trigger] init.entries@[i]).chain@.len()
                            > 1 implies covered(
                        self.finished,
                        self.frontier.entries@,
                        facts,
                        origin_of(facts, init.entries@[i].chain@),
                        init.entries@[i].chain@.len() as int,
                    ) by {
                        lemma_covered_archived(
                            mid.finished,
                            self.finished,
                            mid.frontier.entries@,
                            facts,
                            origin_of(facts, init.entries@[i].chain@),
                            init.entries@[i].chain@.len() as int,
                        );
                    }
                    if heads_ok {
                        assert forall|t: int|
                            0 <= t < self.frontier.entries@.len() implies adj.succ@[(
                        #[trigger] self.frontier.entries@[t]).chain@[0] as int]@.len() >= 1 by {
                            let i2 = choose|i2: int|
                                0 <= i2 < mid.frontier.entries@.len()
                                    && self.frontier.entries@[t] == mid.frontier.entries@[i2];
                            assert(adj.succ@[mid.frontier.entries@[i2].chain@[0] as int]@.len()
                                >= 1);
                        }
                        assert forall|o: Fact|
                            #[trigger] self.finished.len_for(facts, o) == old(self).finished.len_for(
                            facts,
                            o,
                        ) || (exists|cw: Seq<usize>|
                            seeded_chain(facts, *adj, cw) && origin_of(facts, cw).same_identity_spec(o)
                                && cw.len() == self.finished.len_for(facts, o)) by {
                            if self.finished.len_for(facts, o) != old(self).finished.len_for(
                                facts,
                                o,
                            ) {
                                if self.finished.len_for(facts, o) == mid.finished.len_for(
                                    facts,
                                    o,
                                ) {
                                    let cw = choose|cw: Seq<usize>|
                                        seeded_chain(facts, *adj, cw) && origin_of(
                                            facts,
                                            cw,
                                        ).same_identity_spec(o) && cw.len()
                                            == mid.finished.len_for(facts, o);
                                    assert(cw.len() == self.finished.len_for(facts, o));
                                } else {
                                    let i2 = choose|i2: int|
                                        0 <= i2 < mid.frontier.entries@.len() && origin_of(
                                            facts,
                                            (#[trigger] mid.frontier.entries@[i2]).chain@,
                                        ).same_identity_spec(o)
                                            && mid.frontier.entries@[i2].chain@.len()
                                            == self.finished.len_for(facts, o);
                                    assert(chain_ok(facts, mid.frontier.entries@[i2].chain@));
                                    assert(adj.succ@[mid.frontier.entries@[i2].chain@[0] as int]@.len()
                                        >= 1);
                                    assert(seeded_chain(
                                        facts,
                                        *adj,
                                        mid.frontier.entries@[i2].chain@,
                                    ));
                                }
                            }
                        }
                    }
                }
            }
            if !governed {
                proof {
                    if seeds_complete {
                        assert forall|c: Seq<usize>|
                            seeded_chain(facts, *adj, c) implies chain_covered(
                            self.finished,
                            self.frontier.entries@,
                            facts,
                            c,
                        ) by {
                            let oc = origin_of(facts, c);
                            let nc = c.len() as int;
                            assert(chain_covered(fin_top, pre.entries@, facts, c));
                            if fin_top.len_for(facts, oc) >= nc {
                                assert(self.finished.len_for(facts, oc) >= fin_top.len_for(
                                    facts,
                                    oc,
                                ));
                            } else {
                                let t = choose|t: int|
                                    0 <= t < pre.entries@.len() && ({
                                        let d = (#[trigger] pre.entries@[t]).chain@;
                                        ||| (origin_of(facts, d).same_identity_spec(oc) && d.len()
                                            >= nc)
                                        ||| (d.len() < nc && d == c.take(d.len() as int) && d.len()
                                            >= 1)
                                    });
                                let d = pre.entries@[t].chain@;
                                if origin_of(facts, d).same_identity_spec(oc) && d.len() >= nc {
                                    assert(covered(fin_top, pre.entries@, facts, oc, nc));
                                    lemma_covered_through_iteration(
                                        fin_top,
                                        pre.entries@,
                                        self.finished,
                                        self.frontier.entries@,
                                        facts,
                                        oc,
                                        nc,
                                        e,
                                        i0,
                                    );
                                } else {
                                    if t != i0 {
                                        // the live prefix was not the popped
                                        // entry and survives, shifted
                                        let u = if t < i0 {
                                            t
                                        } else {
                                            t - 1
                                        };
                                        assert(fr_pop.entries@[u] == pre.entries@[t]);
                                        assert(self.frontier.entries@[u] == fr_pop.entries@[u]);
                                        assert(self.frontier.entries@[u].chain@ == d);
                                    } else {
                                        // the popped entry itself was the live
                                        // prefix: its admissible continuation
                                        // along c was pushed
                                        assert(e.chain@ == c.take(d.len() as int));
                                        let kp = d.len() as int;
                                        assert(1 <= kp < nc);
                                        assert(e.chain@[kp - 1] == c[kp - 1]);
                                        assert(last == c[kp - 1]);
                                        assert(facts[c[kp] as int].place_name@ == facts[last as int].boundary_name@);
                                        let m2 = choose|m2: int|
                                            0 <= m2 < adj.succ@[last as int]@.len() && (
                                            #[trigger] adj.succ@[last as int]@[m2]) as int
                                                == c[kp] as int;
                                        assert(cands@[m2] == c[kp]);
                                        assert forall|ii: int|
                                            0 <= ii < e.chain@.len() implies facts[(
                                        #[trigger] e.chain@[ii]) as int].place_id != facts[c[kp] as int].place_id
                                            && facts[e.chain@[ii] as int].boundary_id
                                            != facts[c[kp] as int].boundary_id by {
                                            assert(e.chain@[ii] == c[ii]);
                                            assert(facts[c[ii] as int].place_id != facts[c[kp] as int].place_id);
                                            assert(facts[c[ii] as int].boundary_id != facts[c[kp] as int].boundary_id);
                                        }
                                        assert(may_extend(facts, e.chain@, cands@[m2]));
                                        let tt = choose|tt: int|
                                            0 <= tt < self.frontier.entries@.len() && (
                                            #[trigger] self.frontier.entries@[tt]).chain@
                                                == e.chain@.push(cands@[m2]);
                                        assert(e.chain@.push(cands@[m2]) =~= c.take(kp + 1));
                                        if kp + 1 < nc {
                                            assert(self.frontier.entries@[tt].chain@ == c.take(
                                                kp + 1,
                                            ));
                                        } else {
                                            assert(c.take(kp + 1) =~= c);
                                            assert(origin_of(
                                                facts,
                                                self.frontier.entries@[tt].chain@,
                                            ) == oc);
                                            assert(origin_of(
                                                facts,
                                                self.frontier.entries@[tt].chain@,
                                            ).same_identity_spec(oc));
                                        }
                                    }
                                }
                            }
                        }
                    }
                }
            }
            self.steps_done = self.steps_done + 1;
        }
        let ghost before = *self;
        self.flush_remainder(store);
        proof {
            assert forall|o: Fact| #[trigger] self.finished.len_for(facts, o) >= old(self).finished.len_for(
                facts,
                o,
            ) by {
                assert(self.finished.len_for(facts, o) >= before.finished.len_for(facts, o));
                assert(before.finished.len_for(facts, o) >= old(self).finished.len_for(facts, o));
            }
            assert forall|i: int|
                0 <= i < init.entries@.len() && (#[trigger] init.entries@[i]).chain@.len() > 1 && (
                match stopped_on {
                    Some(j) => !facts[j as int].same_identity_spec(
                        origin_of(facts, init.entries@[i].chain@),
                    ),
                    None => true,
                }) implies self.finished.len_for(
                facts,
                origin_of(facts, init.entries@[i].chain@),
            ) >= init.entries@[i].chain@.len() by {
                lemma_covered_archived(
                    before.finished,
                    self.finished,
                    before.frontier.entries@,
                    facts,
                    origin_of(facts, init.entries@[i].chain@),
                    init.entries@[i].chain@.len() as int,
                );
            }
            if reason == EndReason::FrontierEmpty && !governed && seeds_complete {
                assert forall|c: Seq<usize>| seeded_chain(facts, *adj, c) implies self.finished.len_for(
                    facts,
                    origin_of(facts, c),
                ) >= c.len() by {
                    assert(before.finished.len_for(facts, origin_of(facts, c)) >= c.len());
                    assert(self.finished.len_for(facts, origin_of(facts, c))
                        >= before.finished.len_for(facts, origin_of(facts, c)));
                }
            }
            if heads_ok {
                assert forall|o: Fact|
                    #[trigger] self.finished.len_for(facts, o) == old(self).finished.len_for(
                    facts,
                    o,
                ) || (exists|cw: Seq<usize>|
                    seeded_chain(facts, *adj, cw) && origin_of(facts, cw).same_identity_spec(o)
                        && cw.len() == self.finished.len_for(facts, o)) by {
                    if self.finished.len_for(facts, o) != old(self).finished.len_for(facts, o) {
                        if self.finished.len_for(facts, o) == before.finished.len_for(facts, o) {
                            let cw = choose|cw: Seq<usize>|
                                seeded_chain(facts, *adj, cw) && origin_of(facts, cw).same_identity_spec(o)
                                    && cw.len() == before.finished.len_for(facts, o);
                            assert(cw.len() == self.finished.len_for(facts, o));
                        } else {
                            let i2 = choose|i2: int|
                                0 <= i2 < before.frontier.entries@.len() && (#[trigger] before.frontier.entries@[i2]).chain@.len() > 1
                                    && origin_of(facts, before.frontier.entries@[i2].chain@).same_identity_spec(o)
                                    && before.frontier.entries@[i2].chain@.len()
                                    == self.finished.len_for(facts, o);
                            assert(chain_ok(facts, before.frontier.entries@[i2].chain@));
                            assert(adj.succ@[before.frontier.entries@[i2].chain@[0] as int]@.len()
                                >= 1);
                            assert(seeded_chain(
                                facts,
                                *adj,
                                before.frontier.entries@[i2].chain@,
                            ));
                        }
                    }
                }
            }
            if reason == EndReason::FrontierEmpty && !governed {
                assert forall|i: int| 0 <= i < init.entries@.len() implies self.finished.len_for(
                    facts,
                    origin_of(facts, (#[trigger] init.entries@[i]).chain@),
                ) >= init.entries@[i].chain@.len() by {
                    assert(before.frontier.entries@.len() == 0);
                    assert(covered(
                        before.finished,
                        before.frontier.entries@,
                        facts,
                        origin_of(facts, init.entries@[i].chain@),
                        init.entries@[i].chain@.len() as int,
                    ));
                    assert(before.finished.len_for(
                        facts,
                        origin_of(facts, init.entries@[i].chain@),
                    ) >= init.entries@[i].chain@.len());
                    assert(self.finished.len_for(facts, origin_of(facts, init.entries@[i].chain@))
                        >= before.finished.len_for(facts, origin_of(facts, init.entries@[i].chain@)));
                }
            }
        }
        RunOutcome { reason, governed, stopped_on }
    }
}

} // verus!
