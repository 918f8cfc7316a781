//! The finished-chain store: for each origin fact it retains the single
//! longest chain discovered so far. A commit overwrites an entry only with
//! a strictly longer chain for the same origin; an entry is never
//! shortened and never removed.

use vstd::prelude::*;
use crate::fact::Fact;
use crate::chain::{chain_ok, origin_of};
use crate::chain::copy_chain;
use crate::store::FactStore;

verus! {

/// Mapping from a chain's origin fact to the longest chain seen for it.
pub struct FinishedStore {
    /// The retained chains; origins are pairwise distinct.
    pub chains: Vec<Vec<usize>>,
}

impl FinishedStore {
    /// Every stored chain is well-formed and no two stored chains share
    /// an origin identity.
    pub open spec fn wf(self, facts: Seq<Fact>) -> bool {
        &&& forall|t: int|
            0 <= t < self.chains@.len() ==> chain_ok(facts, (#[trigger] self.chains@[t])@)
        &&& forall|t1: int, t2: int|
            0 <= t1 < t2 < self.chains@.len() ==> !origin_of(
                facts,
                (#[trigger] self.chains@[t1])@,
            ).same_identity_spec(origin_of(facts, (#[trigger] self.chains@[t2])@))
    }

    /// Some stored chain has origin identity `o`.
    pub open spec fn has_origin(self, facts: Seq<Fact>, o: Fact) -> bool {
        exists|t: int|
            0 <= t < self.chains@.len() && origin_of(
                facts,
                (#[trigger] self.chains@[t])@,
            ).same_identity_spec(o)
    }

    /// The slot of the chain stored for origin `o`.
    pub open spec fn slot_for(self, facts: Seq<Fact>, o: Fact) -> int {
        choose|t: int|
            0 <= t < self.chains@.len() && origin_of(
                facts,
                (#[trigger] self.chains@[t])@,
            ).same_identity_spec(o)
    }

    /// The length of the chain stored for origin `o`, or zero when none is.
    pub open spec fn len_for(self, facts: Seq<Fact>, o: Fact) -> int {
        if self.has_origin(facts, o) {
            self.chains@[self.slot_for(facts, o)]@.len() as int
        } else {
            0
        }
    }

    pub fn new() -> (s: FinishedStore)
        ensures
            s.chains@.len() == 0,
    {
        FinishedStore { chains: Vec::new() }
    }

    pub fn len(&self) -> (n: usize)
        ensures
            n == self.chains@.len(),
    {
        self.chains.len()
    }

    pub fn get(&self, t: usize) -> (c: &Vec<usize>)
        requires
            t < self.chains@.len(),
        ensures
            *c == self.chains@[t as int],
    {
        &self.chains[t]
    }

    /// Finds the slot holding the chain for `chain`'s origin, if any.
    fn find_slot(&self, store: &FactStore, chain: &Vec<usize>) -> (r: Option<usize>)
        requires
            self.wf(store.facts@),
            chain_ok(store.facts@, chain@),
        ensures
            match r {
                Some(t) => t < self.chains@.len() && origin_of(
                    store.facts@,
                    self.chains@[t as int]@,
                ).same_identity_spec(origin_of(store.facts@, chain@)),
                None => !self.has_origin(store.facts@, origin_of(store.facts@, chain@)),
            },
    {
        let ghost facts = store.facts@;
        let ghost o = origin_of(facts, chain@);
        let origin = store.get(chain[0]);
        let mut t: usize = 0;
        while t < self.chains.len()
            invariant
                0 <= t <= self.chains@.len(),
                self.wf(facts),
                facts == store.facts@,
                chain_ok(facts, chain@),
                origin == facts[chain@[0] as int],
                o == origin_of(facts, chain@),
                forall|s: int|
                    0 <= s < t ==> !origin_of(facts, (#[trigger] self.chains@[s])@).same_identity_spec(
                        o,
                    ),
            decreases self.chains@.len() - t,
        {
            let c = &self.chains[t];
            let co = store.get(c[0]);
            if co.same_identity(origin) {
                return Some(t);
            }
            t += 1;
        }
        None
    }

    /// The length recorded for the origin of `chain`, zero when none is.
    pub fn len_for_exec(&self, store: &FactStore, chain: &Vec<usize>) -> (n: usize)
        requires
            self.wf(store.facts@),
            chain_ok(store.facts@, chain@),
        ensures
            n == self.len_for(store.facts@, origin_of(store.facts@, chain@)),
    {
        match self.find_slot(store, chain) {
            None => 0,
            Some(t) => {
                proof {
                    lemma_slot_unique(
                        *self,
                        store.facts@,
                        origin_of(store.facts@, chain@),
                        t as int,
                    );
                }
                self.chains[t].len()
            },
        }
    }

    /// Commits a chain under its origin: stores it when the origin is new,
    /// replaces the stored chain only when this one is strictly longer,
    /// and otherwise leaves the store unchanged. No other entry moves.
    pub fn commit(&mut self, store: &FactStore, chain: &Vec<usize>)
        requires
            old(self).wf(store.facts@),
            chain_ok(store.facts@, chain@),
        ensures
            final(self).wf(store.facts@),
            ({
                let facts = store.facts@;
                let o = origin_of(facts, chain@);
                if !old(self).has_origin(facts, o) {
                    &&& final(self).chains@.len() == old(self).chains@.len() + 1
                    &&& final(self).chains@[old(self).chains@.len() as int]@ == chain@
                    &&& forall|t: int|
                        0 <= t < old(self).chains@.len() ==> #[trigger] final(self).chains@[t]
                            == old(self).chains@[t]
                } else if chain@.len() > old(self).chains@[old(self).slot_for(facts, o)]@.len() {
                    &&& final(self).chains@.len() == old(self).chains@.len()
                    &&& final(self).chains@[old(self).slot_for(facts, o)]@ == chain@
                    &&& forall|t: int|
                        0 <= t < old(self).chains@.len() && t != old(self).slot_for(facts, o)
                            ==> #[trigger] final(self).chains@[t] == old(self).chains@[t]
                } else {
                    final(self).chains@ == old(self).chains@
                }
            }),
            ({
                let facts = store.facts@;
                let o = origin_of(facts, chain@);
                &&& final(self).len_for(facts, o) >= chain@.len()
                &&& final(self).len_for(facts, o) >= old(self).len_for(facts, o)
                &&& final(self).len_for(facts, o) == (if chain@.len() > old(self).len_for(
                    facts,
                    o,
                ) {
                    chain@.len() as int
                } else {
                    old(self).len_for(facts, o)
                })
                &&& forall|o2: Fact|
                    !o2.same_identity_spec(origin_of(facts, chain@))
                        ==> #[trigger] final(self).len_for(facts, o2)
                        == old(self).len_for(facts, o2)
            }),
    {
        let ghost facts = store.facts@;
        let ghost o = origin_of(facts, chain@);
        let ghost old_self = *self;
        match self.find_slot(store, chain) {
            None => {
                let c = copy_chain(chain);
                assert(c@ == chain@);
                self.chains.push(c);
                proof {
                    let n = self.chains@.len() - 1;
                    assert(self.chains@[n]@ == chain@);
                    lemma_store_shape(old_self, *self, facts, chain@, o);
                }
            },
            Some(t) => {
                proof {
                    lemma_slot_unique(old_self, facts, o, t as int);
                }
                if chain.len() > self.chains[t].len() {
                    let c = copy_chain(chain);
                    self.chains[t] = c;
                    proof {
                        lemma_store_shape(old_self, *self, facts, chain@, o);
                    }
                } else {
                    proof {
                        lemma_store_shape(old_self, *self, facts, chain@, o);
                    }
                }
            },
        }
    }
}

/// The recorded length depends on an origin only through its identity:
/// two facts with the same identifiers index the same entry.
pub proof fn lemma_len_for_identity(s: FinishedStore, facts: Seq<Fact>, o1: Fact, o2: Fact)
    requires
        s.wf(facts),
        o1.same_identity_spec(o2),
    ensures
        s.len_for(facts, o1) == s.len_for(facts, o2),
{
    if s.has_origin(facts, o1) {
        let t = s.slot_for(facts, o1);
        assert(origin_of(facts, s.chains@[t]@).same_identity_spec(o1));
        assert(origin_of(facts, s.chains@[t]@).same_identity_spec(o2));
        lemma_slot_unique(s, facts, o2, t);
    } else {
        if s.has_origin(facts, o2) {
            let t = s.slot_for(facts, o2);
            assert(origin_of(facts, s.chains@[t]@).same_identity_spec(o2));
            assert(origin_of(facts, s.chains@[t]@).same_identity_spec(o1));
            assert(s.has_origin(facts, o1));
            assert(false);
        }
    }
}

/// In a well-formed store the slot holding an origin is unique, so any
/// slot whose origin matches is the chosen one.
proof fn lemma_slot_unique(s: FinishedStore, facts: Seq<Fact>, o: Fact, t: int)
    requires
        s.wf(facts),
        0 <= t < s.chains@.len(),
        origin_of(facts, s.chains@[t]@).same_identity_spec(o),
    ensures
        s.has_origin(facts, o),
        s.slot_for(facts, o) == t,
{
    assert(s.has_origin(facts, o));
    let t2 = s.slot_for(facts, o);
    if t2 != t {
        let a = if t < t2 {
            t
        } else {
            t2
        };
        let b = if t < t2 {
            t2
        } else {
            t
        };
        assert(!origin_of(facts, s.chains@[a]@).same_identity_spec(origin_of(facts, s.chains@[b]@)));
        assert(false);
    }
}

/// After a commit of `c` with origin `o`, the length bookkeeping of the
/// store follows from the shape of the change.
proof fn lemma_store_shape(
    pre: FinishedStore,
    post: FinishedStore,
    facts: Seq<Fact>,
    c: Seq<usize>,
    o: Fact,
)
    requires
        pre.wf(facts),
        chain_ok(facts, c),
        o == origin_of(facts, c),
        ({
            ||| (!pre.has_origin(facts, o) && post.chains@.len() == pre.chains@.len() + 1
                && post.chains@[pre.chains@.len() as int]@ == c && (forall|t: int|
                0 <= t < pre.chains@.len() ==> #[trigger] post.chains@[t] == pre.chains@[t]))
            ||| (pre.has_origin(facts, o) && c.len() > pre.chains@[pre.slot_for(facts, o)]@.len()
                && post.chains@.len() == pre.chains@.len() && post.chains@[pre.slot_for(
                facts,
                o,
            )]@ == c && (forall|t: int|
                0 <= t < pre.chains@.len() && t != pre.slot_for(facts, o)
                    ==> #[trigger] post.chains@[t] == pre.chains@[t]))
            ||| (pre.has_origin(facts, o) && c.len() <= pre.chains@[pre.slot_for(facts, o)]@.len()
                && post.chains@ == pre.chains@)
        }),
    ensures
        post.wf(facts),
        post.len_for(facts, o) >= c.len(),
        post.len_for(facts, o) >= pre.len_for(facts, o),
        post.len_for(facts, o) == (if c.len() > pre.len_for(facts, o) {
            c.len() as int
        } else {
            pre.len_for(facts, o)
        }),
        forall|o2: Fact|
            !o2.same_identity_spec(o) ==> #[trigger] post.len_for(facts, o2) == pre.len_for(
                facts,
                o2,
            ),
{
    if !pre.has_origin(facts, o) {
        let n = pre.chains@.len() as int;
        assert(post.chains@[n]@ == c);
        assert(origin_of(facts, post.chains@[n]@).same_identity_spec(o));
        assert forall|t1: int, t2: int| 0 <= t1 < t2 < post.chains@.len() implies !origin_of(
            facts,
            (#[trigger] post.chains@[t1])@,
        ).same_identity_spec(origin_of(facts, (#[trigger] post.chains@[t2])@)) by {
            if t2 < n {
                assert(post.chains@[t1] == pre.chains@[t1]);
                assert(post.chains@[t2] == pre.chains@[t2]);
            } else {
                assert(post.chains@[t1] == pre.chains@[t1]);
                if origin_of(facts, post.chains@[t1]@).same_identity_spec(
                    origin_of(facts, post.chains@[t2]@),
                ) {
                    assert(origin_of(facts, pre.chains@[t1]@).same_identity_spec(o));
                    assert(pre.has_origin(facts, o));
                }
            }
        }
        lemma_slot_unique(post, facts, o, n);
        assert(post.len_for(facts, o) == c.len());
        assert forall|o2: Fact| !o2.same_identity_spec(o) implies #[trigger] post.len_for(facts, o2)
            == pre.len_for(facts, o2) by {
            lemma_len_for_frame(pre, post, facts, o2, n);
        }
    } else {
        let s = pre.slot_for(facts, o);
        assert(0 <= s < pre.chains@.len());
        assert(origin_of(facts, pre.chains@[s]@).same_identity_spec(o));
        if c.len() > pre.chains@[s]@.len() {
            assert(post.chains@[s]@ == c);
            assert forall|t1: int, t2: int| 0 <= t1 < t2 < post.chains@.len() implies !origin_of(
                facts,
                (#[trigger] post.chains@[t1])@,
            ).same_identity_spec(origin_of(facts, (#[trigger] post.chains@[t2])@)) by {
                let w1 = if t1 == s {
                    c
                } else {
                    pre.chains@[t1]@
                };
                assert(post.chains@[t1]@ == w1);
                let w2 = if t2 == s {
                    c
                } else {
                    pre.chains@[t2]@
                };
                assert(post.chains@[t2]@ == w2);
                if t1 == s {
                    assert(origin_of(facts, w1).same_identity_spec(
                        origin_of(facts, pre.chains@[s]@),
                    ));
                } else if t2 == s {
                    assert(origin_of(facts, w2).same_identity_spec(
                        origin_of(facts, pre.chains@[s]@),
                    ));
                }
            }
            lemma_slot_unique(post, facts, o, s);
            assert(post.len_for(facts, o) == c.len());
            assert forall|o2: Fact| !o2.same_identity_spec(o) implies #[trigger] post.len_for(
                facts,
                o2,
            ) == pre.len_for(facts, o2) by {
                lemma_len_for_frame(pre, post, facts, o2, s);
            }
        } else {
            lemma_slot_unique(post, facts, o, s);
        }
    }
}

/// Changing or adding only the slot whose origin is not `o2` leaves the
/// length recorded for `o2` unchanged.
proof fn lemma_len_for_frame(
    pre: FinishedStore,
    post: FinishedStore,
    facts: Seq<Fact>,
    o2: Fact,
    s: int,
)
    requires
        pre.wf(facts),
        post.wf(facts),
        0 <= s < post.chains@.len(),
        pre.chains@.len() == post.chains@.len() || post.chains@.len() == pre.chains@.len() + 1,
        s == post.chains@.len() - 1 || pre.chains@.len() == post.chains@.len(),
        forall|t: int|
            0 <= t < post.chains@.len() && t != s ==> 0 <= t < pre.chains@.len()
                && #[trigger] post.chains@[t] == pre.chains@[t],
        pre.chains@.len() == post.chains@.len() ==> 0 <= s < pre.chains@.len(),
        !origin_of(facts, post.chains@[s]@).same_identity_spec(o2),
        pre.chains@.len() == post.chains@.len() ==> origin_of(
            facts,
            pre.chains@[s]@,
        ).same_identity_spec(origin_of(facts, post.chains@[s]@)),
    ensures
        post.len_for(facts, o2) == pre.len_for(facts, o2),
{
    if pre.has_origin(facts, o2) {
        let t = pre.slot_for(facts, o2);
        assert(0 <= t < pre.chains@.len());
        assert(origin_of(facts, pre.chains@[t]@).same_identity_spec(o2));
        if t == s {
            assert(pre.chains@.len() == post.chains@.len());
            assert(origin_of(facts, post.chains@[s]@).same_identity_spec(o2));
            assert(false);
        }
        assert(post.chains@[t] == pre.chains@[t]);
        lemma_slot_unique(post, facts, o2, t);
    } else {
        if post.has_origin(facts, o2) {
            let t = post.slot_for(facts, o2);
            assert(0 <= t < post.chains@.len());
            assert(origin_of(facts, post.chains@[t]@).same_identity_spec(o2));
            assert(t != s);
            assert(post.chains@[t] == pre.chains@[t]);
            assert(pre.has_origin(facts, o2));
            assert(false);
        }
    }
}

} // verus!
