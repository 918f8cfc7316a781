use std::sync::atomic::AtomicBool;

use place_chains::engine::{EndReason, Engine, SearchConfig};
use place_chains::fact::Fact;
use place_chains::frontier::Entry;
use place_chains::index::{build_adjacency, Adjacency, NameIndex};
use place_chains::store::{build_fact_store, FactStore};

fn fact(pid: u64, pname: &str, bid: u64, bname: &str) -> Fact {
    Fact {
        place_kind: 'n',
        place_id: pid,
        place_name: pname.to_string(),
        place_category: "city".to_string(),
        place_lat: 0,
        place_lon: 0,
        boundary_kind: 'r',
        boundary_id: bid,
        boundary_name: bname.to_string(),
        boundary_admin_level: "8".to_string(),
    }
}

fn build(input: Vec<Fact>) -> (FactStore, Adjacency, Vec<Vec<i64>>) {
    let store = build_fact_store(&input);
    let idx = NameIndex::build(&store);
    let adj = build_adjacency(&store, &idx);
    let mut dists: Vec<Vec<i64>> = Vec::new();
    for j in 0..adj.succ.len() {
        dists.push(vec![0i64; adj.succ[j].len()]);
    }
    (store, adj, dists)
}

fn run_engine(config: SearchConfig, input: Vec<Fact>) -> Engine {
    let (store, adj, dists) = build(input);
    let mut eng = Engine::new(config);
    eng.seed(&store, &adj);
    let stop = AtomicBool::new(false);
    let outcome = eng.run(&store, &adj, &dists, &stop);
    assert_eq!(outcome.reason, EndReason::FrontierEmpty);
    assert!(!outcome.governed);
    assert!(outcome.stopped_on.is_none());
    eng
}

#[test]
fn two_linked_facts_give_a_length_two_chain() {
    let eng = run_engine(
        SearchConfig::defaults(),
        vec![fact(1, "Alpha", 101, "Beta"), fact(2, "Beta", 102, "Gamma")],
    );
    assert_eq!(eng.finished.chains, vec![vec![0usize, 1]]);
}

#[test]
fn three_cycle_stops_at_length_three() {
    let eng = run_engine(
        SearchConfig::defaults(),
        vec![
            fact(1, "Alpha", 101, "Beta"),
            fact(2, "Beta", 102, "Gamma"),
            fact(3, "Gamma", 103, "Alpha"),
        ],
    );
    assert_eq!(eng.finished.chains.len(), 3);
    for chain in &eng.finished.chains {
        assert_eq!(chain.len(), 3);
    }
}

#[test]
fn self_named_fact_is_fully_excluded() {
    let (store, _adj, _dists) = build(vec![
        fact(1, "Paris", 101, "Paris"),
        fact(2, "Alpha", 102, "Beta"),
    ]);
    assert_eq!(store.facts.len(), 1);
    assert_eq!(store.facts[0].place_id, 2);

    // a different place that also bears the name Paris survives, and the
    // chain through it never touches the discarded self-named fact
    let (store2, adj2, dists2) = build(vec![
        fact(1, "Paris", 101, "Paris"),
        fact(2, "Alpha", 102, "Paris"),
        fact(3, "Paris", 103, "Gamma"),
    ]);
    assert_eq!(store2.facts.len(), 2);
    let mut eng = Engine::new(SearchConfig::defaults());
    eng.seed(&store2, &adj2);
    let stop = AtomicBool::new(false);
    let outcome = eng.run(&store2, &adj2, &dists2, &stop);
    assert_eq!(outcome.reason, EndReason::FrontierEmpty);
    assert_eq!(eng.finished.chains, vec![vec![0usize, 1]]);
    for chain in &eng.finished.chains {
        for &j in chain {
            assert_ne!(store2.facts[j].place_id, 1);
            assert_ne!(store2.facts[j].place_name, store2.facts[j].boundary_name);
        }
    }
}

#[test]
fn rerun_yields_identical_chains() {
    let input = || {
        vec![
            fact(1, "Alpha", 101, "Beta"),
            fact(2, "Beta", 102, "Gamma"),
            fact(3, "Gamma", 103, "Alpha"),
            fact(4, "Beta", 104, "Delta"),
            fact(5, "Delta", 105, "Alpha"),
        ]
    };
    let a = run_engine(SearchConfig::defaults(), input());
    let b = run_engine(SearchConfig::defaults(), input());
    assert_eq!(a.finished.chains, b.finished.chains);
}

#[test]
fn capacity_one_with_three_seeds_keeps_a_seed() {
    let (store, adj, _dists) = build(vec![
        fact(1, "Alpha", 101, "Beta"),
        fact(2, "Beta", 102, "Alpha"),
        fact(3, "Gamma", 103, "Alpha"),
    ]);
    let mut eng = Engine::new(SearchConfig { capacity: 1, margin: 10, ceiling: 1000 });
    eng.seed(&store, &adj);
    assert_eq!(eng.frontier.len(), 3);
    eng.enforce_capacity(&store);
    // the governor must get back under capacity without discarding the
    // last seed
    assert_eq!(eng.frontier.len(), 1);
    assert_eq!(eng.frontier.entries[0].chain.len(), 1);
}

#[test]
fn governor_archives_before_discarding() {
    let (store, _adj, _dists) = build(vec![
        fact(1, "Alpha", 101, "Beta"),
        fact(2, "Beta", 102, "Gamma"),
    ]);
    let mut eng = Engine::new(SearchConfig { capacity: 0, margin: 10, ceiling: 1000 });
    eng.frontier.insert(Entry { dist: 0, chain: vec![0, 1] });
    eng.enforce_capacity(&store);
    assert_eq!(eng.frontier.len(), 0);
    assert_eq!(eng.finished.chains, vec![vec![0usize, 1]]);
}

#[test]
fn governor_prunes_only_past_the_margin() {
    let cycle = vec![
        fact(1, "Alpha", 101, "Beta"),
        fact(2, "Beta", 102, "Gamma"),
        fact(3, "Gamma", 103, "Alpha"),
    ];
    // a record of length three for the origin, and a live prefix of
    // length two: with margin zero the prefix is pruned
    let (store, _adj, _dists) = build(cycle.clone());
    let mut eng = Engine::new(SearchConfig { capacity: 100, margin: 0, ceiling: 1000 });
    eng.finished.commit(&store, &vec![0, 1, 2]);
    eng.frontier.insert(Entry { dist: 0, chain: vec![0, 1] });
    eng.enforce_capacity(&store);
    assert_eq!(eng.frontier.len(), 0);
    // with margin one the same prefix is retained
    let (store2, _adj2, _dists2) = build(cycle);
    let mut eng2 = Engine::new(SearchConfig { capacity: 100, margin: 1, ceiling: 1000 });
    eng2.finished.commit(&store2, &vec![0, 1, 2]);
    eng2.frontier.insert(Entry { dist: 0, chain: vec![0, 1] });
    eng2.enforce_capacity(&store2);
    assert_eq!(eng2.frontier.len(), 1);
}

#[test]
fn stop_request_ends_the_run_and_keeps_committed_work() {
    let (store, adj, dists) = build(vec![
        fact(1, "Alpha", 101, "Beta"),
        fact(2, "Beta", 102, "Gamma"),
    ]);
    let mut eng = Engine::new(SearchConfig::defaults());
    eng.seed(&store, &adj);
    let stop = AtomicBool::new(true);
    let outcome = eng.run(&store, &adj, &dists, &stop);
    // the stop was seen on the very first iteration: nothing was finished
    assert_eq!(outcome.reason, EndReason::StopRequested);
    assert_eq!(outcome.stopped_on, Some(0));
    assert_eq!(eng.finished.chains.len(), 0);
    assert_eq!(eng.steps_done, 0);
    assert_eq!(eng.frontier.len(), 0);
}

#[test]
fn iteration_ceiling_bounds_the_run_and_flushes_progress() {
    let (store, adj, dists) = build(vec![
        fact(1, "Alpha", 101, "Beta"),
        fact(2, "Beta", 102, "Gamma"),
    ]);
    let mut eng = Engine::new(SearchConfig { capacity: 8000000, margin: 10, ceiling: 1 });
    eng.seed(&store, &adj);
    let stop = AtomicBool::new(false);
    let outcome = eng.run(&store, &adj, &dists, &stop);
    // one iteration extended the seed; the ceiling then stopped the run
    // and the flush preserved the in-progress chain
    assert_eq!(outcome.reason, EndReason::CeilingReached);
    assert_eq!(eng.steps_done, 1);
    assert_eq!(eng.finished.chains, vec![vec![0usize, 1]]);
}

#[test]
fn distance_tie_break_prefers_wider_fork() {
    // two continuations of Alpha: the engine forks, and the farther
    // continuation (larger step distance, hence lower score) is popped
    // first; both forks finish either way
    let input = vec![
        fact(1, "Alpha", 101, "Beta"),
        fact(2, "Beta", 102, "Omega"),
        fact(3, "Beta", 103, "Omega"),
    ];
    let (store, adj, mut dists) = build(input);
    // give the two edges from fact 0 different distances
    for j in 0..dists.len() {
        for m in 0..dists[j].len() {
            dists[j][m] = (m as i64) * 1000;
        }
    }
    let mut eng = Engine::new(SearchConfig::defaults());
    eng.seed(&store, &adj);
    let stop = AtomicBool::new(false);
    let outcome = eng.run(&store, &adj, &dists, &stop);
    assert_eq!(outcome.reason, EndReason::FrontierEmpty);
    // one chain per origin: both length-two forks share the origin, so
    // exactly one survives — the farther fork, popped and finished first,
    // holds the record and the equally long nearer fork cannot displace it
    assert_eq!(eng.finished.chains, vec![vec![0usize, 2]]);
}

#[test]
fn deterministic_exits_report_their_reasons() {
    // a lone fact with no continuation seeds nothing: the run reports an
    // empty frontier and records nothing
    let (store, adj, dists) = build(vec![fact(1, "Alpha", 101, "Beta")]);
    let mut eng = Engine::new(SearchConfig::defaults());
    eng.seed(&store, &adj);
    assert_eq!(eng.frontier.len(), 0);
    let stop = AtomicBool::new(false);
    let outcome = eng.run(&store, &adj, &dists, &stop);
    assert_eq!(outcome.reason, EndReason::FrontierEmpty);
    assert_eq!(eng.finished.chains.len(), 0);

    // a zero ceiling ends the run before any iteration; the flush skips
    // the length-one seed, and the step count equals the ceiling
    let (store2, adj2, dists2) = build(vec![
        fact(1, "Alpha", 101, "Beta"),
        fact(2, "Beta", 102, "Gamma"),
    ]);
    let mut eng2 = Engine::new(SearchConfig { capacity: 8000000, margin: 10, ceiling: 0 });
    eng2.seed(&store2, &adj2);
    let outcome2 = eng2.run(&store2, &adj2, &dists2, &stop);
    assert_eq!(outcome2.reason, EndReason::CeilingReached);
    assert_eq!(eng2.steps_done, 0);
    assert_eq!(eng2.finished.chains.len(), 0);
}
