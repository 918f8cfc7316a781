use place_chains::fact::{url, Fact};
use place_chains::finished::FinishedStore;
use place_chains::frontier::{Entry, Frontier};
use place_chains::index::NameIndex;
use place_chains::store::build_fact_store;

fn fact(pid: u64, pname: &str, bid: u64, bname: &str) -> Fact {
    Fact {
        place_kind: 'n',
        place_id: pid,
        place_name: pname.to_string(),
        place_category: "town".to_string(),
        place_lat: 0,
        place_lon: 0,
        boundary_kind: 'r',
        boundary_id: bid,
        boundary_name: bname.to_string(),
        boundary_admin_level: "6".to_string(),
    }
}

#[test]
fn url_renders_kind_and_identifier() {
    assert_eq!(url('n', 17807753), "https://www.openstreetmap.org/node/17807753");
    assert_eq!(url('w', 42), "https://www.openstreetmap.org/way/42");
    assert_eq!(url('r', 0), "https://www.openstreetmap.org/relation/0");
}

#[test]
fn fact_urls_use_each_sides_kind_and_identifier() {
    let f = fact(7, "Alpha", 12345, "Beta");
    assert_eq!(f.place_url(), "https://www.openstreetmap.org/node/7");
    assert_eq!(f.boundary_url(), "https://www.openstreetmap.org/relation/12345");
}

#[test]
fn fact_identity_ignores_names() {
    let a = fact(1, "Alpha", 10, "Beta");
    let b = fact(1, "Gamma", 10, "Delta");
    let c = fact(1, "Alpha", 11, "Beta");
    assert!(a.same_identity(&b));
    assert!(!a.same_identity(&c));
    assert!(a.identity_le(&c));
    assert!(!c.identity_le(&a));
    assert!(fact(2, "x", 0, "y").identity_le(&fact(3, "x", 0, "y")));
}

#[test]
fn whole_group_is_dropped_when_one_member_is_self_named() {
    let store = build_fact_store(&vec![
        fact(1, "X", 101, "X"),
        fact(1, "X", 102, "Y"),
        fact(2, "A", 103, "B"),
    ]);
    assert_eq!(store.facts.len(), 1);
    assert_eq!(store.facts[0].place_id, 2);
}

#[test]
fn name_index_groups_by_place_name() {
    let store = build_fact_store(&vec![
        fact(1, "Alpha", 101, "Beta"),
        fact(2, "Beta", 102, "Gamma"),
        fact(3, "Alpha", 103, "Delta"),
    ]);
    let idx = NameIndex::build(&store);
    let alpha = idx.lookup(&store, &"Alpha".to_string()).expect("Alpha is indexed");
    let mut got = alpha.clone();
    got.sort();
    assert_eq!(got, vec![0usize, 2]);
    assert!(idx.lookup(&store, &"Nowhere".to_string()).is_none());
}

#[test]
fn frontier_pops_longest_then_lowest_score() {
    let mut fr = Frontier::new();
    fr.insert(Entry { dist: 0, chain: vec![0] });
    fr.insert(Entry { dist: 5, chain: vec![1, 2] });
    fr.insert(Entry { dist: -3, chain: vec![3, 4] });
    let first = fr.pop_highest().expect("three entries");
    assert_eq!(first.dist, -3);
    let second = fr.pop_highest().expect("two entries");
    assert_eq!(second.dist, 5);
    let third = fr.pop_highest().expect("one entry");
    assert_eq!(third.chain, vec![0]);
    assert!(fr.pop_highest().is_none());
}

#[test]
fn frontier_pop_lowest_drops_worst_entry() {
    let mut fr = Frontier::new();
    fr.insert(Entry { dist: 0, chain: vec![0] });
    fr.insert(Entry { dist: -3, chain: vec![3, 4] });
    let worst = fr.pop_lowest().expect("two entries");
    assert_eq!(worst.chain, vec![0]);
}

#[test]
fn commit_keeps_only_the_longest_chain_per_origin() {
    let store = build_fact_store(&vec![
        fact(1, "Alpha", 101, "Beta"),
        fact(2, "Beta", 102, "Gamma"),
    ]);
    let mut fin = FinishedStore::new();
    fin.commit(&store, &vec![0]);
    assert_eq!(fin.chains, vec![vec![0usize]]);
    fin.commit(&store, &vec![0, 1]);
    assert_eq!(fin.chains, vec![vec![0usize, 1]]);
    // a shorter chain for the same origin never regresses the entry
    fin.commit(&store, &vec![0]);
    assert_eq!(fin.chains, vec![vec![0usize, 1]]);
    // a different origin gets its own entry
    fin.commit(&store, &vec![1]);
    assert_eq!(fin.chains.len(), 2);
}
