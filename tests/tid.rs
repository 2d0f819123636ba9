use apriori::apriori::AprioriRunner;
use apriori::hybrid::{should_switch, AprioriHybridRunner};
use apriori::tid::{AprioriTIDRunner2, CandidateID, TransformedDatabase};
use apriori::transaction_set::TransactionSet;

fn sorted(mut v: Vec<Vec<usize>>) -> Vec<Vec<usize>> {
    v.sort();
    v
}

fn sample() -> Vec<Vec<usize>> {
    vec![
        vec![0, 1, 2, 4],
        vec![1, 2, 4],
        vec![0, 2, 3],
        vec![1, 2, 3, 4],
        vec![0, 1, 2, 3, 4],
        vec![1, 4],
    ]
}

#[test]
fn tid_first_scenario() {
    let set = TransactionSet::new(vec![vec![1, 2, 3], vec![2, 3]], 4);
    let f = sorted(AprioriTIDRunner2::new(&set, 2).run());
    assert_eq!(f, vec![vec![2], vec![2, 3], vec![3]]);
}

#[test]
fn tid_second_scenario() {
    let set = TransactionSet::new(vec![vec![1, 2, 3], vec![1, 2, 3]], 4);
    let f = sorted(AprioriTIDRunner2::new(&set, 2).run());
    assert_eq!(f.len(), 7);
    assert!(f.contains(&vec![1, 2, 3]));
}

#[test]
fn hybrid_second_scenario() {
    let set = TransactionSet::new(vec![vec![1, 2, 3], vec![1, 2, 3]], 4);
    let f = sorted(AprioriHybridRunner::new(&set, 2).run());
    assert_eq!(f, vec![vec![1], vec![1, 2], vec![1, 2, 3], vec![1, 3], vec![2], vec![2, 3], vec![3]]);
}

#[test]
fn four_miners_agree() {
    for sup in 1..5u64 {
        let set = TransactionSet::new(sample(), 5);
        let a = sorted(AprioriRunner::new(&set, sup).run());
        let b = sorted(AprioriTIDRunner2::new(&set, sup).run());
        let c = sorted(AprioriHybridRunner::new(&set, sup).run());
        let d = sorted(apriori::apriori::AprioriTrie::new(TransactionSet::new(sample(), 5), sup).run());
        assert_eq!(a, b);
        assert_eq!(a, c);
        assert_eq!(a, d);
    }
}

#[test]
fn switch_fires_when_candidates_shrink() {
    assert!(should_switch(50, 80));
    assert!(!should_switch(80, 50));
    assert!(!should_switch(50, 100_000));
    assert!(!should_switch(5, 0));
}

#[test]
fn hybrid_agrees_after_switching() {
    // Ten items all together in several transactions: candidate counts grow
    // then shrink, so the switch to the transformed database happens.
    let mut data = Vec::new();
    for _ in 0..3 {
        data.push((0..7).collect::<Vec<usize>>());
    }
    data.push(vec![0, 1, 2]);
    data.push(vec![3, 4, 5, 6]);
    let set = TransactionSet::new(data.clone(), 7);
    let a = sorted(AprioriRunner::new(&set, 3).run());
    let c = sorted(AprioriHybridRunner::new(&set, 3).run());
    assert_eq!(a, c);
    assert_eq!(a.len(), 127);
}

#[test]
fn candidate_record_accessors() {
    let mut c = CandidateID::new(vec![1, 2, 3], (4, 5));
    assert_eq!(c.items(), &[1, 2, 3]);
    assert_eq!(c.generators(), (4, 5));
    assert_eq!(c.count(), 0);
    assert!(c.extensions().is_empty());
    c.set_count(9);
    assert_eq!(c.count(), 9);
}

#[test]
fn first_transformed_database_is_the_transactions() {
    let set = TransactionSet::new(vec![vec![0, 2], vec![1]], 3);
    let t = TransformedDatabase::from(&set);
    assert_eq!(t.len(), 2);
    assert_eq!(TransformedDatabase::new().len(), 0);
}

#[test]
fn first_transformed_database_omits_empty_transactions() {
    let set = TransactionSet::new(vec![vec![0, 2], vec![], vec![1]], 3);
    let t = TransformedDatabase::from(&set);
    assert_eq!(t.len(), 2);
}

#[test]
fn tid_with_empty_transactions_agrees() {
    let data = vec![vec![0, 1], vec![], vec![0, 1, 2], vec![1, 2]];
    let set = TransactionSet::new(data, 3);
    let a = sorted(AprioriRunner::new(&set, 2).run());
    let b = sorted(AprioriTIDRunner2::new(&set, 2).run());
    assert_eq!(a, b);
}
