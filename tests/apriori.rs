use apriori::apriori::{apriori_pass_one, apriori_pass_three, apriori_pass_two, AprioriRunner, AprioriTrie};
use apriori::storage::{TrieCounter, TrieSet};
use apriori::transaction_set::TransactionSet;

fn sorted(mut v: Vec<Vec<usize>>) -> Vec<Vec<usize>> {
    v.sort();
    v
}

#[test]
fn test_run_one() {
    let set = TransactionSet::new(vec![vec![1, 2, 3], vec![2, 3]], 4);
    let a: Vec<_> = apriori_pass_one(&set, 2);
    assert!(!a.contains(&0));
    assert!(!a.contains(&1));
    assert!(a.contains(&2));
    assert!(a.contains(&3));
}

#[test]
fn test_run_two() {
    let set = TransactionSet::new(vec![vec![1, 2, 3], vec![2, 3]], 4);
    let a: TrieSet = apriori_pass_two(&set, 2, &apriori_pass_one(&set, 2));
    assert_eq!(a.len(), 1);
    assert!(a.contains(&[2, 3]));
    let a: TrieSet = apriori_pass_two(&set, 2, &[1, 2, 3]);
    assert_eq!(a.len(), 1);
    assert!(a.contains(&[2, 3]));
}

#[test]
fn test_run_general() {
    let set = TransactionSet::new(vec![vec![1, 2, 3], vec![1, 2, 3]], 4);
    let mut frequent = TrieSet::new();
    frequent.insert(&[1, 2]);
    frequent.insert(&[1, 3]);
    frequent.insert(&[2, 3]);
    let f: TrieSet = apriori_pass_three(&set, &frequent, 3, 2);
    assert_eq!(f.len(), 1);
    assert!(f.contains(&[1, 2, 3]));
}

#[test]
fn test_run_apriori() {
    let set = TransactionSet::new(vec![vec![1, 2, 3], vec![1, 2, 3]], 4);
    let a = AprioriRunner::new(&set, 2);
    let s = a.run();
    assert!(s.contains(&vec![1, 2, 3]));
    assert!(s.contains(&vec![1, 2]));
    assert!(s.contains(&vec![1, 3]));
    assert!(s.contains(&vec![2, 3]));
    assert!(s.contains(&vec![1]));
    assert!(s.contains(&vec![2]));
    assert!(s.contains(&vec![3]));
    assert!(!s.contains(&vec![0]));
    assert_eq!(s.len(), 7);
}

#[test]
fn storage_test_join() {
    let mut trie = TrieSet::new();
    trie.insert(&[1, 2]);
    trie.insert(&[1, 3]);
    trie.insert(&[2, 3]);
    let join: TrieCounter = trie.join(3);
    assert_eq!(join.get_count(&[1, 2]), Some(0));
    assert_eq!(join.get_count(&[1, 2, 3]), Some(0));
    assert_eq!(join.get_count(&[2, 3]), None);
}

#[test]
fn first_scenario_two_transactions() {
    let set = TransactionSet::new(vec![vec![1, 2, 3], vec![2, 3]], 4);
    let f = sorted(AprioriRunner::new(&set, 2).run());
    assert_eq!(f, vec![vec![2], vec![2, 3], vec![3]]);
}

#[test]
fn second_scenario_seven_itemsets() {
    let set = TransactionSet::new(vec![vec![1, 2, 3], vec![1, 2, 3]], 4);
    let f = sorted(AprioriRunner::new(&set, 2).run());
    assert_eq!(f.len(), 7);
    assert_eq!(f, vec![vec![1], vec![1, 2], vec![1, 2, 3], vec![1, 3], vec![2], vec![2, 3], vec![3]]);
}

#[test]
fn third_scenario_level_three_empty() {
    let set = TransactionSet::new(vec![vec![1, 2, 3], vec![1, 2, 5], vec![1, 2, 6]], 7);
    let mut prev = TrieSet::new();
    prev.insert(&[1, 2]);
    let f3 = apriori_pass_three(&set, &prev, 3, 3);
    assert!(f3.is_empty());
    let f = sorted(AprioriRunner::new(&set, 3).run());
    assert_eq!(f, vec![vec![1], vec![1, 2], vec![2]]);
}

#[test]
fn join_prunes_missing_subsets() {
    let mut f = TrieSet::new();
    f.insert(&[1, 2, 3]);
    f.insert(&[1, 2, 5]);
    let c = f.join(4);
    assert_eq!(c.get_count(&[1, 2, 3, 5]), None);
    f.insert(&[1, 3, 5]);
    f.insert(&[2, 3, 5]);
    let c = f.join(4);
    assert_eq!(c.get_count(&[1, 2, 3, 5]), Some(0));
}

#[test]
fn trie_miner_agrees_with_dense_miner() {
    let data = vec![vec![0, 1, 2, 4], vec![1, 2, 4], vec![0, 2, 3], vec![1, 2, 3, 4], vec![0, 1, 2, 3, 4]];
    let set = TransactionSet::new(data.clone(), 5);
    for sup in 1..4u64 {
        let a = sorted(AprioriRunner::new(&set, sup).run());
        let b = sorted(AprioriTrie::new(TransactionSet::new(data.clone(), 5), sup).run());
        assert_eq!(a, b);
    }
}

#[test]
fn empty_database_has_no_frequent_sets() {
    let set = TransactionSet::new(vec![], 0);
    assert!(AprioriRunner::new(&set, 1).run().is_empty());
}
