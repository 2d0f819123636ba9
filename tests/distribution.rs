use apriori::distribution::{Coordinator, CoordinatorStep};
use apriori::distribution::{CountDistribution, CountDistributionHybrid, DistributionError};
use apriori::itemset::contains_sorted;
use apriori::transaction_set::TransactionSet;

#[test]
fn fewer_than_two_ranks_is_refused() {
    assert!(matches!(CountDistribution::new(2, 1), Err(DistributionError::TooFewRanks)));
    assert!(matches!(CountDistribution::new(2, 0), Err(DistributionError::TooFewRanks)));
    assert!(CountDistribution::new(2, 2).is_ok());
    assert!(matches!(CountDistributionHybrid::new(2, 1), Err(DistributionError::TooFewRanks)));
}

#[test]
fn partial_counts_sum_to_the_single_process_count() {
    let data = vec![vec![1, 2, 3], vec![1, 2], vec![2, 3], vec![1, 2, 3]];
    let set = TransactionSet::new(data.clone(), 4);
    let d = CountDistribution::new(2, 3).ok().unwrap();
    let parts = d.split(&set);
    assert_eq!(parts.len(), 3);
    assert_eq!(parts[0].transactions.len(), 1);
    assert_eq!(parts[1].transactions.len(), 1);
    assert_eq!(parts[2].transactions.len(), 2);
    let cands = vec![vec![1, 2], vec![1, 3], vec![2, 3]];
    let mut acc = vec![0u64; cands.len()];
    for p in parts.iter() {
        let partial = CountDistribution::count_candidates(p, &cands, 2);
        CountDistribution::add_counts(&mut acc, &partial);
    }
    let whole = CountDistribution::count_candidates(&set, &cands, 2);
    assert_eq!(acc, whole);
    assert_eq!(acc, vec![3, 2, 3]);
    let f = d.frequent(&cands, &acc);
    assert_eq!(f.len(), 3);
    let f3 = d.frequent(&cands, &vec![3, 1, 3]);
    assert_eq!(f3, vec![vec![1, 2], vec![2, 3]]);
}

#[test]
fn next_level_candidates_are_pruned_joins() {
    let prev = vec![vec![1, 2], vec![1, 3], vec![2, 3], vec![2, 4]];
    let mut c = CountDistribution::candidates(&prev, 3);
    c.sort();
    assert_eq!(c, vec![vec![1, 2, 3]]);
}

#[test]
fn saturating_sum() {
    let mut acc = vec![u64::MAX - 1, 5];
    CountDistribution::add_counts(&mut acc, &vec![5, 5]);
    assert_eq!(acc, vec![u64::MAX, 10]);
}

#[test]
fn merge_containment() {
    assert!(contains_sorted(&vec![1, 2, 3, 5], &vec![2, 5]));
    assert!(!contains_sorted(&vec![1, 2, 3, 5], &vec![2, 4]));
    assert!(contains_sorted(&vec![], &vec![]));
    assert!(!contains_sorted(&vec![], &vec![0]));
}

#[test]
fn hybrid_rank_counting_matches_either_way() {
    let data = vec![vec![1, 2, 3], vec![1, 2], vec![2, 3], vec![1, 2, 3]];
    let set = TransactionSet::new(data, 4);
    let cands = vec![vec![1, 2], vec![1, 3], vec![2, 3]];
    let grow = CountDistributionHybrid::count_level(&set, &cands, 2, 0);
    let shrink = CountDistributionHybrid::count_level(&set, &cands, 2, 10);
    assert_eq!(grow, vec![3, 2, 3]);
    assert_eq!(shrink, vec![3, 2, 3]);
}

#[test]
fn pair_counts_sum_across_ranks() {
    let data = vec![vec![1, 2, 3], vec![1, 2], vec![2, 3], vec![1, 2, 3]];
    let set = TransactionSet::new(data, 4);
    let d = CountDistribution::new(3, 2).ok().unwrap();
    let parts = d.split(&set);
    let freq = vec![1, 2, 3];
    let mut acc = vec![0u64; 3];
    for p in parts.iter() {
        let partial = CountDistribution::count_pairs(p, &freq);
        CountDistribution::add_counts(&mut acc, &partial);
    }
    let mut f = d.frequent_pairs(&freq, &acc);
    f.sort();
    assert_eq!(f, vec![vec![1, 2], vec![2, 3]]);
}

fn drive(set: &TransactionSet, sup: u64, hybrid: bool) -> Vec<Vec<usize>> {
    let d = CountDistribution::new(sup, 3).ok().unwrap();
    let parts = d.split(set);
    let (mut c, mut step) = Coordinator::start(d.copy(), set);
    let mut rounds = 0;
    loop {
        let counts = match &step {
            CoordinatorStep::Done => break,
            CoordinatorStep::Count { k, cands } => {
                let mut acc = vec![0u64; cands.len()];
                for p in parts.iter() {
                    let partial = if hybrid {
                        CountDistributionHybrid::count_level(p, cands, *k, c.prev_len())
                    } else {
                        CountDistribution::count_candidates(p, cands, *k)
                    };
                    CountDistribution::add_counts(&mut acc, &partial);
                }
                acc
            }
            CoordinatorStep::CountPairs { freq } => {
                let mut acc: Vec<u64> = Vec::new();
                for (i, p) in parts.iter().enumerate() {
                    let partial = CountDistribution::count_pairs(p, freq);
                    if i == 0 {
                        acc = vec![0u64; partial.len()];
                    }
                    CountDistribution::add_counts(&mut acc, &partial);
                }
                acc
            }
        };
        step = c.step(&counts);
        rounds += 1;
        assert!(rounds < 100);
    }
    let mut r = c.found_sets().clone();
    r.sort();
    r
}

#[test]
fn coordinator_agrees_with_single_process() {
    let data = vec![vec![0, 1, 2, 4], vec![1, 2, 4], vec![0, 2, 3], vec![1, 2, 3, 4], vec![0, 1, 2, 3, 4], vec![1, 4]];
    for sup in 1..5u64 {
        let set = TransactionSet::new(data.clone(), 5);
        let mut single = apriori::apriori::AprioriRunner::new(&set, sup).run();
        single.sort();
        assert_eq!(drive(&set, sup, false), single);
        assert_eq!(drive(&set, sup, true), single);
    }
}

#[test]
fn coordinator_on_empty_items_is_done_at_once() {
    let set = TransactionSet::new(vec![], 0);
    let d = CountDistribution::new(1, 2).ok().unwrap();
    let (c, step) = Coordinator::start(d, &set);
    assert!(matches!(step, CoordinatorStep::Done));
    assert!(c.found_sets().is_empty());
}
