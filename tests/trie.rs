use apriori::storage::{TrieCounter, TrieSet};
use apriori::trie::Trie;

#[test]
fn test_counter_trie() {
    let mut trie = TrieCounter::new();
    assert!(!trie.increment(&[0]));
    trie.insert(&[1, 2]);
    assert_eq!(trie.get_count(&[1]), Some(0));
    assert_eq!(trie.get_count(&[1, 2]), Some(0));
    assert_eq!(trie.get_count(&[1, 2, 3]), None);
    trie.increment(&[1, 2, 3]);
    assert_eq!(trie.get_count(&[1]), Some(0));
    assert_eq!(trie.get_count(&[1, 2]), Some(0));
    assert_eq!(trie.get_count(&[1, 2, 3]), None);
    trie.increment(&[1, 2]);
    assert_eq!(trie.get_count(&[1]), Some(0));
    assert_eq!(trie.get_count(&[1, 2]), Some(1));
}

#[test]
fn test_trie_set() {
    let mut trie = TrieSet::new();
    assert!(trie.is_empty());
    assert!(trie.len() == 0);
    assert!(!trie.contains(&[0]));
    trie.insert(&[1, 2]);
    assert!(!trie.is_empty());
    assert!(trie.len() == 1);
    assert!(trie.contains(&[1, 2]));
    assert!(!trie.contains(&[1]));
    trie.insert(&[1, 3]);
    let mut set = std::collections::HashSet::new();
    set.insert(vec![1, 2]);
    set.insert(vec![1, 3]);
    for v in trie.for_each(2) {
        assert!(set.remove(&v));
    }
    assert!(set.is_empty());
}

#[test]
fn insert_reports_new_nodes() {
    let mut trie = Trie::new(0);
    assert!(trie.insert(&[1, 2], 5));
    assert!(!trie.insert(&[1], 3));
    assert!(!trie.insert(&[1, 2], 6));
    assert_eq!(trie.get(&[1, 2]), Some(6));
    assert_eq!(trie.get(&[1]), Some(3));
    assert_eq!(trie.get(&[2]), None);
}

#[test]
fn counting_kernel_hits_each_contained_path_once() {
    let mut trie = Trie::new(0);
    trie.insert(&[1, 2, 3], 0);
    trie.insert(&[1, 2, 5], 0);
    trie.insert(&[1, 2, 6], 0);
    trie.insert(&[2, 3, 5], 0);
    trie.count(&[1, 2, 3, 4, 5], 3);
    assert_eq!(trie.get(&[1, 2, 3]), Some(1));
    assert_eq!(trie.get(&[1, 2, 5]), Some(1));
    assert_eq!(trie.get(&[1, 2, 6]), Some(0));
    assert_eq!(trie.get(&[2, 3, 5]), Some(1));
    assert_eq!(trie.get(&[1, 2]), Some(0));
    trie.count(&[1, 2, 3], 3);
    assert_eq!(trie.get(&[1, 2, 3]), Some(2));
}

#[test]
fn frequent_filter_keeps_counts_at_support() {
    let mut c = TrieCounter::new();
    c.add(&[1, 2], 3);
    c.add(&[1, 4], 1);
    c.add(&[2, 4], 2);
    let f = c.to_frequent(2, 2);
    assert!(f.contains(&[1, 2]));
    assert!(!f.contains(&[1, 4]));
    assert!(f.contains(&[2, 4]));
    assert_eq!(f.len(), 2);
}

#[test]
fn set_form_round_trip() {
    let mut trie = Trie::new(0);
    trie.insert(&[1, 2, 3], 1);
    trie.insert(&[1, 2, 4], 1);
    trie.insert(&[1, 3, 4], 1);
    let words = trie.to_vec().ok().unwrap();
    assert_eq!(words, vec![1, 1, 2, 2, 2, 3 | (1u64 << 63), 4 | (1u64 << 63), 3, 1, 4 | (1u64 << 63)]);
    let back = Trie::from_vec(&words).unwrap();
    assert_eq!(back.get(&[1, 2, 3]), Some(1));
    assert_eq!(back.get(&[1, 2, 4]), Some(1));
    assert_eq!(back.get(&[1, 3, 4]), Some(1));
    assert_eq!(back.get(&[1, 3]), Some(0));
    assert_eq!(back.get(&[2]), None);
}

#[test]
fn set_form_of_the_empty_tree() {
    let trie = Trie::new(0);
    let words = trie.to_vec().ok().unwrap();
    assert_eq!(words, vec![u64::MAX]);
    let back = Trie::from_vec(&words).unwrap();
    assert_eq!(back.get(&[]), Some(0));
    assert_eq!(back.get(&[0]), None);
}

#[test]
fn set_form_rejects_large_ids_and_bad_words() {
    let mut trie = Trie::new(0);
    trie.insert(&[1usize << 63], 1);
    assert!(trie.to_vec().is_err());
    assert!(Trie::from_vec(&vec![2, 1 | (1u64 << 63)]).is_none());
    assert!(Trie::from_vec(&vec![1, 5 | (1u64 << 63), 7]).is_none());
}

#[test]
fn set_form_of_one_pair() {
    let mut t = Trie::new(0);
    assert_eq!(t.to_vec().ok().unwrap(), vec![u64::MAX]);
    t.insert(&[1, 2], 1);
    assert_eq!(t.to_vec().ok().unwrap(), vec![1, 1, 1, 2 + (1u64 << 63)]);
}

#[test]
fn trie_test_convertable() {
    let mut trie = Trie::new(0);
    trie.insert(&[1, 2, 3], 2);
    trie.insert(&[1, 2, 4], 5);
    trie.insert(&[1, 3, 4], 6);
    let v = trie.to_counts();
    let mut trie = Trie::new(0);
    trie.insert(&[1, 2, 3], 0);
    trie.insert(&[1, 2, 4], 0);
    trie.insert(&[1, 3, 4], 0);
    assert!(trie.add_counts(&v));
    assert_eq!(trie.get(&[1, 2, 3]), Some(2));
    assert_eq!(trie.get(&[1, 2, 4]), Some(5));
    assert_eq!(trie.get(&[1, 3, 4]), Some(6));

    let mut trie2 = Trie::new(0);
    trie2.insert(&[1, 2, 3], 2);
    trie2.insert(&[1, 2, 4], 5);
    trie2.insert(&[1, 3, 4], 6);

    trie2.insert(&[1, 3, 5], 8);
    trie.insert(&[1, 3, 5], 0);
    let v = trie2.to_counts();
    assert!(trie.add_counts(&v));
    assert_eq!(trie.get(&[1, 2, 3]), Some(4));
    assert_eq!(trie.get(&[1, 2, 4]), Some(10));
    assert_eq!(trie.get(&[1, 3, 4]), Some(12));
    assert_eq!(trie.get(&[1, 3, 5]), Some(8));

    let mut trie = Trie::new(0);
    trie.insert(&[1, 2, 3], 1);
    trie.insert(&[1, 2, 4], 1);
    trie.insert(&[1, 3, 4], 1);
    let v = trie.to_vec().ok().unwrap();
    let trie = Trie::from_vec(&v).unwrap();
    assert_eq!(trie.get(&[1, 2, 3]), Some(1));
    assert_eq!(trie.get(&[1, 2, 4]), Some(1));
    assert_eq!(trie.get(&[1, 3, 4]), Some(1));
}

#[test]
fn counter_form_of_the_wrong_length_is_refused() {
    let mut trie = Trie::new(0);
    trie.insert(&[1, 2], 3);
    assert_eq!(trie.to_counts(), vec![0, 0, 3]);
    assert!(!trie.add_counts(&vec![1, 2]));
    assert_eq!(trie.get(&[1, 2]), Some(3));
    let copy = trie.with_counts(&vec![4, 5, 6]).unwrap();
    assert_eq!(copy.get(&[]), Some(4));
    assert_eq!(copy.get(&[1]), Some(5));
    assert_eq!(copy.get(&[1, 2]), Some(6));
}
