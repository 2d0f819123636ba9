use apriori::transaction_set::TransactionSet;

#[test]
fn test_paritioning() {
    let v = vec![vec![1, 2, 3], vec![2, 3, 4], vec![3, 4, 5]];
    let t = TransactionSet::new(v, 6);
    let mut a = t.partition(3);
    assert_eq!(a.next().unwrap().transactions, vec![vec![1, 2, 3]]);
    assert_eq!(a.next().unwrap().transactions, vec![vec![2, 3, 4]]);
    assert_eq!(a.next().unwrap().transactions, vec![vec![3, 4, 5]]);
    assert!(a.next().is_none());
}

#[test]
fn last_part_takes_the_remainder() {
    let v = vec![vec![1, 2], vec![2, 3], vec![1, 3], vec![3]];
    let t = TransactionSet::new(v, 4);
    let mut a = t.partition(3);
    assert_eq!(a.next().unwrap().transactions, vec![vec![1, 2]]);
    assert_eq!(a.next().unwrap().transactions, vec![vec![2, 3]]);
    let last = a.next().unwrap();
    assert_eq!(last.transactions, vec![vec![1, 3], vec![3]]);
    assert_eq!(last.size, 3);
    assert_eq!(last.num_items, 4);
    assert!(a.next().is_none());
}

#[test]
fn adding_transactions_tracks_size_and_items() {
    let mut t = TransactionSet::new(vec![], 0);
    t.add_transaction(vec![]);
    assert!(t.transactions.is_empty());
    t.add_transaction(vec![0, 4, 7]);
    t.add_transaction(vec![2]);
    assert_eq!(t.size, 4);
    assert_eq!(t.num_items, 8);
    assert_eq!(t.iter().len(), 2);
}

#[test]
fn transaction_set_test_convertable() {
    let v = vec![vec![1, 2, 3], vec![2, 3, 4], vec![3, 4, 5]];
    let t = TransactionSet::new(v, 6);
    let mut t2 = TransactionSet::new(vec![], 0);
    assert!(t2.transactions.is_empty());
    assert_eq!(t2.num_items, 0);

    let t_v = t.to_vec();
    t2.add_from_vec(&t_v);
    assert_eq!(t2.num_items, 6);
    assert_eq!(t.transactions, t2.transactions);
}

#[test]
fn reading_a_message_raises_the_item_cardinality() {
    let t = TransactionSet::new(vec![vec![1, 9]], 10);
    let mut t2 = TransactionSet::new(vec![vec![0]], 3);
    t2.add_from_vec(&t.to_vec());
    assert_eq!(t2.num_items, 10);
    assert_eq!(t2.transactions, vec![vec![0], vec![1, 9]]);
}
