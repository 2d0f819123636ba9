use apriori::dat::parse_line;
use apriori::distribution::{decode_sets, encode_sets};
use apriori::transaction_set::TransactionSet;

#[test]
fn dat_lines_are_sorted_and_deduplicated() {
    let t = TransactionSet::from_dat(b"3 1 2 1\n\n5 x 2\n  7\t4 \n2 2\n");
    assert_eq!(t.transactions, vec![vec![1, 2, 3], vec![4, 7], vec![2]]);
    assert_eq!(t.num_items, 8);
    assert_eq!(t.size, 6);
}

#[test]
fn dat_last_line_without_newline() {
    let t = TransactionSet::from_dat(b"0 9\n4");
    assert_eq!(t.transactions, vec![vec![0, 9], vec![4]]);
    assert_eq!(t.num_items, 10);
}

#[test]
fn dat_empty_input() {
    let t = TransactionSet::from_dat(b"");
    assert!(t.transactions.is_empty());
    assert_eq!(t.num_items, 0);
}

#[test]
fn dat_number_too_large_drops_the_line() {
    let t = TransactionSet::from_dat(b"1 99999999999999999999999\n2\n");
    assert_eq!(t.transactions, vec![vec![2]]);
}

#[test]
fn line_parse_reports_bad_tokens() {
    assert_eq!(parse_line(&b"4 2 4".to_vec()), Some(vec![2, 4]));
    assert_eq!(parse_line(&b"4 -2".to_vec()), None);
    assert_eq!(parse_line(&b"   ".to_vec()), Some(vec![]));
}

#[test]
fn message_round_trip() {
    let sets = vec![vec![1, 2, 3], vec![2, 3, 4], vec![3, 4, 5]];
    let words = encode_sets(&sets);
    assert_eq!(words, vec![1, 2, 3, u64::MAX, 2, 3, 4, u64::MAX, 3, 4, 5]);
    assert_eq!(decode_sets(&words), sets);
    assert!(decode_sets(&Vec::new()).is_empty());
}
