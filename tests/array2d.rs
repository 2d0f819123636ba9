use apriori::array2d::{AprioriP2Counter2, Array2D};

#[test]
fn test_array2d() {
    let mut array2d = Array2D::new(3);
    array2d.increment(0, 1);
    assert_eq!(array2d.get(0, 1), 1);
    array2d.increment(1, 2);
    assert_eq!(array2d.get(1, 2), 1);
    let mut array2d = Array2D::new(5);
    array2d.increment(4, 3);
    array2d.increment(4, 3);
    assert_eq!(array2d.get(4, 3), 2);
    let mut array2d = Array2D::new(10);
    let mut count = 0;
    for i in 0..10 {
        for j in 0..i {
            array2d.set(i, j, count);
            count += 1;
        }
    }
    let flat = array2d.to_vec();
    for i in 0..45 {
        assert_eq!(flat[i], i as u64);
    }
    let mut iter = array2d.iter();
    let mut i = 0u64;
    while let Some(e) = iter.next() {
        assert_eq!(e.2, i);
        assert_eq!(array2d.get(e.0, e.1), e.2);
        i += 1;
    }
}

#[test]
fn test_apriori_pass2() {
    let mut counter = AprioriP2Counter2::new(&[1, 3, 5]);
    assert!(counter.increment(&[1, 3]));
    assert!(counter.increment(&[3, 5]));
    assert_eq!(counter.get_count(&[1, 3]), Some(1));
    for (v, c) in counter.for_each() {
        if v == [1, 3] || v == [3, 5] {
            assert_eq!(c, 1);
        } else if v == [1, 5] {
            assert_eq!(c, 0);
        } else {
            panic!()
        }
    }
}

#[test]
fn pair_cell_is_symmetric_and_counts_every_increment() {
    let mut a = Array2D::new(4);
    for _ in 0..5 {
        a.increment(2, 3);
    }
    a.increment(3, 2);
    assert_eq!(a.get(2, 3), 6);
    assert_eq!(a.get(3, 2), 6);
    assert_eq!(a.get(0, 1), 0);
    assert_eq!(a.len(), 6);
}

#[test]
fn pair_counter_ignores_items_outside_its_map() {
    let mut counter = AprioriP2Counter2::new(&[2, 4]);
    assert!(!counter.increment(&[1, 2]));
    assert_eq!(counter.get_count(&[1, 2]), None);
    assert_eq!(counter.get_count(&[4, 2]), Some(0));
}

#[test]
fn summing_flat_counts_adds_pairwise() {
    let mut a = Array2D::new(3);
    a.increment(1, 0);
    let mut b = Array2D::new(3);
    b.increment(1, 0);
    b.increment(2, 1);
    a.add_assign(&b);
    assert_eq!(a.get(0, 1), 2);
    assert_eq!(a.get(1, 2), 1);
    assert_eq!(a.get(0, 2), 0);
}

#[test]
fn item_indexed_pair_counter() {
    let mut c = apriori::array2d::AprioriP2Counter::new(4);
    assert!(c.increment(&[3, 1]));
    assert!(c.increment(&[1, 3]));
    assert_eq!(c.get_count(&[1, 3]), Some(2));
    assert_eq!(c.get_count(&[0, 2]), Some(0));
    assert_eq!(c.len(), 6);
}

#[test]
fn summing_empty_matrices() {
    let mut a = Array2D::new(0);
    let b = Array2D::new(1);
    a.add_assign(&b);
    assert_eq!(a.len(), 0);
}
