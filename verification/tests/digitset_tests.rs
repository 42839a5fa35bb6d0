use sudoku_rs::util::digitset::DigitSet;

#[test]
fn test_digit_set_new() {
    let set1 = DigitSet::new_empty();
    assert!(set1.is_empty());
    let mut set2 = DigitSet::new_empty();
    set2.add(1);
    set2.add(2);
    set2.add(9);
    assert_eq!(set2.count(), 3);
}

#[test]
fn test_new_full() {
    let full_set = DigitSet::new_full();
    assert_eq!(full_set.values(), vec![1, 2, 3, 4, 5, 6, 7, 8, 9]);
}

#[test]
fn test_remove_empty() {
    let mut set = DigitSet::new_empty();
    set.remove(1);
    assert!(set.is_empty());
}

#[test]
fn test_add_duplicate() {
    let mut set = DigitSet::new_empty();
    set.add(1);
    set.add(1);
    let mut expected = DigitSet::new_empty();
    expected.add(1);
    assert_eq!(set, expected);
}

#[test]
fn test_out_of_range_values() {
    let mut set = DigitSet::new_empty();
    set.add(10);
    assert!(set.is_empty());
    assert!(!set.contains(10));
    set.remove(10);
    assert!(set.is_empty());
}

#[test]
fn digit_set_algebra() {
    let a = DigitSet::new_from_values(&[1, 2, 3, 10]);
    let b = DigitSet::new_from_values(&[3, 4]);
    assert_eq!(a.union(&b).values(), vec![1, 2, 3, 4]);
    assert_eq!(a.intersect(&b).values(), vec![3]);
    assert_eq!(a.difference(&b).values(), vec![1, 2]);
    let mut c = a;
    c.clear();
    assert!(c.is_empty());
}
