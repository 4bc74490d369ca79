use rags::capped_heap::CappedHeap;

fn drained(cap: usize, items: &[u128]) -> Vec<u128> {
    let mut heap = CappedHeap::new(cap);
    for item in items {
        heap.insert(*item);
    }
    heap.drain_sorted_descending()
}

#[test]
fn zero_cap() {
    let mut heap = CappedHeap::new(0);
    heap.insert(1);
    heap.insert(2);
    assert_eq!(heap.drain_sorted_descending(), vec![]);
}

#[test]
fn one_cap() {
    let mut heap = CappedHeap::new(1);
    heap.insert(1);
    heap.insert(2);
    assert_eq!(heap.drain_sorted_descending(), vec![2]);
}

#[test]
fn two_cap() {
    let mut heap = CappedHeap::new(2);
    heap.insert(1);
    heap.insert(3);
    heap.insert(2);
    heap.insert(1);
    assert_eq!(heap.drain_sorted_descending(), vec![3, 2]);
}

#[test]
fn under_cap() {
    let mut heap = CappedHeap::new(3);
    heap.insert(2);
    heap.insert(1);
    assert_eq!(heap.drain_sorted_descending(), vec![2, 1]);
}

#[test]
fn insert_says_whether_the_item_was_kept() {
    let mut heap = CappedHeap::new(2);
    assert!(heap.insert(5));
    assert!(heap.insert(7));
    assert!(!heap.insert(4));
    assert!(heap.insert(6));
    assert_eq!(heap.drain_sorted_descending(), vec![7, 6]);
}

#[test]
fn an_item_equal_to_the_least_is_not_kept() {
    let mut heap = CappedHeap::new(2);
    assert!(heap.insert(5));
    assert!(heap.insert(5));
    assert!(!heap.insert(5));
    assert!(heap.insert(9));
    assert_eq!(heap.drain_sorted_descending(), vec![9, 5]);
}

#[test]
fn zero_capacity_rejects_every_item() {
    let mut heap = CappedHeap::new(0);
    for item in 0..20u128 {
        assert!(!heap.insert(item));
        assert_eq!(heap.len(), 0);
    }
    assert_eq!(heap.peek_min(), None);
    assert_eq!(heap.drain_sorted_descending(), Vec::<u128>::new());
}

#[test]
fn the_greatest_items_stay_whatever_the_order() {
    let expected: Vec<u128> = vec![9, 8, 7];
    assert_eq!(drained(3, &[1, 2, 3, 4, 5, 6, 7, 8, 9]), expected);
    assert_eq!(drained(3, &[9, 8, 7, 6, 5, 4, 3, 2, 1]), expected);
    assert_eq!(drained(3, &[5, 9, 1, 7, 3, 8, 2, 6, 4]), expected);
}

#[test]
fn repeated_items_are_kept_as_often_as_they_fit() {
    assert_eq!(drained(4, &[3, 1, 3, 2, 3, 1]), vec![3, 3, 3, 2]);
}

#[test]
fn len_capacity_and_least_follow_the_inserts() {
    let mut heap = CappedHeap::new(3);
    assert_eq!(heap.capacity(), 3);
    assert_eq!(heap.len(), 0);
    assert_eq!(heap.peek_min(), None);
    heap.insert(10);
    heap.insert(4);
    assert_eq!(heap.len(), 2);
    assert_eq!(heap.peek_min(), Some(4));
    heap.insert(6);
    heap.insert(5);
    assert_eq!(heap.len(), 3);
    assert_eq!(heap.peek_min(), Some(5));
    assert_eq!(heap.capacity(), 3);
}

#[test]
fn items_of_the_full_width_are_ordered_as_numbers() {
    let big = u128::MAX;
    assert_eq!(drained(2, &[1 << 64, big, 1 << 100, 7]), vec![big, 1 << 100]);
}
