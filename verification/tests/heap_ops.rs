use fibheap::FibHeap;

#[test]
fn test_heap_empty() {
    let mut heap: FibHeap<(), ()> = FibHeap::new();

    assert_eq!(heap.len(), 0);
    assert_eq!(heap.peek_min(), None);
    assert_eq!(heap.min_key(), None);
    assert_eq!(heap.pop_min(), None);
}

#[test]
fn test_heap_insert_construction() {
    let mut heap = FibHeap::new();

    heap.insert(1, 1);
    heap.insert(2, 1);
    heap.insert(3, 2);

    assert_eq!(heap.len(), 3);

    assert_eq!(heap.peek_min(), Some(&1));
    assert_eq!(heap.min_key(), Some(&1));
}

#[test]
fn test_heap_pop_min_single() {
    let mut heap = FibHeap::new();

    heap.insert(1, 1);
    heap.insert(2, 2);
    heap.insert(3, 3);
    heap.insert(4, 4);
    heap.insert(5, 5);
    heap.insert(6, 6);

    assert_eq!(heap.pop_min(), Some(1));
    assert_eq!(heap.peek_min(), Some(&2));
    assert_eq!(heap.len(), 5);
}

#[test]
fn test_heap_pop_and_insert() {
    let mut heap = FibHeap::new();

    heap.insert(1, 1);
    heap.insert(2, 2);
    heap.insert(3, 3);

    assert_eq!(heap.pop_min(), Some(1));
    assert_eq!(heap.pop_min(), Some(2));

    heap.insert(2, 2);
    heap.insert(5, 5);
    heap.insert(6, 6);

    assert_eq!(heap.pop_min(), Some(2));
    assert_eq!(heap.pop_min(), Some(3));

    heap.insert(1, 1);
    heap.insert(2, 2);

    assert_eq!(heap.pop_min(), Some(1));
    assert_eq!(heap.pop_min(), Some(2));

    heap.insert(7, 7);
    heap.insert(8, 8);

    assert_eq!(heap.pop_min(), Some(5));
    assert_eq!(heap.pop_min(), Some(6));
    assert_eq!(heap.pop_min(), Some(7));
    assert_eq!(heap.pop_min(), Some(8));

    assert_eq!(heap.len(), 0);
    assert_eq!(heap.peek_min(), None);
    assert_eq!(heap.min_key(), None);
    assert_eq!(heap.pop_min(), None);
}

#[test]
fn test_heap_decrease_key() {
    let mut heap = FibHeap::new();

    heap.insert(3, 3);
    heap.insert(4, 4);

    heap.decrease_key(&3, 2);
    assert_eq!(heap.peek_min(), Some(&3));
    assert_eq!(heap.min_key(), Some(&2));

    heap.decrease_key(&4, 1);
    assert_eq!(heap.peek_min(), Some(&4));
    assert_eq!(heap.min_key(), Some(&1));
}

#[test]
fn test_heap_decrease_key_not_exists() {
    let mut heap = FibHeap::new();

    heap.insert(2, 2);
    heap.insert(3, 3);
    heap.insert(4, 4);

    heap.decrease_key(&5, 1);
    heap.decrease_key(&6, 1);

    assert_eq!(heap.pop_min(), Some(2));
    assert_eq!(heap.pop_min(), Some(3));
    assert_eq!(heap.pop_min(), Some(4));
    assert_eq!(heap.pop_min(), None);
}

#[test]
fn test_heap_decrease_and_pop() {
    let mut heap = FibHeap::new();

    heap.insert(1, 1);
    heap.insert(2, 2);
    heap.insert(3, 3);
    heap.insert(4, 4);
    heap.insert(5, 5);
    heap.insert(6, 6);

    assert_eq!(heap.pop_min(), Some(1));
    assert_eq!(heap.pop_min(), Some(2));

    heap.decrease_key(&6, 1);
    heap.insert(2, 2);

    assert_eq!(heap.peek_min(), Some(&6));
    assert_eq!(heap.min_key(), Some(&1));

    assert_eq!(heap.pop_min(), Some(6));
    assert_eq!(heap.pop_min(), Some(2));

    heap.decrease_key(&3, 3);
    heap.decrease_key(&4, 2);
    heap.decrease_key(&5, 1);

    assert_eq!(heap.pop_min(), Some(5));
    assert_eq!(heap.pop_min(), Some(4));
    assert_eq!(heap.pop_min(), Some(3));
    assert_eq!(heap.pop_min(), None);
    assert_eq!(heap.len(), 0);
}

#[test]
fn test_heap_equal_keys() {
    let mut heap = FibHeap::new();

    heap.insert(1, 1);
    heap.insert(2, 1);

    assert_eq!(heap.pop_min(), Some(1));
    assert_eq!(heap.pop_min(), Some(2));
    assert_eq!(heap.pop_min(), None);
}
