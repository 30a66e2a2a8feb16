use fibheap::rank::rank_limit;
use fibheap::FibHeap;

fn drain(heap: &mut FibHeap<u64, u64>) -> Vec<u64> {
    let mut out = Vec::new();
    while let Some(item) = heap.pop_min() {
        out.push(item);
    }
    out
}

fn shuffled(n: u64) -> Vec<u64> {
    let mut out = Vec::new();
    let mut x: u64 = 7;
    for _ in 0..n {
        x = (x * 37 + 11) % 10007;
        if !out.contains(&x) {
            out.push(x);
        }
    }
    out
}

#[test]
fn empty_tells_whether_the_heap_holds_entries() {
    let mut heap: FibHeap<u32, u32> = FibHeap::new();
    assert!(heap.empty());
    heap.insert(9, 4);
    assert!(!heap.empty());
    assert_eq!(heap.pop_min(), Some(9));
    assert!(heap.empty());
}

#[test]
fn six_entries_come_out_in_ascending_order() {
    let mut heap = FibHeap::new();
    for k in [1u64, 2, 3, 4, 5, 6] {
        heap.insert(k, k);
    }
    assert_eq!(drain(&mut heap), vec![1, 2, 3, 4, 5, 6]);
    assert_eq!(heap.pop_min(), None);
}

#[test]
fn insert_and_pop_all() {
    let input = shuffled(500);
    let mut heap = FibHeap::new();
    for item in input.iter() {
        heap.insert(*item, *item);
    }
    assert_eq!(heap.len(), input.len());
    let sorted = drain(&mut heap);
    let mut expected = input.clone();
    expected.sort();
    assert_eq!(sorted, expected);
    assert_eq!(heap.len(), 0);
}

#[test]
fn insert_and_decrease_and_pop() {
    let input = shuffled(300);
    let mut heap = FibHeap::new();
    for item in input.iter() {
        heap.insert(*item, u64::MAX);
    }
    for item in input.iter() {
        heap.decrease_key(item, *item);
    }
    let sorted = drain(&mut heap);
    let mut expected = input.clone();
    expected.sort();
    assert_eq!(sorted, expected);
}

#[test]
fn decrease_below_parent_cuts_the_node() {
    // After one pop the remaining entries are linked into trees, so that later
    // decreases reach nodes below a root.
    let input = shuffled(200);
    let mut heap = FibHeap::new();
    for item in input.iter() {
        heap.insert(*item, *item + 100_000);
    }
    let mut expected_first = input.clone();
    expected_first.sort();
    assert_eq!(heap.pop_min(), Some(expected_first[0]));
    let rest: Vec<u64> = expected_first[1..].to_vec();
    // Lower every key, largest item first, to its own value: every node is cut or
    // lowered in place, and the order of the items stays the order of the keys.
    for item in rest.iter().rev() {
        heap.decrease_key(item, *item);
    }
    assert_eq!(heap.len(), rest.len());
    assert_eq!(heap.peek_min(), Some(&rest[0]));
    assert_eq!(heap.min_key(), Some(&rest[0]));
    assert_eq!(drain(&mut heap), rest);
}

#[test]
fn decrease_reverses_the_order_inside_trees() {
    let mut heap = FibHeap::new();
    for k in 0u64..64 {
        heap.insert(k, 1000 + k);
    }
    assert_eq!(heap.pop_min(), Some(0));
    // Item k gets key 200 - k: the item that was largest becomes the smallest.
    for k in 1u64..64 {
        heap.decrease_key(&k, 200 - k);
    }
    let expected: Vec<u64> = (1u64..64).rev().collect();
    assert_eq!(drain(&mut heap), expected);
}

#[test]
fn key_lowered_without_cut_is_kept() {
    // 1 becomes the parent of 2 or 3 after the first pop; lowering a child to a key
    // that is still above its parent's must take effect.
    let mut heap = FibHeap::new();
    heap.insert(0u64, 0u64);
    heap.insert(1, 10);
    heap.insert(2, 50);
    heap.insert(3, 60);
    heap.insert(4, 70);
    assert_eq!(heap.pop_min(), Some(0));
    heap.decrease_key(&4, 20);
    heap.decrease_key(&3, 30);
    heap.decrease_key(&2, 40);
    assert_eq!(heap.min_key(), Some(&10));
    assert_eq!(drain(&mut heap), vec![1, 4, 3, 2]);
}

#[test]
fn decrease_to_equal_or_larger_key_changes_nothing() {
    let mut heap = FibHeap::new();
    heap.insert(1u64, 5u64);
    heap.insert(2, 7);
    heap.insert(3, 9);
    heap.decrease_key(&2, 7);
    heap.decrease_key(&2, 8);
    heap.decrease_key(&3, 100);
    assert_eq!(heap.len(), 3);
    assert_eq!(heap.peek_min(), Some(&1));
    assert_eq!(heap.min_key(), Some(&5));
    assert_eq!(drain(&mut heap), vec![1, 2, 3]);
}

#[test]
fn decrease_on_empty_heap_changes_nothing() {
    let mut heap: FibHeap<u64, u64> = FibHeap::new();
    heap.decrease_key(&1, 0);
    assert_eq!(heap.len(), 0);
    assert_eq!(heap.peek_min(), None);
    assert_eq!(heap.pop_min(), None);
}

#[test]
fn equal_key_does_not_move_the_cached_minimum() {
    let mut heap = FibHeap::new();
    heap.insert(10u64, 3u64);
    heap.insert(11, 3);
    assert_eq!(heap.peek_min(), Some(&10));
    heap.insert(12, 4);
    heap.decrease_key(&12, 3);
    assert_eq!(heap.peek_min(), Some(&10));
    heap.insert(13, 2);
    assert_eq!(heap.peek_min(), Some(&13));
    assert_eq!(heap.min_key(), Some(&2));
}

#[test]
fn decrease_finds_the_first_of_two_equal_items() {
    let mut heap = FibHeap::new();
    heap.insert(7u64, 10u64);
    heap.insert(7, 20);
    heap.decrease_key(&7, 5);
    assert_eq!(heap.min_key(), Some(&5));
    assert_eq!(heap.pop_min(), Some(7));
    assert_eq!(heap.min_key(), Some(&20));
    assert_eq!(heap.len(), 1);
}

#[test]
fn count_follows_inserts_and_pops() {
    let mut heap = FibHeap::new();
    for k in 0u64..100 {
        heap.insert(k, 100 - k);
        assert_eq!(heap.len(), (k + 1) as usize);
    }
    for k in 0u64..100 {
        assert_eq!(heap.pop_min(), Some(99 - k));
        assert_eq!(heap.len(), (99 - k) as usize);
    }
    assert!(heap.empty());
}

#[test]
fn rank_limit_is_the_least_index_with_a_larger_fibonacci_number() {
    // Fibonacci numbers: fib(2) = 1, fib(3) = 2, fib(4) = 3, fib(5) = 5, fib(6) = 8,
    // fib(7) = 13; the limit for n is the least k with fib(k + 2) > n.
    assert_eq!(rank_limit(0), 0);
    assert_eq!(rank_limit(1), 1);
    assert_eq!(rank_limit(2), 2);
    assert_eq!(rank_limit(3), 3);
    assert_eq!(rank_limit(4), 3);
    assert_eq!(rank_limit(5), 4);
    assert_eq!(rank_limit(7), 4);
    assert_eq!(rank_limit(8), 5);
    assert_eq!(rank_limit(12), 5);
    assert_eq!(rank_limit(13), 6);
    assert_eq!(rank_limit(usize::MAX), 92);
}

#[test]
fn many_cuts_keep_the_ranks_within_the_buckets() {
    // Pops interleaved with decreases that cut deep nodes: the number of buckets is
    // computed from the count alone, so a rank above the bound would be out of range.
    let mut heap = FibHeap::new();
    let n: u64 = 2000;
    for k in 0..n {
        heap.insert(k, 1_000_000 + (k * 7919) % 10_007);
    }
    let mut low: u64 = 500_000;
    let mut popped = 0usize;
    for round in 0..200u64 {
        assert!(heap.pop_min().is_some());
        popped += 1;
        for step in 0..5u64 {
            let item = (round * 37 + step * 411 + 13) % n;
            low -= 1;
            heap.decrease_key(&item, low);
        }
    }
    assert_eq!(heap.len(), n as usize - popped);
    let mut last: Option<u64> = None;
    let mut count = 0usize;
    loop {
        let key = heap.min_key().copied();
        match heap.pop_min() {
            Some(_) => {
                let key = key.unwrap();
                if let Some(prev) = last {
                    assert!(prev <= key);
                }
                last = Some(key);
                count += 1;
            }
            None => break,
        }
    }
    assert_eq!(count, n as usize - popped);
}
