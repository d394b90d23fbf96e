use binary_heap::{Comparator, Heap, HeapOrder, MaxHeap, MinHeap};

fn drain(heap: &mut Heap<i32>) -> Vec<i32> {
    let mut out = Vec::new();
    while let Some(x) = heap.next() {
        out.push(x);
    }
    out
}

#[test]
fn test_empty_heap() {
    let mut heap = MaxHeap::new::<i32>();
    assert_eq!(heap.next(), None);
}

#[test]
fn test_min_heap() {
    let mut heap = MinHeap::new();
    heap.add(4);
    heap.add(2);
    heap.add(9);
    heap.add(11);
    assert_eq!(heap.len(), 4);
    assert_eq!(heap.next(), Some(2));
    assert_eq!(heap.next(), Some(4));
    assert_eq!(heap.next(), Some(9));
    heap.add(1);
    assert_eq!(heap.next(), Some(1));
}

#[test]
fn test_max_heap() {
    let mut heap = MaxHeap::new();
    heap.add(4);
    heap.add(2);
    heap.add(9);
    heap.add(11);
    assert_eq!(heap.len(), 4);
    assert_eq!(heap.next(), Some(11));
    assert_eq!(heap.next(), Some(9));
    assert_eq!(heap.next(), Some(4));
    heap.add(1);
    assert_eq!(heap.next(), Some(2));
}

#[test]
fn fresh_heap_is_empty() {
    let mut heap: Heap<i32> = Heap::new_min();
    assert!(heap.is_empty());
    assert_eq!(heap.len(), 0);
    assert_eq!(heap.next(), None);
    assert!(heap.is_empty());
}

#[test]
fn drained_heap_stays_empty() {
    let mut heap: Heap<i32> = Heap::new_max();
    heap.add(3);
    heap.add(7);
    assert_eq!(heap.next(), Some(7));
    assert_eq!(heap.next(), Some(3));
    assert_eq!(heap.next(), None);
    assert_eq!(heap.next(), None);
    assert_eq!(heap.len(), 0);
    assert!(heap.is_empty());
}

#[test]
fn len_counts_inserts_minus_extractions() {
    let mut heap: Heap<i32> = Heap::new(Comparator::Less);
    for (k, x) in [5, 1, 8, 1, 3].iter().enumerate() {
        heap.add(*x);
        assert_eq!(heap.len(), k + 1);
    }
    assert!(!heap.is_empty());
    heap.next();
    heap.next();
    assert_eq!(heap.len(), 3);
    heap.add(0);
    assert_eq!(heap.len(), 4);
}

#[test]
fn min_drain_is_sorted_ascending() {
    let mut heap: Heap<i32> = Heap::new(Comparator::Less);
    let input = [15, -3, 7, 7, 0, 42, -3, 9, 1, 100, 8, 2];
    for x in input.iter() {
        heap.add(*x);
    }
    let out = drain(&mut heap);
    let mut expected = input.to_vec();
    expected.sort();
    assert_eq!(out, expected);
}

#[test]
fn max_drain_is_sorted_descending() {
    let mut heap: Heap<i32> = Heap::new(Comparator::Greater);
    let input = [15, -3, 7, 7, 0, 42, -3, 9, 1, 100, 8, 2];
    for x in input.iter() {
        heap.add(*x);
    }
    let out = drain(&mut heap);
    let mut expected = input.to_vec();
    expected.sort();
    expected.reverse();
    assert_eq!(out, expected);
}

#[test]
fn equal_keys_all_come_out() {
    let mut heap = MinHeap::new();
    for _ in 0..5 {
        heap.add(4);
    }
    assert_eq!(drain(&mut heap), vec![4, 4, 4, 4, 4]);
}

#[test]
fn single_element_round_trip() {
    let mut heap = MaxHeap::new();
    heap.add(-8);
    assert_eq!(heap.len(), 1);
    assert_eq!(heap.next(), Some(-8));
    assert!(heap.is_empty());
}

#[test]
fn interleaved_inserts_and_extractions() {
    let mut heap = MinHeap::new();
    heap.add(10u64);
    heap.add(20);
    assert_eq!(heap.next(), Some(10));
    heap.add(5);
    heap.add(30);
    heap.add(15);
    assert_eq!(heap.next(), Some(5));
    assert_eq!(heap.next(), Some(15));
    assert_eq!(heap.next(), Some(20));
    assert_eq!(heap.next(), Some(30));
    assert_eq!(heap.next(), None);
}

#[test]
fn comparator_prefers_by_direction() {
    assert!(Comparator::Less.prefers(&1, &2));
    assert!(!Comparator::Less.prefers(&2, &2));
    assert!(Comparator::Greater.prefers(&3, &2));
    assert!(!Comparator::Greater.prefers(&2, &3));
}

#[test]
fn closure_order_less_than() {
    let mut heap = Heap::new(|a: &i32, b: &i32| a < b);
    for x in [6, -1, 4, 4, 0].iter() {
        heap.add(*x);
    }
    assert_eq!(heap.len(), 5);
    let mut out = Vec::new();
    while let Some(x) = heap.next() {
        out.push(x);
    }
    assert_eq!(out, vec![-1, 0, 4, 4, 6]);
    assert_eq!(heap.next(), None);
}

#[test]
fn closure_order_by_key() {
    let mut heap = Heap::new(|a: &(u32, char), b: &(u32, char)| a.0 > b.0);
    heap.add((2, 'b'));
    heap.add((9, 'z'));
    heap.add((5, 'm'));
    heap.add((7, 'q'));
    assert_eq!(heap.next(), Some((9, 'z')));
    assert_eq!(heap.next(), Some((7, 'q')));
    assert_eq!(heap.next(), Some((5, 'm')));
    assert_eq!(heap.next(), Some((2, 'b')));
    assert!(heap.is_empty());
}

#[test]
fn closure_order_with_ties_keeps_keys_sorted() {
    let mut heap = Heap::new(|a: &i32, b: &i32| a.abs() < b.abs());
    for x in [-3, 3, 1, -7, 0, 2, -2].iter() {
        heap.add(*x);
    }
    let mut keys = Vec::new();
    while let Some(x) = heap.next() {
        keys.push(x.abs());
    }
    assert_eq!(keys, vec![0, 1, 2, 2, 3, 3, 7]);
}

#[test]
fn drain_returns_sorted_elements_and_empties() {
    let mut heap = MaxHeap::new();
    for x in [3, 14, 1, 5, 9, 2, 6].iter() {
        heap.add(*x);
    }
    assert_eq!(heap.drain(), vec![14, 9, 6, 5, 3, 2, 1]);
    assert!(heap.is_empty());
    assert_eq!(heap.drain(), Vec::<i32>::new());
}
