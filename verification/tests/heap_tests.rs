use fibheap::fibonacci_heap::FibHeap;
use fibheap::minheap::MinHeap;
use fibheap::HeapError;

#[test]
fn insert_and_get_min() {
    let mut h = FibHeap::new();
    h.insert((0, 20)).unwrap();
    h.insert((1, 10)).unwrap();
    assert_eq!(h.get_min(), Some((1, 10)));
}

#[test]
fn decrease_key() {
    let mut h = FibHeap::new();
    h.insert((7, 100)).unwrap();
    h.insert((8, 200)).unwrap();
    h.decrease_key(8, 50).unwrap();
    assert_eq!(h.get_min(), Some((8, 50)));
}

#[test]
fn basic_minheap_ops() {
    let mut h = MinHeap::new();
    h.insert((0, 10)).unwrap();
    h.insert((1, 5)).unwrap();
    assert_eq!(h.get_min().unwrap(), (1, 5));
    let popped = h.delete_min().unwrap();
    assert_eq!(popped, (1, 5));
    assert_eq!(h.get_min().unwrap(), (0, 10));
}

#[test]
fn test_insert_once() {
    let mut mh = MinHeap::new();
    mh.insert((0, 42)).unwrap();
    assert_eq!(mh.heap.len(), 1);
    assert_eq!(mh.heap[0], (0, 42));
    assert_eq!(mh.positions.len(), 1);
    assert_eq!(mh.positions[0], 0);
}

#[test]
fn test_insert_bubble_up() {
    let mut mh = MinHeap::new();
    mh.insert((5, 69)).unwrap();
    mh.insert((3, 8)).unwrap();
    assert_eq!(mh.heap, vec![(3, 8), (5, 69)]);
    assert_eq!(mh.positions[3], 0);
    assert_eq!(mh.positions[5], 1);
}

#[test]
fn test_get_min_peek_only() {
    let mut mh = MinHeap::new();
    mh.insert((0, 20)).unwrap();
    mh.insert((1, 10)).unwrap();
    let first = mh.get_min().unwrap();
    let second = mh.get_min().unwrap();
    assert_eq!(first, (1, 10));
    assert_eq!(second, (1, 10));
    assert_eq!(mh.heap.len(), 2);
}

#[test]
fn test_delete_min_basic() {
    let mut mh = MinHeap::new();
    mh.insert((0, 20)).unwrap();
    mh.insert((1, 10)).unwrap();
    mh.insert((2, 30)).unwrap();
    let min = mh.delete_min().unwrap();
    assert_eq!(min, (1, 10));
    assert_eq!(mh.get_min().unwrap(), (0, 20));
    assert_eq!(mh.positions[0], 0);
    assert_eq!(mh.positions[2], 1);
}

#[test]
fn test_delete_min_empty() {
    let mut mh = MinHeap::new();
    assert!(mh.delete_min().is_none());
}

#[test]
fn test_bubble_up_manual() {
    let mut mh = MinHeap::new();
    mh.heap = vec![(0, 10), (1, 5)];
    mh.positions = vec![0, 1];
    mh.bubble_up(1);
    assert_eq!(mh.heap, vec![(1, 5), (0, 10)]);
    assert_eq!(mh.positions, vec![1, 0]);
}

#[test]
fn test_bubble_down_manual() {
    let mut mh = MinHeap::new();
    mh.heap = vec![(0, 50), (1, 20), (2, 30)];
    mh.positions = vec![0, 1, 2];
    mh.bubble_down(0);
    assert_eq!(mh.heap[0], (1, 20));
    assert_eq!(mh.positions[1], 0);
    assert_eq!(mh.positions[0], 1);
}

#[test]
fn test_mixed_operations() {
    let mut mh = MinHeap::new();
    mh.insert((3, 15)).unwrap();
    mh.insert((2, 25)).unwrap();
    mh.insert((5, 5)).unwrap();
    assert_eq!(mh.get_min().unwrap(), (5, 5));
    let order: Vec<_> = (0..3).map(|_| mh.delete_min().unwrap()).collect();
    assert_eq!(order, vec![(5, 5), (3, 15), (2, 25)]);
    assert!(mh.delete_min().is_none());
}

#[test]
fn test_build_heap() {
    let items = vec![(2, 50), (0, 10), (3, 20), (1, 5)];
    let mut mh = MinHeap::build_heap(items);
    assert_eq!(mh.get_min().unwrap(), (1, 5));
    assert_eq!(mh.positions[1], 0);
    assert_eq!(mh.heap.len(), 4);
    let order: Vec<_> = (0..4).map(|_| mh.delete_min().unwrap()).collect();
    assert_eq!(order, vec![(1, 5), (0, 10), (3, 20), (2, 50)]);
    assert!(mh.delete_min().is_none());
}

#[test]
fn test_is_empty() {
    let mut mh = MinHeap::new();
    assert!(mh.is_empty());
    mh.insert((0, 100)).unwrap();
    assert!(!mh.is_empty());
    mh.delete_min();
    assert!(mh.is_empty());
}

#[test]
fn test_decrease_key() {
    let mut mh = MinHeap::new();
    mh.insert((0, 100)).unwrap();
    mh.insert((1, 200)).unwrap();
    mh.insert((2, 300)).unwrap();
    assert_eq!(mh.get_min().unwrap(), (0, 100));
    mh.decrease_key(2, 50).unwrap();
    assert_eq!(mh.get_min().unwrap(), (2, 50));
    assert_eq!(mh.positions[2], 0);
}

#[test]
fn fib_decrease_key_scenario() {
    let mut h = FibHeap::new();
    h.insert((0, 100)).unwrap();
    h.insert((1, 200)).unwrap();
    h.insert((2, 300)).unwrap();
    h.decrease_key(2, 50).unwrap();
    assert_eq!(h.get_min(), Some((2, 50)));
}

#[test]
fn fib_duplicate_id_rejected() {
    let mut h = FibHeap::new();
    h.insert((4, 7)).unwrap();
    assert_eq!(h.insert((4, 9)), Err(HeapError::DuplicateId));
    assert_eq!(h.get_min(), Some((4, 7)));
}

#[test]
fn fib_decrease_key_errors() {
    let mut h = FibHeap::new();
    h.insert((1, 10)).unwrap();
    assert_eq!(h.decrease_key(2, 5), Err(HeapError::IdNotPresent));
    assert_eq!(h.decrease_key(1, 10), Err(HeapError::KeyNotDecreasing));
    assert_eq!(h.decrease_key(1, 11), Err(HeapError::KeyNotDecreasing));
    h.decrease_key(1, 9).unwrap();
    assert_eq!(h.get_min(), Some((1, 9)));
}

#[test]
fn fib_len_and_clear() {
    let mut h = FibHeap::new();
    assert!(h.is_empty());
    h.insert((0, 3)).unwrap();
    h.insert((1, 1)).unwrap();
    h.insert((2, 2)).unwrap();
    assert_eq!(h.len(), 3);
    assert!(h.assert_heap_ok(1));
    assert!(!h.assert_heap_ok(2));
    h.clear();
    assert!(h.is_empty());
    assert_eq!(h.len(), 0);
    assert_eq!(h.get_min(), None);
    h.insert((1, 4)).unwrap();
    assert_eq!(h.get_min(), Some((1, 4)));
}

#[test]
fn fib_build_heap_min() {
    let h = FibHeap::build_heap(vec![(2, 50), (0, 10), (3, 20), (1, 5)]);
    assert_eq!(h.len(), 4);
    assert_eq!(h.get_min(), Some((1, 5)));
}

#[test]
fn minheap_insert_errors() {
    let mut mh = MinHeap::new();
    mh.insert((0, 1)).unwrap();
    assert_eq!(mh.insert((0, 2)), Err(HeapError::DuplicateId));
    assert_eq!(mh.decrease_key(7, 0), Err(HeapError::IdNotPresent));
    assert_eq!(mh.decrease_key(0, 1), Err(HeapError::KeyNotDecreasing));
}

#[test]
fn minheap_sorted_drain() {
    let mut mh = MinHeap::build_heap(vec![(0, 9), (1, -3), (2, 4), (3, 0), (4, 12)]);
    let mut out = Vec::new();
    while let Some(e) = mh.delete_min() {
        out.push(e);
    }
    assert_eq!(out, vec![(1, -3), (3, 0), (2, 4), (0, 9), (4, 12)]);
}

#[test]
fn delete_min_order() {
    let mut h = FibHeap::new();
    h.insert((2, 30)).unwrap();
    h.insert((3, 5)).unwrap();
    h.insert((4, 25)).unwrap();
    assert_eq!(h.delete_min(), Some((3, 5)));
    assert_eq!(h.delete_min(), Some((4, 25)));
    assert_eq!(h.delete_min(), Some((2, 30)));
    assert!(h.is_empty());
}

#[test]
fn basic_fibheap_ops() {
    let mut f = FibHeap::new();
    f.insert((0, 10)).unwrap();
    f.insert((1, 5)).unwrap();
    assert_eq!(f.get_min().unwrap(), (1, 5));
    let popped = f.delete_min().unwrap();
    assert_eq!(popped, (1, 5));
    assert_eq!(f.get_min().unwrap(), (0, 10));
}

#[test]
fn fib_mixed_operations() {
    let mut h = FibHeap::new();
    h.insert((3, 15)).unwrap();
    h.insert((2, 25)).unwrap();
    h.insert((5, 5)).unwrap();
    assert_eq!(h.get_min(), Some((5, 5)));
    assert_eq!(h.delete_min(), Some((5, 5)));
    assert_eq!(h.delete_min(), Some((3, 15)));
    assert_eq!(h.delete_min(), Some((2, 25)));
    assert_eq!(h.delete_min(), None);
}

#[test]
fn fib_build_heap_drain() {
    let mut h = FibHeap::build_heap(vec![(2, 50), (0, 10), (3, 20), (1, 5)]);
    let mut out = Vec::new();
    while let Some(e) = h.delete_min() {
        out.push(e);
    }
    assert_eq!(out, vec![(1, 5), (0, 10), (3, 20), (2, 50)]);
    assert!(h.is_empty());
}

#[test]
fn fib_decrease_key_then_drain() {
    let mut h = FibHeap::new();
    h.insert((0, 100)).unwrap();
    h.insert((1, 200)).unwrap();
    h.insert((2, 300)).unwrap();
    h.insert((3, 150)).unwrap();
    assert_eq!(h.delete_min(), Some((0, 100)));
    h.decrease_key(2, 50).unwrap();
    assert_eq!(h.delete_min(), Some((2, 50)));
    h.decrease_key(1, 1).unwrap();
    assert_eq!(h.delete_min(), Some((1, 1)));
    assert_eq!(h.delete_min(), Some((3, 150)));
    assert_eq!(h.delete_min(), None);
    assert_eq!(h.len(), 0);
}

#[test]
fn fib_reinsert_after_delete() {
    let mut h = FibHeap::new();
    h.insert((7, 9)).unwrap();
    assert_eq!(h.delete_min(), Some((7, 9)));
    h.insert((7, 4)).unwrap();
    assert_eq!(h.get_min(), Some((7, 4)));
    assert_eq!(h.len(), 1);
}
