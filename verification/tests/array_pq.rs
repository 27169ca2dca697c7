use sc2001::frontier::{ArrayPriorityQueue, BinaryMinHeap};
use sc2001::graph::Edge;

#[test]
fn get_min() {
    let mut array_pq = ArrayPriorityQueue::from(vec![21389, 12389, 1, 1239, 2139]);
    let smallest = array_pq.pop();
    assert_eq!(smallest, Some(1));
}

#[test]
fn get_min_pair() {
    let mut array_pq = ArrayPriorityQueue::from(vec![
        Edge(21389, 0),
        Edge(12389, 1),
        Edge(1, 2),
        Edge(1239, 3),
        Edge(2139, 4),
    ]);
    let smallest = array_pq.pop();
    assert_eq!(smallest, Some(Edge(1, 2)));
}

#[test]
fn get_min_same() {
    let mut array_pq = ArrayPriorityQueue::from(vec![1, 1, 1, 1, 1]);
    let smallest = array_pq.pop();
    assert_eq!(smallest, Some(1));
}

#[test]
fn get_min_same_pair() {
    let mut array_pq =
        ArrayPriorityQueue::from(vec![Edge(1, 0), Edge(1, 1), Edge(1, 2), Edge(1, 3), Edge(1, 4)]);
    let smallest = array_pq.pop();
    assert_eq!(smallest, Some(Edge(1, 4)));
}

#[test]
fn get_min_empty() {
    let mut array_pq = ArrayPriorityQueue::<u32>::from(vec![]);
    let smallest = array_pq.pop();
    assert_eq!(smallest, None);
}

#[test]
fn get_min_one() {
    let mut array_pq = ArrayPriorityQueue::from(vec![1]);
    let smallest = array_pq.pop();
    assert_eq!(smallest, Some(1));
}

#[test]
fn test_push() {
    let mut array_pq = ArrayPriorityQueue::from(vec![1]);
    let array_pq_2 = ArrayPriorityQueue::from(vec![1, 2]);
    array_pq.push(2);
    assert_eq!(array_pq, array_pq_2);
}

#[test]
fn heap_pops_ascending_weights() {
    let mut heap = BinaryMinHeap::new();
    for e in [Edge(5, 0), Edge(1, 1), Edge(9, 2), Edge(1, 3), Edge(3, 4)] {
        heap.push(e);
    }
    assert_eq!(heap.pop(), Some(Edge(1, 3)));
    assert_eq!(heap.pop(), Some(Edge(1, 1)));
    assert_eq!(heap.pop(), Some(Edge(3, 4)));
    assert_eq!(heap.pop(), Some(Edge(5, 0)));
    assert_eq!(heap.pop(), Some(Edge(9, 2)));
    assert_eq!(heap.pop(), None);
    assert!(heap.is_empty());
}

#[test]
fn heap_and_scan_agree_on_ties() {
    let entries = vec![Edge(2, 1), Edge(2, 4), Edge(2, 2), Edge(7, 0)];
    let mut heap = BinaryMinHeap::new();
    for e in [Edge(2, 1), Edge(2, 4), Edge(2, 2), Edge(7, 0)] {
        heap.push(e);
    }
    let mut scan = ArrayPriorityQueue::from(entries);
    for _ in 0..4 {
        assert_eq!(heap.pop(), scan.pop());
    }
}
