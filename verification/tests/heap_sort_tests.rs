use sc2001::heap_sort::HeapSort;
use sc2001::test_utils::assert_sorted;

#[test]
fn test_heapify() {
    let mut buf = vec![1, 7, 3, 2, 9, 27];
    HeapSort::build_max_heap(&mut buf);
    println!("{:?}", &buf);
    for i in 0..buf.len() {
        let (l, r) = HeapSort::child_idx(i);

        if l < buf.len() {
            assert!(buf[i] >= buf[l]);
        }

        if r < buf.len() {
            assert!(buf[i] >= buf[r]);
        }
    }
}

#[test]
fn heap_sort_sorts() {
    let mut buf: Vec<u32> = vec![9, 1, 27, 3, 3, 0, 14, 2];
    HeapSort::sort(&mut buf);
    assert_eq!(buf, vec![0, 1, 2, 3, 3, 9, 14, 27]);
    assert_sorted(&buf);

    let mut tiny: Vec<u32> = vec![5];
    HeapSort::sort(&mut tiny);
    assert_eq!(tiny, vec![5]);
}
