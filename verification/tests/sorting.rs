use nanorand::{Rng, WyRand};
use sc2001::insertion_merge::InsertionMergeSort;
use sc2001::insertion_sort::InsertionSort;
use sc2001::merge_sort::MergeSort;
use sc2001::quicksort::QuickSort;
use sc2001::test_utils::assert_sorted;

fn gen_random_array(n: usize) -> Vec<u32> {
    let mut rng = WyRand::new();
    let mut data: Vec<u32> = Vec::with_capacity(n);
    for _ in 0..n {
        data.push(rng.generate::<u32>());
    }
    data
}

#[test]
fn test_insertion_merge_sort_random() {
    let mut data = gen_random_array(10000);
    InsertionMergeSort::sort(&mut data, 15);
    assert_sorted(&data);
}

#[test]
fn insertion_merge_test_insertion_merge_sort_random() {
    let mut data = gen_random_array(10000);
    InsertionMergeSort::sort(&mut data, 15);
    assert_sorted(&data);
}

#[test]
fn test_insertion_sort_random() {
    let mut data = gen_random_array(10000);
    InsertionSort::sort(&mut data);
    assert_sorted(&data);
}

#[test]
fn test_merge_sort_random() {
    let mut data = gen_random_array(10000);
    MergeSort::sort(&mut data);
    assert_sorted(&data);
}

#[test]
fn test_quicksort_random_1k() {
    let mut data = gen_random_array(1000);
    QuickSort::sort(&mut data);
    assert_sorted(&data);
}

#[test]
fn test_quicksort_random_10k() {
    let mut data = gen_random_array(10000);
    QuickSort::sort(&mut data);
    assert_sorted(&data);
}

#[test]
fn test_quicksort_random_100k() {
    let mut data = gen_random_array(100000);
    QuickSort::sort(&mut data);
    assert_sorted(&data);
}

#[test]
fn test_quicksort_random_1mill() {
    let mut data = gen_random_array(1000000);
    QuickSort::sort(&mut data);
    assert_sorted(&data);
}

#[test]
fn insertion_sort_counts_comparisons_exactly() {
    let mut data = vec![3u32, 2, 1];
    let mut key_cmp: u64 = 0;
    InsertionSort::sort_key_cmp(&mut data, &mut key_cmp);
    assert_eq!(data, vec![1, 2, 3]);
    assert_eq!(key_cmp, 3);

    let mut sorted_already = vec![1u32, 2, 3, 4];
    let mut cmp2: u64 = 0;
    InsertionSort::sort_key_cmp(&mut sorted_already, &mut cmp2);
    assert_eq!(sorted_already, vec![1, 2, 3, 4]);
    assert_eq!(cmp2, 3);
}

#[test]
fn merge_counts_comparisons_exactly() {
    let mut data = vec![1u32, 3, 2, 4];
    let mut key_cmp: u64 = 0;
    MergeSort::merge_key_cmp(&mut data, 0, 2, 4, &mut key_cmp);
    assert_eq!(data, vec![1, 2, 3, 4]);
    assert_eq!(key_cmp, 3);
}

#[test]
fn hybrid_counts_comparisons_exactly() {
    let mut data = vec![2u32, 1];
    let mut key_cmp: u64 = 0;
    InsertionMergeSort::sort_key_cmp(&mut data, 1, &mut key_cmp);
    assert_eq!(data, vec![1, 2]);
    assert_eq!(key_cmp, 1);
}

#[test]
fn merge_ranges_leave_the_rest_alone() {
    let mut data = vec![9u32, 1, 3, 2, 4, 7];
    MergeSort::merge(&mut data, 1, 3, 5);
    assert_eq!(data, vec![9, 1, 2, 3, 4, 7]);

    let mut aux: Vec<u32> = Vec::new();
    let mut again = vec![5u32, 4, 6, 3];
    MergeSort::merge_prealloc(&mut again, 0, 1, 3, &mut aux);
    assert_eq!(again, vec![4, 5, 6, 3]);
}

#[test]
fn quicksort_partition_splits_around_pivot() {
    let mut data = vec![5u32, 9, 1, 7, 3];
    let p = QuickSort::partition(&mut data, 0, 5);
    for k in 0..p {
        assert!(data[k] < data[p]);
    }
    for k in (p + 1)..5 {
        assert!(data[k] >= data[p]);
    }
}
