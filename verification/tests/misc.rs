use sc2001::lcs::lcs_bottom_up;
use sc2001::min_max_search::min_max_search;

#[test]
fn run_lcs() {
    let s = "ACGGA";
    let s1 = "ACTG";
    assert_eq!(lcs_bottom_up(s, s1), 3);
    let s = "AGGTAB";
    let s1 = "GXTXAYB";
    assert_eq!(lcs_bottom_up(s, s1), 4);
}

#[test]
fn run_min_max() {
    let mut min = i32::MAX;
    let mut max = i32::MIN;
    let buf = vec![6, 2, 3, 4, 21, 20, 28, 10];
    min_max_search(&buf, &mut max, &mut min);
    println!("min: {}, max: {}", min, max);
}

#[test]
fn min_max_exact_values() {
    let mut min = i32::MAX;
    let mut max = i32::MIN;
    let buf = vec![6, 2, 3, 4, 21, 20, 28, 10];
    min_max_search(&buf, &mut max, &mut min);
    assert_eq!(min, 2);
    assert_eq!(max, 28);

    let mut min1 = 0;
    let mut max1 = 0;
    let single = vec![-7];
    min_max_search(&single, &mut max1, &mut min1);
    assert_eq!(min1, -7);
    assert_eq!(max1, -7);
}

#[test]
fn lcs_empty_and_identical() {
    assert_eq!(lcs_bottom_up("", "ABC"), 0);
    assert_eq!(lcs_bottom_up("ABC", ""), 0);
    assert_eq!(lcs_bottom_up("ABC", "ABC"), 3);
}
