use sc2001::union_find::{QuickFind, QuickUnion, UnionFind, WeightedQuickUnion};

#[test]
fn union_find_ui_test() {
    let uf = UnionFind::<QuickUnion, i32>::new(10);
    println!("{:?}", uf);
    let uf = UnionFind::<QuickFind, i32>::new(10);
    println!("{:?}", uf);
    let uf = UnionFind::<WeightedQuickUnion, i32, Vec<i32>>::new(10);
    println!("{:?}", uf);
}

#[test]
fn quick_find_test() {
    let mut qf = UnionFind::<QuickFind, i32>::new(10);
    qf.union(4, 3);
    println!("{:?}", &qf);
    qf.union(3, 8);
    println!("{:?}", &qf);
    qf.union(6, 5);
    println!("{:?}", &qf);
    qf.union(9, 4);
    println!("{:?}", &qf);
    println!("{:?}", qf.connected(3, 9));
}

#[test]
fn quick_union_test() {
    let mut qf = UnionFind::<QuickUnion, i32>::new(10);
    qf.union(4, 3);
    println!("{:?}", &qf);
    qf.union(3, 8);
    println!("{:?}", &qf);
    qf.union(6, 5);
    println!("{:?}", &qf);
    qf.union(9, 4);
    println!("{:?}", &qf);
    println!("{:?}", qf.connected(3, 9));
}

#[test]
fn weighted_quick_union_test() {
    let mut uf = UnionFind::<WeightedQuickUnion, usize, Vec<usize>>::new(10);
    uf.union(4, 3);
    uf.union(3, 8);
    uf.union(6, 5);
    uf.union(9, 4);
    uf.union(2, 1);
    uf.union(5, 0);
    assert_eq!(vec![6, 2, 2, 4, 4, 6, 6, 7, 4, 4], uf.id);
}

#[test]
fn connection_survives_later_unions() {
    let mut qf = UnionFind::<QuickFind, i32>::new(8);
    qf.union(1, 2);
    assert!(qf.connected(1, 2));
    qf.union(5, 6);
    qf.union(3, 7);
    qf.union(6, 0);
    assert!(qf.connected(1, 2));

    let mut qu = UnionFind::<QuickUnion, i32>::new(8);
    qu.union(1, 2);
    assert!(qu.connected(1, 2));
    qu.union(5, 6);
    qu.union(3, 7);
    qu.union(6, 0);
    assert!(qu.connected(1, 2));

    let mut wqu = UnionFind::<WeightedQuickUnion, usize, Vec<usize>>::new(8);
    wqu.union(1, 2);
    assert!(wqu.connected(1, 2));
    wqu.union(5, 6);
    wqu.union(3, 7);
    wqu.union(6, 0);
    assert!(wqu.connected(1, 2));
}

#[test]
fn count_falls_only_on_real_merges() {
    let mut uf = UnionFind::<WeightedQuickUnion, usize, Vec<usize>>::new(5);
    assert_eq!(uf.count, 5);
    uf.union(0, 1);
    assert_eq!(uf.count, 4);
    uf.union(1, 0);
    assert_eq!(uf.count, 4);
    uf.union(2, 3);
    uf.union(3, 0);
    assert_eq!(uf.count, 2);

    let mut qf = UnionFind::<QuickFind, i32>::new(4);
    qf.union(0, 1);
    assert_eq!(qf.count, 3);
    qf.union(1, 0);
    assert_eq!(qf.count, 3);
}
