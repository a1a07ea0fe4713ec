use pre_annotation::union_find::UnionFind;

#[test]
fn new_sets_are_singletons() {
    let mut uf = UnionFind::new(&vec![10u32, 20, 30]);
    assert_eq!(uf.find(10), 10);
    assert_eq!(uf.find(20), 20);
    assert_eq!(uf.find(30), 30);
}

#[test]
fn union_keeps_first_representative() {
    let mut uf = UnionFind::new(&vec![1u32, 2, 3]);
    uf.union(1, 2);
    assert_eq!(uf.find(2), 1);
    assert_eq!(uf.find(1), 1);
    assert_eq!(uf.find(3), 3);
    uf.union(3, 2);
    assert_eq!(uf.find(1), 3);
    assert_eq!(uf.find(2), 3);
}

#[test]
fn find_is_idempotent_and_unions_are_transitive() {
    let mut uf = UnionFind::new(&vec![0usize, 1, 2, 3, 4]);
    uf.union(0, 1);
    uf.union(1, 2);
    let r = uf.find(0);
    assert_eq!(uf.find(r), r);
    assert_eq!(uf.find(0), uf.find(2));
    assert_eq!(uf.find(2), 0);
    assert_ne!(uf.find(3), uf.find(0));
}

#[test]
fn duplicate_keys_are_one_node() {
    let mut uf = UnionFind::new(&vec![5u32, 5, 6]);
    uf.union(6, 5);
    assert_eq!(uf.find(5), 6);
}
