use monotextor_utils::unionfind::UnionFind;

#[test]
fn unionfind_basic() {
    let mut uf = UnionFind::new(6);
    uf.union(3, 2);
    uf.union(4, 2);
    assert_eq!(uf.parents, vec![0, 1, 3, 4, 4, 5]);
    let r = uf.find(2);
    assert_eq!(r, 4);
    assert_eq!(uf.parents, vec![0, 1, 4, 4, 4, 5]);
}

#[test]
fn unionfind_new_is_identity() {
    let uf = UnionFind::new(4);
    assert_eq!(uf.parents, vec![0, 1, 2, 3]);
    assert_eq!(uf.len(), 4);
}

#[test]
fn unionfind_union_same_element_is_noop() {
    let mut uf = UnionFind::new(3);
    uf.union(1, 1);
    assert_eq!(uf.parents, vec![0, 1, 2]);
}

#[test]
fn unionfind_first_argument_wins() {
    let mut uf = UnionFind::new(2);
    uf.union(0, 1);
    assert_eq!(uf.parents, vec![0, 0]);
}

#[test]
fn unionfind_flatten_points_all_at_roots() {
    // build the chain 0 <- 1 <- 2 <- 3
    let mut uf = UnionFind::new(4);
    uf.union(0, 1);
    uf.union(1, 2);
    uf.union(2, 3);
    uf.flatten();
    assert_eq!(uf.parents, vec![0, 0, 0, 0]);
}

#[test]
fn unionfind_find_compresses_only_the_argument() {
    let mut uf = UnionFind::new(3);
    uf.union(1, 0);
    uf.union(2, 1);
    // 0 -> 1 -> 2
    assert_eq!(uf.parents, vec![1, 2, 2]);
    let r = uf.find(0);
    assert_eq!(r, 2);
    assert_eq!(uf.parents, vec![2, 2, 2]);
}
