use maplike::ops::Get;
use polygon_unionfind::UnionFind;

#[test]
fn test_new() {
    let unionfind: UnionFind<Vec<usize>> = UnionFind::with_len(5);
    for i in 0..5 {
        assert_eq!(unionfind.parents[i], i);
    }
}

#[test]
fn test_new_set() {
    let mut unionfind: UnionFind<Vec<usize>> = UnionFind::new();

    // First set.
    let s0 = unionfind.new_set();
    assert_eq!(s0, 0);
    assert_eq!(*unionfind.parents.get(&s0).unwrap(), s0);
    assert_eq!(*unionfind.ranks.get(&s0).unwrap(), 0);

    // Second set.
    let s1 = unionfind.new_set();
    assert_eq!(s1, 1);
    assert_eq!(*unionfind.parents.get(&s1).unwrap(), s1);
    assert_eq!(*unionfind.ranks.get(&s1).unwrap(), 0);

    // Make sure the two sets are not connected.
    assert!(!unionfind.connected(s0, s1));
}

#[test]
fn test_union_idempotence() {
    let mut unionfind: UnionFind<Vec<usize>> = UnionFind::with_len(3);

    unionfind.union(0, 1);
    let representative_before = unionfind.find_compress(0);

    unionfind.union(0, 1); // Perform union on the same pair again.
    let representative_after = unionfind.find_compress(1);

    assert_eq!(representative_before, representative_after);
}

#[test]
fn test_union_and_find() {
    let mut unionfind: UnionFind<Vec<usize>> = UnionFind::with_len(5);
    unionfind.union(0, 1);
    unionfind.union(1, 2);

    let representative0 = unionfind.find_compress(0);
    let representative1 = unionfind.find_compress(1);
    let representative2 = unionfind.find_compress(2);

    // The first three elements should have the same representative.
    assert_eq!(representative0, representative1);
    assert_eq!(representative1, representative2);

    // 3 and 4 are however still separate.
    assert_ne!(unionfind.find_compress(3), representative0);
    assert_ne!(unionfind.find_compress(4), representative0);
}

#[test]
fn test_connected() {
    let mut unionfind: UnionFind<Vec<usize>> = UnionFind::with_len(4);
    unionfind.union(0, 1);
    unionfind.union(2, 3);

    assert!(unionfind.connected(0, 1));
    assert!(unionfind.connected(2, 3));
    assert!(!unionfind.connected(0, 2));

    unionfind.union(1, 2);
    assert!(unionfind.connected(0, 3));
}

#[test]
fn union_reports_whether_it_merged() {
    let mut uf: UnionFind = UnionFind::with_len(3);
    assert!(uf.union(0, 1));
    assert!(!uf.union(1, 0));
    assert!(uf.union(2, 0));
    assert!(!uf.union(2, 1));
}

#[test]
fn union_by_rank_keeps_the_higher_root() {
    let mut uf: UnionFind = UnionFind::with_len(3);
    // Equal ranks: the root of the first argument wins and grows in rank.
    uf.union(0, 1);
    assert_eq!(uf.parents, vec![0, 0, 2]);
    assert_eq!(uf.ranks, vec![1, 0, 0]);
    // Lower-ranked root 2 goes below root 0, whose rank stays.
    uf.union(2, 1);
    assert_eq!(uf.parents, vec![0, 0, 0]);
    assert_eq!(uf.ranks, vec![1, 0, 0]);
}

#[test]
fn find_compress_flattens_the_path() {
    // A chain 3 -> 2 -> 1 -> 0 with ranks growing towards the root.
    let mut uf: UnionFind = UnionFind::from_parents_ranks(vec![0, 0, 1, 2], vec![3, 2, 1, 0]);
    assert_eq!(uf.find(3), 0);
    assert_eq!(uf.parents, vec![0, 0, 1, 2]);
    assert_eq!(uf.find_compress(3), 0);
    assert_eq!(uf.parents, vec![0, 0, 0, 0]);
    assert_eq!(uf.ranks, vec![3, 2, 1, 0]);
}

#[test]
fn connected_is_an_equivalence() {
    let mut uf: UnionFind = UnionFind::with_len(5);
    uf.union(0, 1);
    uf.union(3, 4);
    for x in 0..5 {
        assert!(uf.connected(x, x));
        for y in 0..5 {
            assert_eq!(uf.connected(x, y), uf.connected(y, x));
            for z in 0..5 {
                if uf.connected(x, y) && uf.connected(y, z) {
                    assert!(uf.connected(x, z));
                }
            }
        }
    }
}

#[test]
fn union_merges_exactly_two_sets() {
    let mut uf: UnionFind = UnionFind::with_len(6);
    uf.union(0, 1);
    uf.union(2, 3);
    uf.union(4, 5);
    uf.union(1, 2);
    assert!(uf.connected(0, 3));
    assert!(!uf.connected(0, 4));
    assert!(!uf.connected(3, 5));
    assert!(uf.connected(4, 5));
}

#[test]
fn new_set_is_a_singleton() {
    let mut uf: UnionFind = UnionFind::with_len(2);
    uf.union(0, 1);
    let s = uf.new_set();
    assert_eq!(s, 2);
    assert_eq!(uf.find(s), s);
    assert!(!uf.connected(0, s));
    assert!(uf.connected(0, 1));
}

#[test]
fn dissolve_returns_the_collections() {
    let uf: UnionFind = UnionFind::with_len(2);
    let (parents, ranks) = uf.dissolve();
    assert_eq!(parents, vec![0, 1]);
    assert_eq!(ranks, vec![0, 0]);
}
