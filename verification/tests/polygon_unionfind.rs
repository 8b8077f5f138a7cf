use polygon_unionfind::polygon_unionfind::BoxEntry;
use polygon_unionfind::{Polygon, PolygonUnionFind};

fn triangle(points: [[i32; 2]; 3]) -> Polygon<i32> {
    Polygon { exterior: points.to_vec(), interiors: Vec::new() }
}

fn square(x: i32, y: i32, size: i32) -> Polygon<i32> {
    Polygon {
        exterior: vec![[x, y], [x + size, y], [x + size, y + size], [x, y + size]],
        interiors: Vec::new(),
    }
}

fn sorted_entries(puf: &PolygonUnionFind) -> Vec<BoxEntry> {
    let mut entries = puf.rtree().entries();
    entries.sort();
    entries
}

#[test]
fn readme_overlapping_triangles_share_a_representative() {
    let mut polygon_unionfind = PolygonUnionFind::<Polygon<i32>>::new();
    let first = polygon_unionfind.insert(triangle([[0, 0], [3, 0], [0, 3]]));
    let second = polygon_unionfind.insert(triangle([[1, 0], [4, 0], [1, 3]]));
    assert_eq!(first.index(), 0);
    assert_eq!(second.index(), 1);
    let rep_first = polygon_unionfind.find(first.index()).exterior.clone();
    let rep_second = polygon_unionfind.find(second.index()).exterior.clone();
    assert_eq!(rep_first, rep_second);
    assert_eq!(polygon_unionfind.polygon_indices().len(), 1);
    assert!(polygon_unionfind.unionfind().find(0) == polygon_unionfind.unionfind().find(1));
    // One set, one bounding box: that of the merged polygon.
    let entries = sorted_entries(&polygon_unionfind);
    assert_eq!(entries.len(), 1);
}

#[test]
fn disjoint_polygons_stay_apart() {
    let mut puf = PolygonUnionFind::<Polygon<i32>>::new();
    let a = puf.insert(square(0, 0, 2));
    let b = puf.insert(square(10, 10, 2));
    assert_eq!(puf.polygon_indices(), vec![a.index(), b.index()]);
    assert_eq!(puf.polygons().len(), 2);
    assert_eq!(sorted_entries(&puf), vec![(0, 0, 2, 2, 0), (10, 10, 12, 12, 1)]);
    assert_eq!(puf.find_compress(1).exterior, square(10, 10, 2).exterior);
}

#[test]
fn intersecting_boxes_without_overlap_stay_apart() {
    let mut puf = PolygonUnionFind::<Polygon<i32>>::new();
    // Two triangles whose bounding boxes overlap but whose areas do not.
    puf.insert(triangle([[0, 0], [10, 0], [0, 10]]));
    puf.insert(triangle([[10, 10], [10, 4], [4, 10]]));
    assert_eq!(puf.polygon_indices(), vec![0, 1]);
    assert_eq!(sorted_entries(&puf).len(), 2);
}

#[test]
fn a_bridge_joins_two_sets() {
    let mut puf = PolygonUnionFind::<Polygon<i32>>::new();
    puf.insert(square(0, 0, 2));
    puf.insert(square(4, 0, 2));
    assert_eq!(puf.polygon_indices(), vec![0, 1]);
    let bridge = puf.insert(square(1, 0, 4));
    assert_eq!(bridge.index(), 2);
    let indices = puf.polygon_indices();
    assert_eq!(indices.len(), 1);
    let entries = sorted_entries(&puf);
    assert_eq!(entries.len(), 1);
    assert_eq!(entries[0].0, 0);
    assert_eq!(entries[0].2, 6);
    assert_eq!(entries[0].4, indices[0]);
    let merged = puf.find(0).exterior.clone();
    assert_eq!(puf.find(1).exterior, merged);
    assert_eq!(puf.find(2).exterior, merged);
    assert_eq!(puf.raw_polygons().len(), 3);
}

#[test]
fn far_apart_squares_fill_a_deep_tree() {
    // Seven small squares spread over a wide area make the R-tree split a
    // node; its areas and distances are computed without overflow.
    let mut puf = PolygonUnionFind::<Polygon<i32>>::new();
    for i in 0..7 {
        puf.insert(square(i * 10_000 - 30_000, (i % 3) * 30_000 - 30_000, 5));
    }
    assert_eq!(puf.polygon_indices(), (0..7).collect::<Vec<usize>>());
    assert_eq!(sorted_entries(&puf).len(), 7);
}

#[test]
fn huge_squares_and_many_entries() {
    let mut puf = PolygonUnionFind::<Polygon<i32>>::new();
    let big = 1 << 29;
    for i in 0..40 {
        let x = (i % 8) * (big / 4) - big;
        let y = (i / 8) * (big / 4) - big;
        puf.insert(square(x, y, 1000));
    }
    puf.insert(square(-big, -big, 2 * big - 1));
    // The last square covers all others and merges them into one set.
    assert_eq!(puf.polygon_indices().len(), 1);
    assert_eq!(sorted_entries(&puf).len(), 1);
}

#[test]
fn clear_resets_everything() {
    let mut puf = PolygonUnionFind::<Polygon<i32>>::new();
    puf.insert(square(0, 0, 2));
    puf.insert(square(1, 1, 2));
    puf.clear();
    assert_eq!(puf.raw_polygons().len(), 0);
    assert!(puf.rtree().entries().is_empty());
    assert!(puf.polygon_indices().is_empty());
    let id = puf.insert(square(0, 0, 1));
    assert_eq!(id.index(), 0);
}

#[test]
fn dissolve_hands_back_the_parts() {
    let mut puf = PolygonUnionFind::<Polygon<i32>>::new();
    puf.insert(square(0, 0, 2));
    puf.insert(square(5, 5, 2));
    let (polygons, rtree, mut unionfind) = puf.dissolve();
    assert_eq!(polygons.len(), 2);
    assert_eq!(rtree.entries().len(), 2);
    assert!(!unionfind.connected(0, 1));
}

#[test]
fn a_clone_evolves_independently() {
    let mut puf = PolygonUnionFind::<Polygon<i32>>::new();
    puf.insert(square(0, 0, 2));
    let mut copy = puf.clone();
    assert_eq!(sorted_entries(&copy), sorted_entries(&puf));
    copy.insert(square(1, 1, 2));
    assert_eq!(copy.polygon_indices(), vec![0]);
    assert_eq!(puf.polygon_indices(), vec![0]);
    assert_eq!(puf.raw_polygons().len(), 1);
    assert_eq!(copy.raw_polygons().len(), 2);
    assert_eq!(sorted_entries(&puf), vec![(0, 0, 2, 2, 0)]);
    assert_eq!(sorted_entries(&copy), vec![(0, 0, 3, 3, 0)]);
}
