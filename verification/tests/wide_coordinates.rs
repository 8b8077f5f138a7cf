use polygon_unionfind::bool_ops::OverlayOperation;
use polygon_unionfind::wide_coordinates::{overlay_wide_polygons, overlay_wide_polygons_many};
use polygon_unionfind::Polygon;

fn square(x: i64, y: i64, size: i64) -> Polygon<i64> {
    Polygon {
        exterior: vec![[x, y], [x + size, y], [x + size, y + size], [x, y + size]],
        interiors: Vec::new(),
    }
}

#[test]
fn wide_coordinates_beyond_i32_give_none() {
    let a = Polygon::<i64> { exterior: vec![[0, 0], [1i64 << 40, 0], [0, 1]], interiors: vec![] };
    let b = Polygon::<i64> { exterior: vec![[0, 0], [1, 0], [0, 1]], interiors: vec![] };
    assert!(overlay_wide_polygons(&a, &b, OverlayOperation::Union).is_none());
    assert!(overlay_wide_polygons_many(&a, &b, OverlayOperation::Intersect).is_none());
}

#[test]
fn wide_union_of_overlapping_squares() {
    let (exterior, interiors) =
        overlay_wide_polygons(&square(0, 0, 2), &square(1, 0, 2), OverlayOperation::Union).unwrap();
    assert!(interiors.is_empty());
    let mut sorted = exterior.clone();
    sorted.sort();
    assert_eq!(sorted, vec![[0, 0], [0, 2], [3, 0], [3, 2]]);
}

#[test]
fn wide_intersection_of_disjoint_squares_is_empty_not_none() {
    let pieces =
        overlay_wide_polygons_many(&square(0, 0, 1), &square(5, 5, 1), OverlayOperation::Intersect);
    assert_eq!(pieces, Some(vec![]));
}

#[test]
fn wide_difference_pieces() {
    // A vertical bar through the square cuts it in two.
    let bar = Polygon::<i64> { exterior: vec![[1, -1], [3, -1], [3, 5], [1, 5]], interiors: vec![] };
    let pieces =
        overlay_wide_polygons_many(&square(0, 0, 4), &bar, OverlayOperation::Difference).unwrap();
    assert_eq!(pieces.len(), 2);
}
