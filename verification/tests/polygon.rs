use polygon_unionfind::hull::{convex_hull, hull_or_triangle, lex_sort};
use polygon_unionfind::{Centroid, Polygon, PolygonId, PolygonWithData, Rings};

#[test]
fn polygon_centroid_of_triangle() {
    let polygon = Polygon {
        exterior: vec![[0, 0], [3, 0], [0, 3]],
        interiors: Vec::new(),
    };
    assert_eq!(Centroid::centroid(&polygon), [1, 1]);
}

#[test]
fn polygon_centroid_of_empty_polygon() {
    let polygon = Polygon::<i64> {
        exterior: Vec::new(),
        interiors: Vec::new(),
    };
    assert_eq!(Centroid::centroid(&polygon), [0, 0]);
}

#[test]
fn polygon_with_data_centroid() {
    let polygon = PolygonWithData {
        exterior: vec![[0, 0], [4, 0], [4, 2], [0, 2]],
        interiors: Vec::new(),
        data: (),
    };
    assert_eq!(Centroid::centroid(&polygon), [2, 1]);
}

#[test]
fn centroid_divides_toward_zero() {
    let polygon = Polygon::<i64> {
        exterior: vec![[-3, 5], [0, 0]],
        interiors: Vec::new(),
    };
    assert_eq!(Centroid::centroid(&polygon), [-1, 2]);
    let polygon = Polygon::<i32> {
        exterior: vec![[-7, -1], [0, 0], [0, 0]],
        interiors: Vec::new(),
    };
    assert_eq!(Centroid::centroid(&polygon), [-2, 0]);
}

#[test]
fn polygon_id_round_trip() {
    let id = PolygonId::new(7);
    assert_eq!(id.index(), 7);
    assert!(PolygonId::new(1) < PolygonId::new(2));
}

#[test]
fn rings_expose_exterior_and_interiors() {
    let polygon = Polygon::<i32> {
        exterior: vec![[0, 0], [10, 0], [10, 10]],
        interiors: vec![vec![[1, 1], [2, 1], [2, 2]]],
    };
    assert_eq!(polygon.exterior(), &[[0, 0], [10, 0], [10, 10]]);
    assert_eq!(polygon.interiors().len(), 1);
    assert_eq!(polygon.interiors()[0], vec![[1, 1], [2, 1], [2, 2]]);
    let copy = polygon.clone();
    assert_eq!(copy.exterior, polygon.exterior);
    assert_eq!(copy.interiors, polygon.interiors);
}

#[test]
fn convex_hull_of_a_square_with_an_inner_point() {
    let hull = convex_hull(&[[2, 2], [0, 0], [4, 0], [4, 4], [0, 4], [1, 3]]);
    assert_eq!(hull, vec![[0, 0], [4, 0], [4, 4], [0, 4]]);
}

#[test]
fn convex_hull_keeps_short_inputs_and_drops_collinear_points() {
    assert_eq!(convex_hull(&[[5, 5], [1, 1]]), vec![[5, 5], [1, 1]]);
    assert_eq!(convex_hull(&[[0, 0], [1, 1], [2, 2]]), vec![[0, 0], [2, 2]]);
    assert_eq!(convex_hull(&[[0, 0], [2, 0], [1, 0], [1, 1]]), vec![[0, 0], [2, 0], [1, 1]]);
    assert_eq!(lex_sort(&[[1, 2], [0, 5], [1, 1], [0, 5]]), vec![[0, 5], [0, 5], [1, 1], [1, 2]]);
}

fn cross(o: [i32; 2], a: [i32; 2], b: [i32; 2]) -> i64 {
    (a[0] as i64 - o[0] as i64) * (b[1] as i64 - o[1] as i64)
        - (a[1] as i64 - o[1] as i64) * (b[0] as i64 - o[0] as i64)
}

#[test]
fn every_point_lies_inside_the_hull() {
    let points = [[3, 7], [-2, 4], [5, -1], [0, 0], [1, 1], [-4, -3], [6, 6], [2, 9], [2, 9], [-1, 2]];
    let hull = convex_hull(&points);
    assert_eq!(hull, vec![[-4, -3], [5, -1], [6, 6], [2, 9], [-2, 4]]);
    for i in 0..hull.len() {
        let (a, b) = (hull[i], hull[(i + 1) % hull.len()]);
        for &q in &points {
            assert!(cross(a, b, q) >= 0);
        }
    }
}

#[test]
fn short_hulls_fall_back_to_a_triangle() {
    assert_eq!(hull_or_triangle(vec![[1, 1]], [10, 20], 5), vec![[5, 15], [15, 15], [10, 25]]);
    let square = vec![[0, 0], [4, 0], [4, 4], [0, 4]];
    assert_eq!(hull_or_triangle(square.clone(), [10, 20], 5), square);
}

#[test]
fn hull_of_a_square_with_edge_and_inner_points() {
    let points = [[1, 0], [2, 2], [0, 0], [1, 1], [0, 2], [2, 0]];
    assert_eq!(convex_hull(&points), vec![[0, 0], [2, 0], [2, 2], [0, 2]]);
}
