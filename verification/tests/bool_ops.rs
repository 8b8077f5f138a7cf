use polygon_unionfind::bool_ops::{
    all_merged_shapes, first_merged_shape, overlay_int_polygons, overlay_int_polygons_many,
    rings_to_shape,
    shape_in_safe_range, OverlayOperation,
};
use polygon_unionfind::{Difference, Intersection, Polygon, PolygonWithData, Union};

fn square(x: i32, y: i32, size: i32) -> Polygon<i32> {
    Polygon {
        exterior: vec![[x, y], [x + size, y], [x + size, y + size], [x, y + size]],
        interiors: Vec::new(),
    }
}

fn area2(ring: &[[i32; 2]]) -> i64 {
    let mut a = 0i64;
    for i in 0..ring.len() {
        let p = ring[i];
        let q = ring[(i + 1) % ring.len()];
        a += p[0] as i64 * q[1] as i64 - q[0] as i64 * p[1] as i64;
    }
    a.abs()
}

#[test]
fn union_of_overlapping_squares_is_one_polygon() {
    let merged = Polygon::union(square(0, 0, 2), square(1, 0, 2)).expect("overlap merges");
    assert!(merged.interiors.is_empty());
    // The union of [0,2]x[0,2] and [1,3]x[0,2] is [0,3]x[0,2], of area 6.
    assert_eq!(area2(&merged.exterior), 12);
}

#[test]
fn union_of_disjoint_squares_is_none() {
    assert!(Polygon::union(square(0, 0, 1), square(5, 5, 1)).is_none());
}

#[test]
fn union_out_of_engine_range_is_none() {
    assert!(Polygon::union(square(0x4000_0000, 0, 1), square(0x4000_0000, 0, 1)).is_none());
}

#[test]
fn union_with_data_keeps_the_subject_payload() {
    let a = PolygonWithData { exterior: square(0, 0, 2).exterior, interiors: Vec::new(), data: "a" };
    let b = PolygonWithData { exterior: square(1, 1, 2).exterior, interiors: Vec::new(), data: "b" };
    let merged = PolygonWithData::union(a, b).expect("overlap merges");
    assert_eq!(merged.data, "a");
    assert_eq!(area2(&merged.exterior), 14);
}

#[test]
fn intersection_of_overlapping_squares() {
    let pieces = Polygon::intersect(square(0, 0, 2), square(1, 1, 2));
    assert_eq!(pieces.len(), 1);
    assert_eq!(area2(&pieces[0].exterior), 2);
    assert!(Polygon::intersect(square(0, 0, 1), square(5, 5, 1)).is_empty());
}

#[test]
fn difference_of_squares() {
    let pieces = Polygon::difference(square(0, 0, 3), square(1, 1, 1));
    // A square with a square hole.
    assert_eq!(pieces.len(), 1);
    assert_eq!(pieces[0].interiors.len(), 1);
    assert_eq!(area2(&pieces[0].exterior), 18);
    assert_eq!(area2(&pieces[0].interiors[0]), 2);
    let halves = Polygon::difference(square(0, 0, 3), Polygon {
        exterior: vec![[1, -1], [2, -1], [2, 4], [1, 4]],
        interiors: Vec::new(),
    });
    assert_eq!(halves.len(), 2);
    let with_data = PolygonWithData::difference(
        PolygonWithData { exterior: square(0, 0, 3).exterior, interiors: Vec::new(), data: 7u8 },
        PolygonWithData { exterior: square(1, 1, 1).exterior, interiors: Vec::new(), data: 8u8 },
    );
    assert_eq!(with_data.len(), 1);
    assert_eq!(with_data[0].data, 7);
    let with_data = PolygonWithData::intersect(
        PolygonWithData { exterior: square(0, 0, 3).exterior, interiors: Vec::new(), data: 7u8 },
        PolygonWithData { exterior: square(1, 1, 1).exterior, interiors: Vec::new(), data: 8u8 },
    );
    assert_eq!(with_data.len(), 1);
    assert_eq!(with_data[0].data, 7);
}

#[test]
fn overlay_many_pieces_are_counted() {
    let a = square(0, 0, 4);
    let b = square(1, 1, 2);
    assert!(overlay_int_polygons(&a, &b, OverlayOperation::Union).is_some());
    assert!(overlay_int_polygons(&a, &square(10, 10, 1), OverlayOperation::Union).is_none());
}

#[test]
fn rings_to_shape_puts_the_boundary_first() {
    let p = Polygon::<i32> {
        exterior: vec![[0, 0], [9, 0], [9, 9]],
        interiors: vec![vec![[1, 1], [2, 1], [2, 2]], vec![[5, 5], [6, 5], [6, 6]]],
    };
    let shape = rings_to_shape(&p);
    assert_eq!(shape, vec![p.exterior.clone(), p.interiors[0].clone(), p.interiors[1].clone()]);
}

#[test]
fn first_merged_shape_cases() {
    let ring = vec![[0, 0], [1, 0], [1, 1]];
    let hole = vec![[0, 0], [0, 1], [1, 1]];
    assert_eq!(first_merged_shape::<i32>(vec![]), None);
    assert_eq!(first_merged_shape::<i32>(vec![vec![]]), None);
    assert_eq!(first_merged_shape(vec![vec![ring.clone()], vec![ring.clone()]]), None);
    assert_eq!(
        first_merged_shape(vec![vec![ring.clone(), hole.clone()]]),
        Some((ring.clone(), vec![hole.clone()]))
    );
}

#[test]
fn all_merged_shapes_skips_empty_shapes() {
    let a = vec![[0, 0], [1, 0], [1, 1]];
    let b = vec![[5, 5], [6, 5], [6, 6]];
    let out = all_merged_shapes(vec![vec![a.clone()], vec![], vec![b.clone(), a.clone()]]);
    assert_eq!(out, vec![(a.clone(), vec![]), (b.clone(), vec![a.clone()])]);
}

#[test]
fn safe_range_bounds() {
    assert!(shape_in_safe_range(&vec![vec![[-0x4000_0000, 0x3fff_ffff]]]));
    assert!(!shape_in_safe_range(&vec![vec![[0, 0]], vec![[0x4000_0000, 0]]]));
    assert!(!shape_in_safe_range(&vec![vec![[0, -0x4000_0001]]]));
}

#[test]
fn narrow_coordinates_union_intersect_difference() {
    let a = Polygon::<i16> { exterior: vec![[0, 0], [2, 0], [2, 2], [0, 2]], interiors: Vec::new() };
    let b = Polygon::<i16> { exterior: vec![[1, 0], [3, 0], [3, 2], [1, 2]], interiors: Vec::new() };
    let merged = Polygon::union(a.clone(), b.clone()).expect("overlap merges");
    let widened: Vec<[i32; 2]> = merged.exterior.iter().map(|v| [v[0] as i32, v[1] as i32]).collect();
    assert_eq!(area2(&widened), 12);
    let pieces = Polygon::intersect(a.clone(), b.clone());
    assert_eq!(pieces.len(), 1);
    let pieces = Polygon::difference(a, b);
    assert_eq!(pieces.len(), 1);

    let c = Polygon::<i8> { exterior: vec![[0, 0], [100, 0], [100, 100], [0, 100]], interiors: Vec::new() };
    let d = Polygon::<i8> { exterior: vec![[50, 50], [120, 50], [120, 120], [50, 120]], interiors: Vec::new() };
    assert!(Polygon::union(c.clone(), d.clone()).is_some());
    let far = Polygon::<i8> { exterior: vec![[-100, -100], [-90, -100], [-90, -90]], interiors: Vec::new() };
    assert!(Polygon::union(c.clone(), far).is_none());
    let with_data = PolygonWithData::union(
        PolygonWithData { exterior: c.exterior.clone(), interiors: Vec::new(), data: 1u8 },
        PolygonWithData { exterior: d.exterior.clone(), interiors: Vec::new(), data: 2u8 },
    )
    .expect("overlap merges");
    assert_eq!(with_data.data, 1);
    let cut = PolygonWithData::difference(
        PolygonWithData { exterior: c.exterior.clone(), interiors: Vec::new(), data: 1u8 },
        PolygonWithData { exterior: d.exterior.clone(), interiors: Vec::new(), data: 2u8 },
    );
    assert_eq!(cut.len(), 1);
    assert_eq!(cut[0].data, 1);
    let both = PolygonWithData::intersect(
        PolygonWithData { exterior: c.exterior, interiors: Vec::new(), data: 1u8 },
        PolygonWithData { exterior: d.exterior, interiors: Vec::new(), data: 2u8 },
    );
    assert_eq!(both.len(), 1);
}

#[test]
fn overlay_many_tells_an_empty_result_from_a_failure() {
    let disjoint = overlay_int_polygons_many(&square(0, 0, 1), &square(5, 5, 1), OverlayOperation::Intersect);
    assert_eq!(disjoint, Some(vec![]));
    let out_of_range = overlay_int_polygons_many(
        &square(0, 0, 1),
        &square(1 << 30, 0, 1),
        OverlayOperation::Union,
    );
    assert_eq!(out_of_range, None);
    let overlapping = overlay_int_polygons_many(&square(0, 0, 2), &square(1, 1, 2), OverlayOperation::Intersect)
        .unwrap();
    assert_eq!(overlapping.len(), 1);
}
