//! Boolean operations (union, intersection, difference) on integer polygons,
//! computed by the `i_overlay` engine with the even-odd fill rule.

use vstd::prelude::*;

use i_overlay::i_float::int::point::IntPoint;

use crate::polygon::{copy_ring, rings_view, Polygon, PolygonWithData, Rings};

verus! {

type Rule = i_overlay::core::overlay_rule::OverlayRule;

type Fill = i_overlay::core::fill_rule::FillRule;

type Engine = i_overlay::core::overlay::Overlay<i32>;

/// Union of two polygons; `None` when the result is not a single polygon.
pub trait Union<T> {
    fn union(subj: T, clip: T) -> Option<T>;
}

/// Intersection of two polygons, as a list of polygons.
pub trait Intersection<T> {
    fn intersect(subj: T, clip: T) -> Vec<T>;
}

/// Difference of two polygons, as a list of polygons.
pub trait Difference<T> {
    fn difference(subj: T, clip: T) -> Vec<T>;
}

/// The Boolean operation an overlay performs.
#[derive(Clone, Copy, Debug, PartialEq, Eq)]
pub enum OverlayOperation {
    Union,
    Intersect,
    Difference,
}

pub open spec fn shapes_view<K>(shapes: Seq<Vec<Vec<[K; 2]>>>) -> Seq<Seq<Seq<[K; 2]>>> {
    shapes.map_values(|shape: Vec<Vec<[K; 2]>>| rings_view(shape@))
}

/// The shapes that the overlay engine returns for the given subject shape,
/// clip shape and operation, under the even-odd fill rule.
pub uninterp spec fn overlay_shapes(
    subj: Seq<Seq<[i32; 2]>>,
    clip: Seq<Seq<[i32; 2]>>,
    op: OverlayOperation,
) -> Seq<Seq<Seq<[i32; 2]>>>;

/// A coordinate inside the range the overlay engine accepts for `i32`.
pub open spec fn coordinate_in_range(c: i32) -> bool {
    -0x4000_0000 <= c < 0x4000_0000
}

/// Both coordinates of a vertex lie inside the accepted range.
pub open spec fn vertex_in_range(v: [i32; 2]) -> bool {
    coordinate_in_range(v[0]) && coordinate_in_range(v[1])
}

/// Every vertex of a ring lies inside the accepted range.
pub open spec fn ring_in_range(ring: Seq<[i32; 2]>) -> bool {
    forall|j: int| 0 <= j < ring.len() ==> #[trigger] vertex_in_range(ring[j])
}

/// Every vertex of every ring lies inside the accepted range.
pub open spec fn shape_in_range(shape: Seq<Seq<[i32; 2]>>) -> bool {
    forall|i: int| 0 <= i < shape.len() ==> #[trigger] ring_in_range(shape[i])
}

/// The rings of a polygon view as one shape: boundary first, then holes.
pub open spec fn shape_of<K>(polygon: (Seq<[K; 2]>, Seq<Seq<[K; 2]>>)) -> Seq<Seq<[K; 2]>> {
    seq![polygon.0] + polygon.1
}

/// The overlay of two shapes; nothing when a coordinate is out of range.
pub open spec fn overlay_of(
    subj: Seq<Seq<[i32; 2]>>,
    clip: Seq<Seq<[i32; 2]>>,
    op: OverlayOperation,
) -> Seq<Seq<Seq<[i32; 2]>>> {
    if shape_in_range(subj) && shape_in_range(clip) {
        overlay_shapes(subj, clip, op)
    } else {
        seq![]
    }
}

/// The single polygon a list of shapes denotes, if it is exactly one
/// non-empty shape.
pub open spec fn merged_polygon<K>(shapes: Seq<Seq<Seq<[K; 2]>>>) -> Option<
    (Seq<[K; 2]>, Seq<Seq<[K; 2]>>),
> {
    if shapes.len() != 1 || shapes[0].len() == 0 {
        None
    } else {
        Some((shapes[0][0], shapes[0].drop_first()))
    }
}

/// The polygons that a list of shapes denotes, skipping empty shapes.
pub open spec fn nonempty_polygons<K>(shapes: Seq<Seq<Seq<[K; 2]>>>) -> Seq<
    (Seq<[K; 2]>, Seq<Seq<[K; 2]>>),
>
    decreases shapes.len(),
{
    if shapes.len() == 0 {
        seq![]
    } else {
        let rest = nonempty_polygons(shapes.drop_last());
        let last = shapes.last();
        if last.len() == 0 {
            rest
        } else {
            rest.push((last[0], last.drop_first()))
        }
    }
}

/// The polygons of a list of shapes from the integer engine: one per shape,
/// or none at all if some shape is empty.
pub open spec fn int_pieces<K>(shapes: Seq<Seq<Seq<[K; 2]>>>) -> Seq<(Seq<[K; 2]>, Seq<Seq<[K; 2]>>)> {
    if forall|i: int| 0 <= i < shapes.len() ==> (#[trigger] shapes[i]).len() > 0 {
        nonempty_polygons(shapes)
    } else {
        seq![]
    }
}

/// Calls the overlay engine of `i_overlay` (`i_overlay::core::overlay::Overlay::from_subj_and_clip`
/// followed by `overlay` with the even-odd fill rule) on one subject shape and
/// one clip shape. The contract claims that the result is a function of the
/// two shapes and the operation alone; the engine requires every coordinate
/// to lie within `-2^30..2^30`.
#[verifier::external_body]
fn overlay_i32(subj: &Vec<Vec<[i32; 2]>>, clip: &Vec<Vec<[i32; 2]>>, op: OverlayOperation) -> (res:
    Vec<Vec<Vec<[i32; 2]>>>)
    requires
        shape_in_range(rings_view(subj@)),
        shape_in_range(rings_view(clip@)),
    ensures
        shapes_view(res@) == overlay_shapes(rings_view(subj@), rings_view(clip@), op),
{
    let to_int = |r: &Vec<[i32; 2]>| r.iter().map(|&v| IntPoint::from(v)).collect::<Vec<_>>();
    let subj_shape = subj.iter().map(to_int).collect::<Vec<_>>();
    let clip_shape = clip.iter().map(to_int).collect::<Vec<_>>();
    let rule = [Rule::Union, Rule::Intersect, Rule::Difference][op as usize];
    let shapes = Engine::from_subj_and_clip(&subj_shape, &clip_shape).overlay(rule, Fill::EvenOdd);
    shapes.iter().map(|s| s.iter().map(|c| c.iter().map(|p| [p.x, p.y]).collect()).collect()).collect()
}

/// The rings of a polygon as one shape: boundary first, then holes.
pub fn rings_to_shape<K: Copy, P: Rings<K>>(polygon: &P) -> (shape: Vec<Vec<[K; 2]>>)
    ensures
        rings_view(shape@) == seq![polygon.exterior_ring()] + polygon.interior_rings(),
{
    let mut shape: Vec<Vec<[K; 2]>> = Vec::new();
    shape.push(copy_ring(polygon.exterior()));
    let interiors = polygon.interiors();
    for i in 0..interiors.len()
        invariant
            interiors@.len() == polygon.interior_rings().len(),
            forall|j: int|
                0 <= j < interiors@.len() ==> #[trigger] interiors@[j]@
                    == polygon.interior_rings()[j],
            shape@.len() == i + 1,
            shape@[0]@ == polygon.exterior_ring(),
            forall|j: int| 0 <= j < i ==> #[trigger] shape@[j + 1]@ == interiors@[j]@,
    {
        shape.push(copy_ring(interiors[i].as_slice()));
        assert(shape@[i + 1]@ == interiors@[i as int]@);
    }
    assert forall|k: int| 0 <= k < shape@.len() implies #[trigger] rings_view(shape@)[k] == (
    seq![polygon.exterior_ring()] + polygon.interior_rings())[k] by {
        if k > 0 {
            assert(shape@[(k - 1) + 1]@ == interiors@[k - 1]@);
        }
    }
    assert(rings_view(shape@) =~= seq![polygon.exterior_ring()] + polygon.interior_rings());
    shape
}

/// The single polygon in `union`, if it holds exactly one non-empty shape.
pub fn first_merged_shape<K>(union: Vec<Vec<Vec<[K; 2]>>>) -> (res: Option<
    (Vec<[K; 2]>, Vec<Vec<[K; 2]>>),
>)
    ensures
        match res {
            None => merged_polygon(shapes_view(union@)) is None,
            Some(p) => merged_polygon(shapes_view(union@)) == Some((p.0@, rings_view(p.1@))),
        },
{
    if union.len() != 1 {
        return None;
    }
    let mut union = union;
    let mut merged_shape = union.remove(0);
    if merged_shape.len() == 0 {
        return None;
    }
    let ghost shape = merged_shape@;
    let exterior = merged_shape.remove(0);
    assert(rings_view(merged_shape@) =~= rings_view(shape).drop_first());
    Some((exterior, merged_shape))
}

/// The polygon of every non-empty shape in `shapes`, in order.
pub fn all_merged_shapes<K>(shapes: Vec<Vec<Vec<[K; 2]>>>) -> (res: Vec<
    (Vec<[K; 2]>, Vec<Vec<[K; 2]>>),
>)
    ensures
        res@.map_values(|p: (Vec<[K; 2]>, Vec<Vec<[K; 2]>>)| (p.0@, rings_view(p.1@)))
            == nonempty_polygons(shapes_view(shapes@)),
{
    let ghost all = shapes_view(shapes@);
    // Reverse the shapes onto a stack, then pop them back in order.
    let mut shapes = shapes;
    let mut stack: Vec<Vec<Vec<[K; 2]>>> = Vec::new();
    while shapes.len() > 0
        invariant
            shapes_view(shapes@) + shapes_view(stack@).reverse() == all,
        decreases shapes@.len(),
    {
        let ghost before = shapes@;
        let ghost stack_before = stack@;
        let shape = shapes.pop().unwrap();
        stack.push(shape);
        assert(shapes_view(before) =~= shapes_view(shapes@).push(rings_view(shape@)));
        assert(shapes_view(stack@) =~= shapes_view(stack_before).push(rings_view(shape@)));
        assert(shapes_view(stack@).reverse() =~= seq![rings_view(shape@)] + shapes_view(
            stack_before,
        ).reverse());
    }
    assert(shapes_view(shapes@) =~= Seq::<Seq<Seq<[K; 2]>>>::empty());
    let mut res: Vec<(Vec<[K; 2]>, Vec<Vec<[K; 2]>>)> = Vec::new();
    let ghost n = all.len();
    while stack.len() > 0
        invariant
            stack@.len() <= n,
            all.len() == n,
            shapes_view(stack@).reverse() == all.subrange(n - stack@.len(), n as int),
            res@.map_values(|p: (Vec<[K; 2]>, Vec<Vec<[K; 2]>>)| (p.0@, rings_view(p.1@)))
                == nonempty_polygons(all.subrange(0, n - stack@.len())),
        decreases stack@.len(),
    {
        let ghost stack_before = stack@;
        let ghost res_before = res@;
        let mut shape = stack.pop().unwrap();
        let ghost k = n - stack_before.len();
        assert(shapes_view(stack_before) =~= shapes_view(stack@).push(rings_view(shape@)));
        assert(shapes_view(stack_before).reverse()[0] == rings_view(shape@));
        assert(all[k] == rings_view(shape@));
        assert forall|i: int| 0 <= i < stack@.len() implies #[trigger] shapes_view(
            stack@,
        ).reverse()[i] == all.subrange(k + 1, n as int)[i] by {
            assert(shapes_view(stack@).reverse()[i] == shapes_view(stack_before).reverse()[i + 1]);
        }
        assert(shapes_view(stack@).reverse() =~= all.subrange(k + 1, n as int));
        assert(all.subrange(0, k + 1).drop_last() =~= all.subrange(0, k));
        if shape.len() > 0 {
            let ghost sv = shape@;
            let exterior = shape.remove(0);
            assert(rings_view(shape@) =~= rings_view(sv).drop_first());
            res.push((exterior, shape));
            assert(res@.map_values(|p: (Vec<[K; 2]>, Vec<Vec<[K; 2]>>)| (p.0@, rings_view(p.1@)))
                =~= res_before.map_values(
                |p: (Vec<[K; 2]>, Vec<Vec<[K; 2]>>)| (p.0@, rings_view(p.1@)),
            ).push((exterior@, rings_view(shape@))));
        }
    }
    assert(all.subrange(0, n as int) =~= all);
    res
}


/// Whether every coordinate of `ring` lies inside the range the overlay
/// engine accepts.
pub fn ring_in_safe_range(ring: &[[i32; 2]]) -> (res: bool)
    ensures
        res == ring_in_range(ring@),
{
    for j in 0..ring.len()
        invariant
            forall|b: int| 0 <= b < j ==> #[trigger] vertex_in_range(ring@[b]),
    {
        let v = ring[j];
        if !(-0x4000_0000 <= v[0] && v[0] < 0x4000_0000 && -0x4000_0000 <= v[1] && v[1]
            < 0x4000_0000) {
            assert(!vertex_in_range(ring@[j as int]));
            return false;
        }
    }
    true
}

/// Whether every coordinate of `shape` lies inside the range the overlay
/// engine accepts.
pub fn shape_in_safe_range(shape: &Vec<Vec<[i32; 2]>>) -> (res: bool)
    ensures
        res == shape_in_range(rings_view(shape@)),
{
    for i in 0..shape.len()
        invariant
            forall|a: int| 0 <= a < i ==> #[trigger] ring_in_range(shape@[a]@),
    {
        if !ring_in_safe_range(shape[i].as_slice()) {
            assert(rings_view(shape@)[i as int] == shape@[i as int]@);
            return false;
        }
    }
    assert forall|a: int| 0 <= a < rings_view(shape@).len() implies #[trigger] ring_in_range(
        rings_view(shape@)[a],
    ) by {
        assert(ring_in_range(shape@[a]@));
    }
    true
}

/// The rings of a polygon as one shape view: boundary first, then holes.
pub open spec fn rings_shape<P: Rings<i32>>(polygon: P) -> Seq<Seq<[i32; 2]>> {
    seq![polygon.exterior_ring()] + polygon.interior_rings()
}

/// Overlays two polygons and returns the result if it is exactly one
/// polygon; `None` otherwise, or when a coordinate is outside the range the
/// engine accepts.
pub fn overlay_int_polygons<A: Rings<i32>, B: Rings<i32>>(
    a: &A,
    b: &B,
    op: OverlayOperation,
) -> (res: Option<(Vec<[i32; 2]>, Vec<Vec<[i32; 2]>>)>)
    ensures
        match res {
            None => merged_polygon(overlay_of(rings_shape(*a), rings_shape(*b), op)) is None,
            Some(p) => merged_polygon(overlay_of(rings_shape(*a), rings_shape(*b), op)) == Some(
                (p.0@, rings_view(p.1@)),
            ),
        },
{
    let subj_shape = rings_to_shape(a);
    let clip_shape = rings_to_shape(b);
    if !shape_in_safe_range(&subj_shape) || !shape_in_safe_range(&clip_shape) {
        assert(merged_polygon(Seq::<Seq<Seq<[i32; 2]>>>::empty()) is None);
        return None;
    }
    first_merged_shape(overlay_i32(&subj_shape, &clip_shape, op))
}

/// The pieces the integer engine gives for two shapes: one polygon per
/// result shape, in order; `None` when some result shape is empty or a
/// coordinate lies outside the range the engine accepts.
pub open spec fn int_overlay(
    subj: Seq<Seq<[i32; 2]>>,
    clip: Seq<Seq<[i32; 2]>>,
    op: OverlayOperation,
) -> Option<Seq<(Seq<[i32; 2]>, Seq<Seq<[i32; 2]>>)>> {
    if shape_in_range(subj) && shape_in_range(clip) {
        let shapes = overlay_shapes(subj, clip, op);
        if forall|i: int| 0 <= i < shapes.len() ==> (#[trigger] shapes[i]).len() > 0 {
            Some(nonempty_polygons(shapes))
        } else {
            None
        }
    } else {
        None
    }
}

/// Overlays two polygons and returns every polygon of the result, one per
/// result shape; `None` when some result shape is empty, or when a
/// coordinate is outside the range the engine accepts.
pub fn overlay_int_polygons_many<A: Rings<i32>, B: Rings<i32>>(
    a: &A,
    b: &B,
    op: OverlayOperation,
) -> (res: Option<Vec<(Vec<[i32; 2]>, Vec<Vec<[i32; 2]>>)>>)
    ensures
        match res {
            None => int_overlay(rings_shape(*a), rings_shape(*b), op) is None,
            Some(v) => int_overlay(rings_shape(*a), rings_shape(*b), op) == Some(
                v@.map_values(|p: (Vec<[i32; 2]>, Vec<Vec<[i32; 2]>>)| (p.0@, rings_view(p.1@))),
            ),
        },
{
    let subj_shape = rings_to_shape(a);
    let clip_shape = rings_to_shape(b);
    if !shape_in_safe_range(&subj_shape) || !shape_in_safe_range(&clip_shape) {
        return None;
    }
    let shapes = overlay_i32(&subj_shape, &clip_shape, op);
    for i in 0..shapes.len()
        invariant
            shape_in_range(rings_shape(*a)) && shape_in_range(rings_shape(*b)),
            overlay_shapes(rings_shape(*a), rings_shape(*b), op) == shapes_view(shapes@),
            forall|j: int| 0 <= j < i ==> (#[trigger] shapes@[j])@.len() > 0,
    {
        if shapes[i].len() == 0 {
            assert(shapes_view(shapes@)[i as int].len() == 0);
            return None;
        }
    }
    assert forall|j: int| 0 <= j < shapes_view(shapes@).len() implies (#[trigger] shapes_view(
        shapes@,
    )[j]).len() > 0 by {
        assert(shapes@[j]@.len() > 0);
    }
    Some(all_merged_shapes(shapes))
}

/// The pieces of an overlay of two polygons, nothing where the engine's
/// result has an empty shape or a coordinate is out of range.
fn overlay_int_pieces<A: Rings<i32>, B: Rings<i32>>(a: &A, b: &B, op: OverlayOperation) -> (res:
    Vec<(Vec<[i32; 2]>, Vec<Vec<[i32; 2]>>)>)
    ensures
        res@.map_values(|p: (Vec<[i32; 2]>, Vec<Vec<[i32; 2]>>)| (p.0@, rings_view(p.1@)))
            == int_pieces(overlay_of(rings_shape(*a), rings_shape(*b), op)),
{
    match overlay_int_polygons_many(a, b, op) {
        Some(v) => v,
        None => {
            let res: Vec<(Vec<[i32; 2]>, Vec<Vec<[i32; 2]>>)> = Vec::new();
            assert(res@.map_values(|p: (Vec<[i32; 2]>, Vec<Vec<[i32; 2]>>)| (p.0@, rings_view(p.1@)))
                =~= Seq::<(Seq<[i32; 2]>, Seq<Seq<[i32; 2]>>)>::empty());
            res
        },
    }
}

/// The polygons built from a list of (boundary, holes) pieces, in order.
fn pieces_to_polygons<K>(pieces: Vec<(Vec<[K; 2]>, Vec<Vec<[K; 2]>>)>) -> (res: Vec<Polygon<K>>)
    ensures
        res@.map_values(|p: Polygon<K>| p@) == pieces@.map_values(
            |p: (Vec<[K; 2]>, Vec<Vec<[K; 2]>>)| (p.0@, rings_view(p.1@)),
        ),
{
    let ghost all = pieces@;
    let mut res: Vec<Polygon<K>> = Vec::new();
    for piece in it: pieces
        invariant
            all == it.seq(),
            res@.len() == it.index(),
            forall|i: int|
                0 <= i < it.index() ==> #[trigger] res@[i]@ == (all[i].0@, rings_view(all[i].1@)),
    {
        let (exterior, interiors) = piece;
        res.push(Polygon { exterior, interiors });
    }
    assert(res@.map_values(|p: Polygon<K>| p@) =~= all.map_values(
        |p: (Vec<[K; 2]>, Vec<Vec<[K; 2]>>)| (p.0@, rings_view(p.1@)),
    ));
    res
}


/// The pieces, each carrying a clone of `data`, in order.
fn pieces_to_polygons_with_data<K, W: Clone>(
    pieces: Vec<(Vec<[K; 2]>, Vec<Vec<[K; 2]>>)>,
    data: &W,
) -> (res: Vec<PolygonWithData<K, W>>)
    ensures
        res@.map_values(|p: PolygonWithData<K, W>| p@) == pieces@.map_values(
            |p: (Vec<[K; 2]>, Vec<Vec<[K; 2]>>)| (p.0@, rings_view(p.1@)),
        ),
        forall|i: int| 0 <= i < res@.len() ==> cloned::<W>(*data, #[trigger] res@[i].data),
{
    let ghost all = pieces@;
    let mut res: Vec<PolygonWithData<K, W>> = Vec::new();
    for piece in it: pieces
        invariant
            all == it.seq(),
            res@.len() == it.index(),
            forall|i: int|
                0 <= i < it.index() ==> #[trigger] res@[i]@ == (all[i].0@, rings_view(all[i].1@)),
            forall|i: int| 0 <= i < it.index() ==> cloned::<W>(*data, #[trigger] res@[i].data),
    {
        let (exterior, interiors) = piece;
        res.push(PolygonWithData { exterior, interiors, data: data.clone() });
    }
    assert(res@.map_values(|p: PolygonWithData<K, W>| p@) =~= all.map_values(
        |p: (Vec<[K; 2]>, Vec<Vec<[K; 2]>>)| (p.0@, rings_view(p.1@)),
    ));
    res
}

impl Union<Polygon<i32>> for Polygon<i32> {
    /// The union of the two polygons, if it is a single polygon.
    fn union(a: Polygon<i32>, b: Polygon<i32>) -> (res: Option<Polygon<i32>>)
        ensures
            match res {
                None => merged_polygon(
                    overlay_of(shape_of(a@), shape_of(b@), OverlayOperation::Union),
                ) is None,
                Some(p) => merged_polygon(
                    overlay_of(shape_of(a@), shape_of(b@), OverlayOperation::Union),
                ) == Some(p@),
            },
    {
        match overlay_int_polygons(&a, &b, OverlayOperation::Union) {
            None => None,
            Some((exterior, interiors)) => Some(Polygon { exterior, interiors }),
        }
    }
}

impl<W> Union<PolygonWithData<i32, W>> for PolygonWithData<i32, W> {
    /// The union of the two polygons, if it is a single polygon; it keeps the
    /// payload of `a`.
    fn union(a: PolygonWithData<i32, W>, b: PolygonWithData<i32, W>) -> (res: Option<
        PolygonWithData<i32, W>,
    >)
        ensures
            match res {
                None => merged_polygon(
                    overlay_of(shape_of(a@), shape_of(b@), OverlayOperation::Union),
                ) is None,
                Some(p) => merged_polygon(
                    overlay_of(shape_of(a@), shape_of(b@), OverlayOperation::Union),
                ) == Some(p@) && p.data == a.data,
            },
    {
        match overlay_int_polygons(&a, &b, OverlayOperation::Union) {
            None => None,
            Some((exterior, interiors)) => Some(PolygonWithData { exterior, interiors, data: a.data }),
        }
    }
}

impl Intersection<Polygon<i32>> for Polygon<i32> {
    /// The polygons of the intersection, in the order the engine gives them.
    fn intersect(a: Polygon<i32>, b: Polygon<i32>) -> (res: Vec<Polygon<i32>>)
        ensures
            res@.map_values(|p: Polygon<i32>| p@) == int_pieces(
                overlay_of(shape_of(a@), shape_of(b@), OverlayOperation::Intersect),
            ),
    {
        pieces_to_polygons(overlay_int_pieces(&a, &b, OverlayOperation::Intersect))
    }
}

impl<W: Clone> Intersection<PolygonWithData<i32, W>> for PolygonWithData<i32, W> {
    /// The polygons of the intersection, each with a clone of the payload of
    /// `a`.
    fn intersect(a: PolygonWithData<i32, W>, b: PolygonWithData<i32, W>) -> (res: Vec<
        PolygonWithData<i32, W>,
    >)
        ensures
            res@.map_values(|p: PolygonWithData<i32, W>| p@) == int_pieces(
                overlay_of(shape_of(a@), shape_of(b@), OverlayOperation::Intersect),
            ),
            forall|i: int| 0 <= i < res@.len() ==> cloned::<W>(a.data, #[trigger] res@[i].data),
    {
        pieces_to_polygons_with_data(
            overlay_int_pieces(&a, &b, OverlayOperation::Intersect),
            &a.data,
        )
    }
}

impl Difference<Polygon<i32>> for Polygon<i32> {
    /// The polygons of `a` minus `b`, in the order the engine gives them.
    fn difference(a: Polygon<i32>, b: Polygon<i32>) -> (res: Vec<Polygon<i32>>)
        ensures
            res@.map_values(|p: Polygon<i32>| p@) == int_pieces(
                overlay_of(shape_of(a@), shape_of(b@), OverlayOperation::Difference),
            ),
    {
        pieces_to_polygons(overlay_int_pieces(&a, &b, OverlayOperation::Difference))
    }
}

impl<W: Clone> Difference<PolygonWithData<i32, W>> for PolygonWithData<i32, W> {
    /// The polygons of `a` minus `b`, each with a clone of the payload of `a`.
    fn difference(a: PolygonWithData<i32, W>, b: PolygonWithData<i32, W>) -> (res: Vec<
        PolygonWithData<i32, W>,
    >)
        ensures
            res@.map_values(|p: PolygonWithData<i32, W>| p@) == int_pieces(
                overlay_of(shape_of(a@), shape_of(b@), OverlayOperation::Difference),
            ),
            forall|i: int| 0 <= i < res@.len() ==> cloned::<W>(a.data, #[trigger] res@[i].data),
    {
        pieces_to_polygons_with_data(
            overlay_int_pieces(&a, &b, OverlayOperation::Difference),
            &a.data,
        )
    }
}


/// Integer coordinate types narrower than `i32`, which the overlay engine
/// handles by widening to `i32` and narrowing the result back.
pub trait NarrowCoordinate: Copy + Sized {
    /// The value as an `i32`.
    spec fn to_i32(self) -> i32;

    /// The `i32` value as `Self`, if it fits.
    spec fn from_i32(v: i32) -> Option<Self>;

    fn widen(self) -> (r: i32)
        ensures
            r == self.to_i32(),
    ;

    fn narrow(v: i32) -> (r: Option<Self>)
        ensures
            r == Self::from_i32(v),
    ;
}

impl NarrowCoordinate for i16 {
    open spec fn to_i32(self) -> i32 {
        self as i32
    }

    open spec fn from_i32(v: i32) -> Option<i16> {
        if i16::MIN <= v <= i16::MAX {
            Some(v as i16)
        } else {
            None
        }
    }

    fn widen(self) -> (r: i32)
        ensures
            r as int == self as int,
    {
        self as i32
    }

    fn narrow(v: i32) -> (r: Option<i16>)
        ensures
            match r {
                Some(x) => x as int == v as int,
                None => v < i16::MIN || v > i16::MAX,
            },
    {
        if i16::MIN as i32 <= v && v <= i16::MAX as i32 {
            Some(v as i16)
        } else {
            None
        }
    }
}

impl NarrowCoordinate for i8 {
    open spec fn to_i32(self) -> i32 {
        self as i32
    }

    open spec fn from_i32(v: i32) -> Option<i8> {
        if i8::MIN <= v <= i8::MAX {
            Some(v as i8)
        } else {
            None
        }
    }

    fn widen(self) -> (r: i32)
        ensures
            r as int == self as int,
    {
        self as i32
    }

    fn narrow(v: i32) -> (r: Option<i8>)
        ensures
            match r {
                Some(x) => x as int == v as int,
                None => v < i8::MIN || v > i8::MAX,
            },
    {
        if i8::MIN as i32 <= v && v <= i8::MAX as i32 {
            Some(v as i8)
        } else {
            None
        }
    }
}

pub open spec fn widen_ring<K: NarrowCoordinate>(ring: Seq<[K; 2]>) -> Seq<[i32; 2]> {
    ring.map_values(|v: [K; 2]| [v[0].to_i32(), v[1].to_i32()])
}

/// A polygon view with every coordinate widened to `i32`.
pub open spec fn widen_view<K: NarrowCoordinate>(p: (Seq<[K; 2]>, Seq<Seq<[K; 2]>>)) -> (
    Seq<[i32; 2]>,
    Seq<Seq<[i32; 2]>>,
) {
    (widen_ring(p.0), p.1.map_values(|r: Seq<[K; 2]>| widen_ring(r)))
}

/// Every coordinate of the ring fits in `K`.
pub open spec fn ring_narrows<K: NarrowCoordinate>(ring: Seq<[i32; 2]>) -> bool {
    forall|i: int|
        0 <= i < ring.len() ==> (K::from_i32(#[trigger] ring[i][0]) is Some && K::from_i32(
            ring[i][1],
        ) is Some)
}

pub open spec fn narrow_ring<K: NarrowCoordinate>(ring: Seq<[i32; 2]>) -> Seq<[K; 2]> {
    ring.map_values(|v: [i32; 2]| [K::from_i32(v[0])->0, K::from_i32(v[1])->0])
}

/// The polygon view narrowed to `K`, if every coordinate fits.
pub open spec fn narrow_view<K: NarrowCoordinate>(p: (Seq<[i32; 2]>, Seq<Seq<[i32; 2]>>)) -> Option<
    (Seq<[K; 2]>, Seq<Seq<[K; 2]>>),
> {
    if ring_narrows::<K>(p.0) && forall|j: int| 0 <= j < p.1.len() ==> ring_narrows::<K>(#[trigger] p.1[j]) {
        Some((narrow_ring::<K>(p.0), p.1.map_values(|r: Seq<[i32; 2]>| narrow_ring::<K>(r))))
    } else {
        None
    }
}

/// Every polygon narrowed to `K`, if every coordinate of every polygon fits.
pub open spec fn narrow_all<K: NarrowCoordinate>(ps: Seq<(Seq<[i32; 2]>, Seq<Seq<[i32; 2]>>)>) -> Option<
    Seq<(Seq<[K; 2]>, Seq<Seq<[K; 2]>>)>,
> {
    if forall|i: int| 0 <= i < ps.len() ==> narrow_view::<K>(#[trigger] ps[i]) is Some {
        Some(ps.map_values(|p: (Seq<[i32; 2]>, Seq<Seq<[i32; 2]>>)| narrow_view::<K>(p)->0))
    } else {
        None
    }
}

fn widen_ring_exec<K: NarrowCoordinate>(ring: &[[K; 2]]) -> (res: Vec<[i32; 2]>)
    ensures
        res@ == widen_ring(ring@),
{
    let mut res: Vec<[i32; 2]> = Vec::new();
    for i in 0..ring.len()
        invariant
            res@.len() == i,
            forall|j: int| 0 <= j < i ==> #[trigger] res@[j] == [ring@[j][0].to_i32(), ring@[j][1].to_i32()],
    {
        let v = ring[i];
        res.push([v[0].widen(), v[1].widen()]);
    }
    assert(res@ =~= widen_ring(ring@));
    res
}

/// The polygon with every coordinate widened to `i32`.
fn widen_polygon<K: NarrowCoordinate, P: Rings<K>>(polygon: &P) -> (res: Polygon<i32>)
    ensures
        res@ == widen_view((polygon.exterior_ring(), polygon.interior_rings())),
{
    let exterior = widen_ring_exec(polygon.exterior());
    let rings = polygon.interiors();
    let mut interiors: Vec<Vec<[i32; 2]>> = Vec::new();
    for i in 0..rings.len()
        invariant
            rings@.len() == polygon.interior_rings().len(),
            forall|j: int| 0 <= j < rings@.len() ==> #[trigger] rings@[j]@ == polygon.interior_rings()[j],
            interiors@.len() == i,
            forall|j: int| 0 <= j < i ==> #[trigger] interiors@[j]@ == widen_ring(rings@[j]@),
    {
        interiors.push(widen_ring_exec(rings[i].as_slice()));
    }
    let res = Polygon { exterior, interiors };
    assert(rings_view(res.interiors@) =~= polygon.interior_rings().map_values(
        |r: Seq<[K; 2]>| widen_ring(r),
    ));
    res
}

fn narrow_ring_exec<K: NarrowCoordinate>(ring: &[[i32; 2]]) -> (res: Option<Vec<[K; 2]>>)
    ensures
        match res {
            Some(r) => ring_narrows::<K>(ring@) && r@ == narrow_ring::<K>(ring@),
            None => !ring_narrows::<K>(ring@),
        },
{
    let mut res: Vec<[K; 2]> = Vec::new();
    for i in 0..ring.len()
        invariant
            res@.len() == i,
            forall|j: int| 0 <= j < i ==> K::from_i32(#[trigger] ring@[j][0]) is Some && K::from_i32(ring@[j][1]) is Some,
            forall|j: int| 0 <= j < i ==> #[trigger] res@[j] == [K::from_i32(ring@[j][0])->0, K::from_i32(ring@[j][1])->0],
    {
        let v = ring[i];
        let x = K::narrow(v[0]);
        let y = K::narrow(v[1]);
        match (x, y) {
            (Some(x), Some(y)) => res.push([x, y]),
            _ => {
                return None;
            },
        }
    }
    assert(res@ =~= narrow_ring::<K>(ring@));
    Some(res)
}

/// The piece narrowed to `K`, if every coordinate fits.
fn narrow_piece<K: NarrowCoordinate>(piece: (Vec<[i32; 2]>, Vec<Vec<[i32; 2]>>)) -> (res: Option<
    (Vec<[K; 2]>, Vec<Vec<[K; 2]>>),
>)
    ensures
        match res {
            Some(p) => narrow_view::<K>((piece.0@, rings_view(piece.1@))) == Some((p.0@, rings_view(p.1@))),
            None => narrow_view::<K>((piece.0@, rings_view(piece.1@))) is None,
        },
{
    let ghost v = (piece.0@, rings_view(piece.1@));
    let exterior = match narrow_ring_exec::<K>(piece.0.as_slice()) {
        Some(e) => e,
        None => {
            return None;
        },
    };
    let mut interiors: Vec<Vec<[K; 2]>> = Vec::new();
    for i in 0..piece.1.len()
        invariant
            v == (piece.0@, rings_view(piece.1@)),
            ring_narrows::<K>(v.0),
            exterior@ == narrow_ring::<K>(v.0),
            interiors@.len() == i,
            forall|j: int| 0 <= j < i ==> ring_narrows::<K>(#[trigger] v.1[j]),
            forall|j: int| 0 <= j < i ==> #[trigger] interiors@[j]@ == narrow_ring::<K>(v.1[j]),
    {
        assert(v.1[i as int] == piece.1@[i as int]@);
        match narrow_ring_exec::<K>(piece.1[i].as_slice()) {
            Some(r) => interiors.push(r),
            None => {
                return None;
            },
        }
    }
    assert(rings_view(interiors@) =~= v.1.map_values(|r: Seq<[i32; 2]>| narrow_ring::<K>(r)));
    Some((exterior, interiors))
}

/// Every piece narrowed to `K`, if every coordinate fits; nothing otherwise.
fn narrow_pieces<K: NarrowCoordinate>(pieces: Vec<(Vec<[i32; 2]>, Vec<Vec<[i32; 2]>>)>) -> (res: Vec<
    (Vec<[K; 2]>, Vec<Vec<[K; 2]>>),
>)
    ensures
        match narrow_all::<K>(pieces@.map_values(|p: (Vec<[i32; 2]>, Vec<Vec<[i32; 2]>>)| (p.0@, rings_view(p.1@)))) {
            Some(all) => res@.map_values(|p: (Vec<[K; 2]>, Vec<Vec<[K; 2]>>)| (p.0@, rings_view(p.1@))) == all,
            None => res@.len() == 0,
        },
{
    let ghost views = pieces@.map_values(|p: (Vec<[i32; 2]>, Vec<Vec<[i32; 2]>>)| (p.0@, rings_view(p.1@)));
    let mut res: Vec<(Vec<[K; 2]>, Vec<Vec<[K; 2]>>)> = Vec::new();
    for piece in it: pieces
        invariant
            views == it.seq().map_values(|p: (Vec<[i32; 2]>, Vec<Vec<[i32; 2]>>)| (p.0@, rings_view(p.1@))),
            res@.len() == it.index(),
            forall|j: int| 0 <= j < it.index() ==> narrow_view::<K>(#[trigger] views[j]) is Some,
            forall|j: int|
                0 <= j < it.index() ==> ((#[trigger] res@[j]).0@, rings_view(res@[j].1@)) == (
                narrow_view::<K>(views[j])->0),
    {
        let ghost j = it.index();
        assert(views[j] == (piece.0@, rings_view(piece.1@)));
        match narrow_piece::<K>(piece) {
            Some(p) => res.push(p),
            None => {
                return Vec::new();
            },
        }
    }
    assert(res@.map_values(|p: (Vec<[K; 2]>, Vec<Vec<[K; 2]>>)| (p.0@, rings_view(p.1@))) =~= views.map_values(
        |p: (Seq<[i32; 2]>, Seq<Seq<[i32; 2]>>)| narrow_view::<K>(p)->0));
    res
}


/// The union of two polygons with narrow coordinates, computed in `i32`.
pub open spec fn narrow_union<K: NarrowCoordinate>(
    a: (Seq<[K; 2]>, Seq<Seq<[K; 2]>>),
    b: (Seq<[K; 2]>, Seq<Seq<[K; 2]>>),
) -> Option<(Seq<[K; 2]>, Seq<Seq<[K; 2]>>)> {
    let m = merged_polygon(
        overlay_of(shape_of(widen_view(a)), shape_of(widen_view(b)), OverlayOperation::Union),
    );
    match m {
        Some(v) => narrow_view::<K>(v),
        None => None,
    }
}

/// The pieces of an overlay of two polygons with narrow coordinates,
/// computed in `i32`; nothing if some coordinate does not fit back.
pub open spec fn narrow_pieces_of<K: NarrowCoordinate>(
    a: (Seq<[K; 2]>, Seq<Seq<[K; 2]>>),
    b: (Seq<[K; 2]>, Seq<Seq<[K; 2]>>),
    op: OverlayOperation,
) -> Seq<(Seq<[K; 2]>, Seq<Seq<[K; 2]>>)> {
    match narrow_all::<K>(
        int_pieces(overlay_of(shape_of(widen_view(a)), shape_of(widen_view(b)), op)),
    ) {
        Some(all) => all,
        None => seq![],
    }
}

fn narrow_overlay_union<K: NarrowCoordinate, A: Rings<K>, B: Rings<K>>(a: &A, b: &B) -> (res: Option<
    (Vec<[K; 2]>, Vec<Vec<[K; 2]>>),
>)
    ensures
        match res {
            None => narrow_union::<K>(
                (a.exterior_ring(), a.interior_rings()),
                (b.exterior_ring(), b.interior_rings()),
            ) is None,
            Some(p) => narrow_union::<K>(
                (a.exterior_ring(), a.interior_rings()),
                (b.exterior_ring(), b.interior_rings()),
            ) == Some((p.0@, rings_view(p.1@))),
        },
{
    let aw = widen_polygon(a);
    let bw = widen_polygon(b);
    match overlay_int_polygons(&aw, &bw, OverlayOperation::Union) {
        None => None,
        Some(piece) => narrow_piece::<K>(piece),
    }
}

fn narrow_overlay_many<K: NarrowCoordinate, A: Rings<K>, B: Rings<K>>(
    a: &A,
    b: &B,
    op: OverlayOperation,
) -> (res: Vec<(Vec<[K; 2]>, Vec<Vec<[K; 2]>>)>)
    ensures
        res@.map_values(|p: (Vec<[K; 2]>, Vec<Vec<[K; 2]>>)| (p.0@, rings_view(p.1@))) == narrow_pieces_of::<K>(
            (a.exterior_ring(), a.interior_rings()),
            (b.exterior_ring(), b.interior_rings()),
            op,
        ),
{
    let aw = widen_polygon(a);
    let bw = widen_polygon(b);
    let res = narrow_pieces::<K>(overlay_int_pieces(&aw, &bw, op));
    proof {
        if narrow_all::<K>(int_pieces(overlay_of(shape_of(aw@), shape_of(bw@), op))) is None {
            assert(res@.map_values(|p: (Vec<[K; 2]>, Vec<Vec<[K; 2]>>)| (p.0@, rings_view(p.1@))) =~= seq![]);
        }
    }
    res
}

impl<K: NarrowCoordinate> Union<Polygon<K>> for Polygon<K> {
    /// The union computed in `i32`, if it is a single polygon whose
    /// coordinates fit back in `K`.
    fn union(a: Polygon<K>, b: Polygon<K>) -> (res: Option<Polygon<K>>)
        ensures
            match res {
                None => narrow_union::<K>(a@, b@) is None,
                Some(p) => narrow_union::<K>(a@, b@) == Some(p@),
            },
            (match merged_polygon(
                overlay_of(shape_of(widen_view(a@)), shape_of(widen_view(b@)), OverlayOperation::Union),
            ) {
                Some(v) => narrow_view::<K>(v),
                None => None,
            }) == (match res {
                Some(p) => Some(p@),
                None => None,
            }),
    {
        match narrow_overlay_union::<K, Polygon<K>, Polygon<K>>(&a, &b) {
            None => None,
            Some((exterior, interiors)) => Some(Polygon { exterior, interiors }),
        }
    }
}

impl<K: NarrowCoordinate, W> Union<PolygonWithData<K, W>> for PolygonWithData<K, W> {
    /// The union computed in `i32`, if it is a single polygon whose
    /// coordinates fit back in `K`; it keeps the payload of `a`.
    fn union(a: PolygonWithData<K, W>, b: PolygonWithData<K, W>) -> (res: Option<
        PolygonWithData<K, W>,
    >)
        ensures
            match res {
                None => narrow_union::<K>(a@, b@) is None,
                Some(p) => narrow_union::<K>(a@, b@) == Some(p@) && p.data == a.data,
            },
            (match merged_polygon(
                overlay_of(shape_of(widen_view(a@)), shape_of(widen_view(b@)), OverlayOperation::Union),
            ) {
                Some(v) => narrow_view::<K>(v),
                None => None,
            }) == (match res {
                Some(p) => Some(p@),
                None => None,
            }),
    {
        match narrow_overlay_union::<K, PolygonWithData<K, W>, PolygonWithData<K, W>>(&a, &b) {
            None => None,
            Some((exterior, interiors)) => Some(PolygonWithData { exterior, interiors, data: a.data }),
        }
    }
}

impl<K: NarrowCoordinate> Intersection<Polygon<K>> for Polygon<K> {
    /// The pieces of the intersection computed in `i32`; none if some
    /// coordinate does not fit back in `K`.
    fn intersect(a: Polygon<K>, b: Polygon<K>) -> (res: Vec<Polygon<K>>)
        ensures
            res@.map_values(|p: Polygon<K>| p@) == narrow_pieces_of::<K>(
                a@,
                b@,
                OverlayOperation::Intersect,
            ),
            res@.map_values(|p: Polygon<K>| p@) == match narrow_all::<K>(
                int_pieces(
                    overlay_of(
                        shape_of(widen_view(a@)),
                        shape_of(widen_view(b@)),
                        OverlayOperation::Intersect,
                    ),
                ),
            ) {
                Some(all) => all,
                None => seq![],
            },
    {
        pieces_to_polygons(
            narrow_overlay_many::<K, Polygon<K>, Polygon<K>>(&a, &b, OverlayOperation::Intersect),
        )
    }
}

impl<K: NarrowCoordinate, W: Clone> Intersection<PolygonWithData<K, W>> for PolygonWithData<K, W> {
    /// The pieces of the intersection computed in `i32`, each with a clone
    /// of the payload of `a`; none if some coordinate does not fit back.
    fn intersect(a: PolygonWithData<K, W>, b: PolygonWithData<K, W>) -> (res: Vec<
        PolygonWithData<K, W>,
    >)
        ensures
            res@.map_values(|p: PolygonWithData<K, W>| p@) == narrow_pieces_of::<K>(
                a@,
                b@,
                OverlayOperation::Intersect,
            ),
            res@.map_values(|p: PolygonWithData<K, W>| p@) == match narrow_all::<K>(
                int_pieces(
                    overlay_of(
                        shape_of(widen_view(a@)),
                        shape_of(widen_view(b@)),
                        OverlayOperation::Intersect,
                    ),
                ),
            ) {
                Some(all) => all,
                None => seq![],
            },
            forall|i: int| 0 <= i < res@.len() ==> cloned::<W>(a.data, #[trigger] res@[i].data),
    {
        let pieces = narrow_overlay_many::<K, PolygonWithData<K, W>, PolygonWithData<K, W>>(
            &a,
            &b,
            OverlayOperation::Intersect,
        );
        pieces_to_polygons_with_data(pieces, &a.data)
    }
}

impl<K: NarrowCoordinate> Difference<Polygon<K>> for Polygon<K> {
    /// The pieces of `a` minus `b` computed in `i32`; none if some
    /// coordinate does not fit back in `K`.
    fn difference(a: Polygon<K>, b: Polygon<K>) -> (res: Vec<Polygon<K>>)
        ensures
            res@.map_values(|p: Polygon<K>| p@) == narrow_pieces_of::<K>(
                a@,
                b@,
                OverlayOperation::Difference,
            ),
            res@.map_values(|p: Polygon<K>| p@) == match narrow_all::<K>(
                int_pieces(
                    overlay_of(
                        shape_of(widen_view(a@)),
                        shape_of(widen_view(b@)),
                        OverlayOperation::Difference,
                    ),
                ),
            ) {
                Some(all) => all,
                None => seq![],
            },
    {
        pieces_to_polygons(
            narrow_overlay_many::<K, Polygon<K>, Polygon<K>>(&a, &b, OverlayOperation::Difference),
        )
    }
}

impl<K: NarrowCoordinate, W: Clone> Difference<PolygonWithData<K, W>> for PolygonWithData<K, W> {
    /// The pieces of `a` minus `b` computed in `i32`, each with a clone of
    /// the payload of `a`; none if some coordinate does not fit back.
    fn difference(a: PolygonWithData<K, W>, b: PolygonWithData<K, W>) -> (res: Vec<
        PolygonWithData<K, W>,
    >)
        ensures
            res@.map_values(|p: PolygonWithData<K, W>| p@) == narrow_pieces_of::<K>(
                a@,
                b@,
                OverlayOperation::Difference,
            ),
            res@.map_values(|p: PolygonWithData<K, W>| p@) == match narrow_all::<K>(
                int_pieces(
                    overlay_of(
                        shape_of(widen_view(a@)),
                        shape_of(widen_view(b@)),
                        OverlayOperation::Difference,
                    ),
                ),
            ) {
                Some(all) => all,
                None => seq![],
            },
            forall|i: int| 0 <= i < res@.len() ==> cloned::<W>(a.data, #[trigger] res@[i].data),
    {
        let pieces = narrow_overlay_many::<K, PolygonWithData<K, W>, PolygonWithData<K, W>>(
            &a,
            &b,
            OverlayOperation::Difference,
        );
        pieces_to_polygons_with_data(pieces, &a.data)
    }
}

/// A ring of `i16` coordinates with each coordinate cast to `i32`.
pub open spec fn i16_ring_as_i32(ring: Seq<[i16; 2]>) -> Seq<[i32; 2]> {
    ring.map_values(|v: [i16; 2]| [v[0] as i32, v[1] as i32])
}

/// A ring of `i8` coordinates with each coordinate cast to `i32`.
pub open spec fn i8_ring_as_i32(ring: Seq<[i8; 2]>) -> Seq<[i32; 2]> {
    ring.map_values(|v: [i8; 2]| [v[0] as i32, v[1] as i32])
}

/// Widening `i16` coordinates keeps every value: the engine sees the same
/// vertices.
pub proof fn law_i16_widening_keeps_values(p: (Seq<[i16; 2]>, Seq<Seq<[i16; 2]>>))
    ensures
        widen_view::<i16>(p) == (
            i16_ring_as_i32(p.0),
            p.1.map_values(|r: Seq<[i16; 2]>| i16_ring_as_i32(r)),
        ),
        forall|i: int, c: int|
            0 <= i < p.0.len() && 0 <= c < 2 ==> #[trigger] widen_view::<i16>(p).0[i][c] as int
                == p.0[i][c] as int,
{
    assert(widen_ring::<i16>(p.0) =~= i16_ring_as_i32(p.0));
    assert forall|j: int| 0 <= j < p.1.len() implies #[trigger] widen_ring::<i16>(p.1[j])
        == i16_ring_as_i32(p.1[j]) by {
        assert(widen_ring::<i16>(p.1[j]) =~= i16_ring_as_i32(p.1[j]));
    }
    assert(p.1.map_values(|r: Seq<[i16; 2]>| widen_ring::<i16>(r)) =~= p.1.map_values(
        |r: Seq<[i16; 2]>| i16_ring_as_i32(r),
    ));
}

/// Widening `i8` coordinates keeps every value: the engine sees the same
/// vertices.
pub proof fn law_i8_widening_keeps_values(p: (Seq<[i8; 2]>, Seq<Seq<[i8; 2]>>))
    ensures
        widen_view::<i8>(p) == (
            i8_ring_as_i32(p.0),
            p.1.map_values(|r: Seq<[i8; 2]>| i8_ring_as_i32(r)),
        ),
        forall|i: int, c: int|
            0 <= i < p.0.len() && 0 <= c < 2 ==> #[trigger] widen_view::<i8>(p).0[i][c] as int
                == p.0[i][c] as int,
{
    assert(widen_ring::<i8>(p.0) =~= i8_ring_as_i32(p.0));
    assert forall|j: int| 0 <= j < p.1.len() implies #[trigger] widen_ring::<i8>(p.1[j])
        == i8_ring_as_i32(p.1[j]) by {
        assert(widen_ring::<i8>(p.1[j]) =~= i8_ring_as_i32(p.1[j]));
    }
    assert(p.1.map_values(|r: Seq<[i8; 2]>| widen_ring::<i8>(r)) =~= p.1.map_values(
        |r: Seq<[i8; 2]>| i8_ring_as_i32(r),
    ));
}

/// Narrowing an `i32` back to `i16` keeps its value, and fails exactly when
/// the value is out of range.
pub proof fn law_i16_narrowing_keeps_values(v: i32)
    ensures
        match <i16 as NarrowCoordinate>::from_i32(v) {
            Some(x) => x as int == v as int,
            None => v < i16::MIN || v > i16::MAX,
        },
{
}

/// Narrowing an `i32` back to `i8` keeps its value, and fails exactly when
/// the value is out of range.
pub proof fn law_i8_narrowing_keeps_values(v: i32)
    ensures
        match <i8 as NarrowCoordinate>::from_i32(v) {
            Some(x) => x as int == v as int,
            None => v < i8::MIN || v > i8::MAX,
        },
{
}

/// The union of `i16` polygons is the engine's union of the same vertex
/// values as `i32`, narrowed back.
pub proof fn law_i16_union_is_the_i32_union(
    a: (Seq<[i16; 2]>, Seq<Seq<[i16; 2]>>),
    b: (Seq<[i16; 2]>, Seq<Seq<[i16; 2]>>),
)
    ensures
        narrow_union::<i16>(a, b) == match merged_polygon(
            overlay_of(
                shape_of((i16_ring_as_i32(a.0), a.1.map_values(|r: Seq<[i16; 2]>| i16_ring_as_i32(r)))),
                shape_of((i16_ring_as_i32(b.0), b.1.map_values(|r: Seq<[i16; 2]>| i16_ring_as_i32(r)))),
                OverlayOperation::Union,
            ),
        ) {
            Some(v) => narrow_view::<i16>(v),
            None => None,
        },
{
    law_i16_widening_keeps_values(a);
    law_i16_widening_keeps_values(b);
}

/// The union of `i8` polygons is the engine's union of the same vertex
/// values as `i32`, narrowed back.
pub proof fn law_i8_union_is_the_i32_union(
    a: (Seq<[i8; 2]>, Seq<Seq<[i8; 2]>>),
    b: (Seq<[i8; 2]>, Seq<Seq<[i8; 2]>>),
)
    ensures
        narrow_union::<i8>(a, b) == match merged_polygon(
            overlay_of(
                shape_of((i8_ring_as_i32(a.0), a.1.map_values(|r: Seq<[i8; 2]>| i8_ring_as_i32(r)))),
                shape_of((i8_ring_as_i32(b.0), b.1.map_values(|r: Seq<[i8; 2]>| i8_ring_as_i32(r)))),
                OverlayOperation::Union,
            ),
        ) {
            Some(v) => narrow_view::<i8>(v),
            None => None,
        },
{
    law_i8_widening_keeps_values(a);
    law_i8_widening_keeps_values(b);
}

/// The pieces of an overlay of narrow polygons are the engine's pieces for
/// that very operation, with `a` as the subject and `b` as the clip,
/// narrowed back: intersection stays intersection, and difference removes
/// `b` from `a`.
pub proof fn law_narrow_pieces_keep_operation_and_order<K: NarrowCoordinate>(
    a: (Seq<[K; 2]>, Seq<Seq<[K; 2]>>),
    b: (Seq<[K; 2]>, Seq<Seq<[K; 2]>>),
)
    ensures
        narrow_pieces_of::<K>(a, b, OverlayOperation::Intersect) == match narrow_all::<K>(
            int_pieces(
                overlay_of(
                    shape_of(widen_view(a)),
                    shape_of(widen_view(b)),
                    OverlayOperation::Intersect,
                ),
            ),
        ) {
            Some(all) => all,
            None => seq![],
        },
        narrow_pieces_of::<K>(a, b, OverlayOperation::Difference) == match narrow_all::<K>(
            int_pieces(
                overlay_of(
                    shape_of(widen_view(a)),
                    shape_of(widen_view(b)),
                    OverlayOperation::Difference,
                ),
            ),
        ) {
            Some(all) => all,
            None => seq![],
        },
        narrow_union::<K>(a, b) == match merged_polygon(
            overlay_of(shape_of(widen_view(a)), shape_of(widen_view(b)), OverlayOperation::Union),
        ) {
            Some(v) => narrow_view::<K>(v),
            None => None,
        },
{
}

/// The pieces of an overlay are the engine's shapes for these two shapes
/// and this operation, one polygon per shape in the engine's order; there
/// are none to give when a shape is empty or a coordinate is out of range.
pub proof fn law_int_overlay_is_the_engine_overlay(
    subj: Seq<Seq<[i32; 2]>>,
    clip: Seq<Seq<[i32; 2]>>,
    op: OverlayOperation,
)
    ensures
        !(shape_in_range(subj) && shape_in_range(clip)) ==> int_overlay(subj, clip, op) is None,
        shape_in_range(subj) && shape_in_range(clip) ==> (int_overlay(subj, clip, op) is Some
            <==> forall|i: int|
            0 <= i < overlay_shapes(subj, clip, op).len() ==> (#[trigger] overlay_shapes(
                subj,
                clip,
                op,
            )[i]).len() > 0),
        int_overlay(subj, clip, op) is Some ==> int_overlay(subj, clip, op)->0 == nonempty_polygons(
            overlay_shapes(subj, clip, op),
        ),
{
}

} // verus!
