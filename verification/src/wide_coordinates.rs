//! Overlays of polygons whose coordinate type is wider than `i32`: the
//! polygons reach the `i32` engine only when every coordinate fits, and the
//! result is widened back.

use vstd::prelude::*;

use crate::bool_ops::{
    int_overlay, merged_polygon, overlay_int_polygons, overlay_int_polygons_many, overlay_of,
    shape_of, OverlayOperation,
};
use crate::polygon::{rings_view, Polygon, Rings};

verus! {

/// Integer coordinate types at least as wide as `i32`.
pub trait WideCoordinate: Copy + Sized {
    /// The value as an `i32`, if it fits.
    spec fn fit_i32(self) -> Option<i32>;

    /// The `i32` value as `Self`.
    spec fn from_i32(v: i32) -> Self;

    fn fit(self) -> (r: Option<i32>)
        ensures
            r == self.fit_i32(),
    ;

    fn lift(v: i32) -> (r: Self)
        ensures
            r == Self::from_i32(v),
    ;
}

impl WideCoordinate for i64 {
    open spec fn fit_i32(self) -> Option<i32> {
        if i32::MIN <= self <= i32::MAX {
            Some(self as i32)
        } else {
            None
        }
    }

    open spec fn from_i32(v: i32) -> i64 {
        v as i64
    }

    fn fit(self) -> (r: Option<i32>)
        ensures
            match r {
                Some(x) => x as int == self as int,
                None => self < i32::MIN || self > i32::MAX,
            },
    {
        if i32::MIN as i64 <= self && self <= i32::MAX as i64 {
            Some(self as i32)
        } else {
            None
        }
    }

    fn lift(v: i32) -> (r: i64)
        ensures
            r as int == v as int,
    {
        v as i64
    }
}

/// Every coordinate of the ring fits in `i32`.
pub open spec fn ring_fits<K: WideCoordinate>(ring: Seq<[K; 2]>) -> bool {
    forall|i: int|
        0 <= i < ring.len() ==> (#[trigger] ring[i])[0].fit_i32() is Some && ring[i][1].fit_i32() is Some
}

/// The ring with every coordinate as an `i32`.
pub open spec fn fitted_ring<K: WideCoordinate>(ring: Seq<[K; 2]>) -> Seq<[i32; 2]> {
    ring.map_values(|v: [K; 2]| [v[0].fit_i32()->0, v[1].fit_i32()->0])
}

/// The polygon view with every coordinate as an `i32`, if every coordinate
/// fits.
pub open spec fn fitted_view<K: WideCoordinate>(p: (Seq<[K; 2]>, Seq<Seq<[K; 2]>>)) -> Option<
    (Seq<[i32; 2]>, Seq<Seq<[i32; 2]>>),
> {
    if ring_fits(p.0) && forall|j: int| 0 <= j < p.1.len() ==> ring_fits(#[trigger] p.1[j]) {
        Some((fitted_ring(p.0), p.1.map_values(|r: Seq<[K; 2]>| fitted_ring(r))))
    } else {
        None
    }
}

/// The ring with every coordinate widened to `K`.
pub open spec fn lifted_ring<K: WideCoordinate>(ring: Seq<[i32; 2]>) -> Seq<[K; 2]> {
    ring.map_values(|v: [i32; 2]| [K::from_i32(v[0]), K::from_i32(v[1])])
}

/// The polygon view with every coordinate widened to `K`.
pub open spec fn lifted_view<K: WideCoordinate>(p: (Seq<[i32; 2]>, Seq<Seq<[i32; 2]>>)) -> (
    Seq<[K; 2]>,
    Seq<Seq<[K; 2]>>,
) {
    (lifted_ring::<K>(p.0), p.1.map_values(|r: Seq<[i32; 2]>| lifted_ring::<K>(r)))
}

/// The single polygon of the overlay of two wide polygons, computed in
/// `i32`; `None` when a coordinate does not fit in `i32` or the result is not
/// a single polygon.
pub open spec fn wide_overlay<K: WideCoordinate>(
    a: (Seq<[K; 2]>, Seq<Seq<[K; 2]>>),
    b: (Seq<[K; 2]>, Seq<Seq<[K; 2]>>),
    op: OverlayOperation,
) -> Option<(Seq<[K; 2]>, Seq<Seq<[K; 2]>>)> {
    match (fitted_view(a), fitted_view(b)) {
        (Some(x), Some(y)) => match merged_polygon(overlay_of(shape_of(x), shape_of(y), op)) {
            Some(m) => Some(lifted_view::<K>(m)),
            None => None,
        },
        _ => None,
    }
}

/// Every polygon of the overlay of two wide polygons, computed in `i32`;
/// `None` when a coordinate does not fit in `i32` or the engine's result has
/// an empty shape.
pub open spec fn wide_overlay_many<K: WideCoordinate>(
    a: (Seq<[K; 2]>, Seq<Seq<[K; 2]>>),
    b: (Seq<[K; 2]>, Seq<Seq<[K; 2]>>),
    op: OverlayOperation,
) -> Option<Seq<(Seq<[K; 2]>, Seq<Seq<[K; 2]>>)>> {
    match (fitted_view(a), fitted_view(b)) {
        (Some(x), Some(y)) => match int_overlay(shape_of(x), shape_of(y), op) {
            Some(v) => Some(
                v.map_values(|p: (Seq<[i32; 2]>, Seq<Seq<[i32; 2]>>)| lifted_view::<K>(p)),
            ),
            None => None,
        },
        _ => None,
    }
}

fn fit_ring_exec<K: WideCoordinate>(ring: &[[K; 2]]) -> (res: Option<Vec<[i32; 2]>>)
    ensures
        match res {
            Some(r) => ring_fits(ring@) && r@ == fitted_ring(ring@),
            None => !ring_fits(ring@),
        },
{
    let mut res: Vec<[i32; 2]> = Vec::new();
    for i in 0..ring.len()
        invariant
            res@.len() == i,
            forall|j: int|
                0 <= j < i ==> (#[trigger] ring@[j])[0].fit_i32() is Some && ring@[j][1].fit_i32() is Some,
            forall|j: int|
                0 <= j < i ==> #[trigger] res@[j] == [ring@[j][0].fit_i32()->0, ring@[j][1].fit_i32()->0],
    {
        let v = ring[i];
        match (v[0].fit(), v[1].fit()) {
            (Some(x), Some(y)) => res.push([x, y]),
            _ => {
                assert(!ring_fits(ring@)) by {
                    assert(ring@[i as int] == v);
                }
                return None;
            },
        }
    }
    assert(res@ =~= fitted_ring(ring@));
    Some(res)
}

/// The polygon with every coordinate as an `i32`, if every coordinate fits.
fn fit_polygon<K: WideCoordinate, P: Rings<K>>(polygon: &P) -> (res: Option<Polygon<i32>>)
    ensures
        match res {
            Some(q) => fitted_view((polygon.exterior_ring(), polygon.interior_rings())) == Some(q@),
            None => fitted_view((polygon.exterior_ring(), polygon.interior_rings())) is None,
        },
{
    let ghost v = (polygon.exterior_ring(), polygon.interior_rings());
    let exterior = match fit_ring_exec(polygon.exterior()) {
        Some(e) => e,
        None => {
            return None;
        },
    };
    let rings = polygon.interiors();
    let mut interiors: Vec<Vec<[i32; 2]>> = Vec::new();
    for i in 0..rings.len()
        invariant
            v == (polygon.exterior_ring(), polygon.interior_rings()),
            rings@.len() == v.1.len(),
            forall|j: int| 0 <= j < rings@.len() ==> #[trigger] rings@[j]@ == v.1[j],
            ring_fits(v.0),
            exterior@ == fitted_ring(v.0),
            interiors@.len() == i,
            forall|j: int| 0 <= j < i ==> ring_fits(#[trigger] v.1[j]),
            forall|j: int| 0 <= j < i ==> #[trigger] interiors@[j]@ == fitted_ring(v.1[j]),
    {
        assert(rings@[i as int]@ == v.1[i as int]);
        match fit_ring_exec(rings[i].as_slice()) {
            Some(r) => interiors.push(r),
            None => {
                return None;
            },
        }
    }
    let res = Polygon { exterior, interiors };
    assert(rings_view(res.interiors@) =~= v.1.map_values(|r: Seq<[K; 2]>| fitted_ring(r)));
    Some(res)
}

fn lift_ring_exec<K: WideCoordinate>(ring: &[[i32; 2]]) -> (res: Vec<[K; 2]>)
    ensures
        res@ == lifted_ring::<K>(ring@),
{
    let mut res: Vec<[K; 2]> = Vec::new();
    for i in 0..ring.len()
        invariant
            res@.len() == i,
            forall|j: int|
                0 <= j < i ==> #[trigger] res@[j] == [K::from_i32(ring@[j][0]), K::from_i32(ring@[j][1])],
    {
        let v = ring[i];
        res.push([K::lift(v[0]), K::lift(v[1])]);
    }
    assert(res@ =~= lifted_ring::<K>(ring@));
    res
}

/// The piece with every coordinate widened to `K`.
fn lift_piece<K: WideCoordinate>(piece: (Vec<[i32; 2]>, Vec<Vec<[i32; 2]>>)) -> (res: (
    Vec<[K; 2]>,
    Vec<Vec<[K; 2]>>,
))
    ensures
        (res.0@, rings_view(res.1@)) == lifted_view::<K>((piece.0@, rings_view(piece.1@))),
{
    let exterior = lift_ring_exec::<K>(piece.0.as_slice());
    let mut interiors: Vec<Vec<[K; 2]>> = Vec::new();
    for i in 0..piece.1.len()
        invariant
            interiors@.len() == i,
            forall|j: int|
                0 <= j < i ==> #[trigger] interiors@[j]@ == lifted_ring::<K>(piece.1@[j]@),
    {
        interiors.push(lift_ring_exec::<K>(piece.1[i].as_slice()));
    }
    assert(rings_view(interiors@) =~= rings_view(piece.1@).map_values(
        |r: Seq<[i32; 2]>| lifted_ring::<K>(r),
    ));
    (exterior, interiors)
}

/// Overlays two polygons with wide coordinates and returns the result if it
/// is a single polygon; `None` when a coordinate does not fit in `i32`,
/// when the result is not a single polygon, or when a coordinate is outside
/// the range the engine accepts.
pub fn overlay_wide_polygons<K: WideCoordinate, A: Rings<K>, B: Rings<K>>(
    a: &A,
    b: &B,
    op: OverlayOperation,
) -> (res: Option<(Vec<[K; 2]>, Vec<Vec<[K; 2]>>)>)
    ensures
        match res {
            None => wide_overlay(
                (a.exterior_ring(), a.interior_rings()),
                (b.exterior_ring(), b.interior_rings()),
                op,
            ) is None,
            Some(p) => wide_overlay(
                (a.exterior_ring(), a.interior_rings()),
                (b.exterior_ring(), b.interior_rings()),
                op,
            ) == Some((p.0@, rings_view(p.1@))),
        },
        (match (
            fitted_view((a.exterior_ring(), a.interior_rings())),
            fitted_view((b.exterior_ring(), b.interior_rings())),
        ) {
            (Some(x), Some(y)) => match merged_polygon(overlay_of(shape_of(x), shape_of(y), op)) {
                Some(m) => Some(lifted_view::<K>(m)),
                None => None,
            },
            _ => None,
        }) == (match res {
            Some(p) => Some((p.0@, rings_view(p.1@))),
            None => None,
        }),
{
    let pa = match fit_polygon(a) {
        Some(p) => p,
        None => {
            return None;
        },
    };
    let pb = match fit_polygon(b) {
        Some(p) => p,
        None => {
            return None;
        },
    };
    assert(shape_of(pa@) =~= seq![pa.exterior_ring()] + pa.interior_rings());
    assert(shape_of(pb@) =~= seq![pb.exterior_ring()] + pb.interior_rings());
    match overlay_int_polygons(&pa, &pb, op) {
        None => None,
        Some(piece) => Some(lift_piece::<K>(piece)),
    }
}

/// Overlays two polygons with wide coordinates and returns every polygon of
/// the result, one per result shape; `None` when a coordinate does not fit
/// in `i32`, when the engine's result has an empty shape, or when a
/// coordinate is outside the range the engine accepts.
pub fn overlay_wide_polygons_many<K: WideCoordinate, A: Rings<K>, B: Rings<K>>(
    a: &A,
    b: &B,
    op: OverlayOperation,
) -> (res: Option<Vec<(Vec<[K; 2]>, Vec<Vec<[K; 2]>>)>>)
    ensures
        match res {
            None => wide_overlay_many(
                (a.exterior_ring(), a.interior_rings()),
                (b.exterior_ring(), b.interior_rings()),
                op,
            ) is None,
            Some(v) => wide_overlay_many(
                (a.exterior_ring(), a.interior_rings()),
                (b.exterior_ring(), b.interior_rings()),
                op,
            ) == Some(
                v@.map_values(|p: (Vec<[K; 2]>, Vec<Vec<[K; 2]>>)| (p.0@, rings_view(p.1@))),
            ),
        },
        (match (
            fitted_view((a.exterior_ring(), a.interior_rings())),
            fitted_view((b.exterior_ring(), b.interior_rings())),
        ) {
            (Some(x), Some(y)) => match int_overlay(shape_of(x), shape_of(y), op) {
                Some(w) => Some(
                    w.map_values(|p: (Seq<[i32; 2]>, Seq<Seq<[i32; 2]>>)| lifted_view::<K>(p)),
                ),
                None => None,
            },
            _ => None,
        }) == (match res {
            Some(v) => Some(
                v@.map_values(|p: (Vec<[K; 2]>, Vec<Vec<[K; 2]>>)| (p.0@, rings_view(p.1@))),
            ),
            None => None,
        }),
{
    let pa = match fit_polygon(a) {
        Some(p) => p,
        None => {
            return None;
        },
    };
    let pb = match fit_polygon(b) {
        Some(p) => p,
        None => {
            return None;
        },
    };
    assert(shape_of(pa@) =~= seq![pa.exterior_ring()] + pa.interior_rings());
    assert(shape_of(pb@) =~= seq![pb.exterior_ring()] + pb.interior_rings());
    let pieces = match overlay_int_polygons_many(&pa, &pb, op) {
        Some(v) => v,
        None => {
            return None;
        },
    };
    let ghost views = pieces@.map_values(
        |p: (Vec<[i32; 2]>, Vec<Vec<[i32; 2]>>)| (p.0@, rings_view(p.1@)),
    );
    let mut res: Vec<(Vec<[K; 2]>, Vec<Vec<[K; 2]>>)> = Vec::new();
    for piece in it: pieces
        invariant
            views == it.seq().map_values(
                |p: (Vec<[i32; 2]>, Vec<Vec<[i32; 2]>>)| (p.0@, rings_view(p.1@)),
            ),
            res@.len() == it.index(),
            forall|j: int|
                0 <= j < it.index() ==> ((#[trigger] res@[j]).0@, rings_view(res@[j].1@))
                    == lifted_view::<K>(views[j]),
    {
        let ghost j = it.index();
        assert(views[j] == (piece.0@, rings_view(piece.1@)));
        res.push(lift_piece::<K>(piece));
    }
    assert(res@.map_values(|p: (Vec<[K; 2]>, Vec<Vec<[K; 2]>>)| (p.0@, rings_view(p.1@)))
        =~= views.map_values(|p: (Seq<[i32; 2]>, Seq<Seq<[i32; 2]>>)| lifted_view::<K>(p)));
    Some(res)
}

/// An `i64` reaches the engine with its value unchanged, and only when it
/// fits in `i32`.
pub proof fn law_i64_fit_keeps_values(x: i64)
    ensures
        match x.fit_i32() {
            Some(v) => v as int == x as int,
            None => x < i32::MIN || x > i32::MAX,
        },
{
}

/// An `i32` result coordinate comes back as the `i64` of the same value.
pub proof fn law_i64_lift_keeps_values(v: i32)
    ensures
        <i64 as WideCoordinate>::from_i32(v) as int == v as int,
{
}

/// A ring of `i64` coordinates that fit reaches the engine as the same
/// vertices.
pub proof fn law_i64_fitted_ring_keeps_values(ring: Seq<[i64; 2]>)
    requires
        ring_fits(ring),
    ensures
        fitted_ring(ring).len() == ring.len(),
        forall|i: int, c: int|
            0 <= i < ring.len() && 0 <= c < 2 ==> #[trigger] fitted_ring(ring)[i][c] as int
                == ring[i][c] as int,
{
    assert forall|i: int, c: int| 0 <= i < ring.len() && 0 <= c < 2 implies #[trigger] fitted_ring(
        ring,
    )[i][c] as int == ring[i][c] as int by {
        assert(ring[i][0].fit_i32() is Some && ring[i][1].fit_i32() is Some);
    }
}

/// The overlay of wide polygons is the engine's overlay, for that very
/// operation, of the same vertices with `a` as the subject, widened back.
pub proof fn law_wide_overlay_is_the_engine_overlay<K: WideCoordinate>(
    a: (Seq<[K; 2]>, Seq<Seq<[K; 2]>>),
    b: (Seq<[K; 2]>, Seq<Seq<[K; 2]>>),
    op: OverlayOperation,
)
    ensures
        wide_overlay(a, b, op) == match (fitted_view(a), fitted_view(b)) {
            (Some(x), Some(y)) => match merged_polygon(overlay_of(shape_of(x), shape_of(y), op)) {
                Some(m) => Some(lifted_view::<K>(m)),
                None => None,
            },
            _ => None,
        },
        wide_overlay_many(a, b, op) == match (fitted_view(a), fitted_view(b)) {
            (Some(x), Some(y)) => match int_overlay(shape_of(x), shape_of(y), op) {
                Some(w) => Some(
                    w.map_values(|p: (Seq<[i32; 2]>, Seq<Seq<[i32; 2]>>)| lifted_view::<K>(p)),
                ),
                None => None,
            },
            _ => None,
        },
{
}

} // verus!
