//! Polygons, their identifiers, and their centroids.

use vstd::prelude::*;

verus! {

/// Access to the rings (closed vertex loops) of a polygon.
pub trait Rings<K>: Sized {
    /// The vertices of the outer boundary.
    spec fn exterior_ring(&self) -> Seq<[K; 2]>;

    /// The vertices of each hole.
    spec fn interior_rings(&self) -> Seq<Seq<[K; 2]>>;

    fn exterior(&self) -> (ring: &[[K; 2]])
        ensures
            ring@ == self.exterior_ring(),
    ;

    fn interiors(&self) -> (rings: &[Vec<[K; 2]>])
        ensures
            rings@.len() == self.interior_rings().len(),
            forall|i: int| 0 <= i < rings@.len() ==> #[trigger] rings@[i]@ == self.interior_rings()[i],
    ;
}

/// An index pointing to a polygon.
///
/// This is just a thin newtype wrapper over [`usize`] for clarity and to
/// disambiguate it from other index types. Use the [`index()`] method to access
/// the underlying index.
#[derive(Clone, Copy, Debug, Eq, Ord, PartialEq, PartialOrd)]
pub struct PolygonId(pub usize);

impl PolygonId {
    /// Wrap a polygon index in a newtype struct.
    pub fn new(id: usize) -> (res: Self)
        ensures
            res.0 == id,
    {
        Self(id)
    }

    /// Returns the underlying index.
    pub fn index(self) -> (res: usize)
        ensures
            res == self.0,
    {
        self.0
    }
}

/// A polygon with an outer boundary and holes.
#[derive(Debug)]
pub struct Polygon<K> {
    /// Polygon boundary.
    pub exterior: Vec<[K; 2]>,
    /// Polygon interior rings.
    pub interiors: Vec<Vec<[K; 2]>>,
}

/// The rings of each vector, as sequences.
pub open spec fn rings_view<K>(rings: Seq<Vec<[K; 2]>>) -> Seq<Seq<[K; 2]>> {
    rings.map_values(|ring: Vec<[K; 2]>| ring@)
}

impl<K> View for Polygon<K> {
    /// The exterior ring and the interior rings.
    type V = (Seq<[K; 2]>, Seq<Seq<[K; 2]>>);

    open spec fn view(&self) -> (Seq<[K; 2]>, Seq<Seq<[K; 2]>>) {
        (self.exterior@, rings_view(self.interiors@))
    }
}

/// A copy of a ring of copyable coordinates.
pub fn copy_ring<K: Copy>(ring: &[[K; 2]]) -> (res: Vec<[K; 2]>)
    ensures
        res@ == ring@,
{
    let mut res: Vec<[K; 2]> = Vec::new();
    for i in 0..ring.len()
        invariant
            res@ == ring@.subrange(0, i as int),
    {
        res.push(ring[i]);
        assert(res@ =~= ring@.subrange(0, i + 1));
    }
    assert(res@ =~= ring@);
    res
}

/// A copy of a list of rings of copyable coordinates.
pub fn copy_rings<K: Copy>(rings: &[Vec<[K; 2]>]) -> (res: Vec<Vec<[K; 2]>>)
    ensures
        rings_view(res@) == rings_view(rings@),
{
    let mut res: Vec<Vec<[K; 2]>> = Vec::new();
    for i in 0..rings.len()
        invariant
            res@.len() == i,
            forall|j: int| 0 <= j < i ==> #[trigger] res@[j]@ == rings@[j]@,
    {
        res.push(copy_ring(rings[i].as_slice()));
    }
    assert(rings_view(res@) =~= rings_view(rings@));
    res
}

impl<K: Copy> Clone for Polygon<K> {
    fn clone(&self) -> (res: Self)
        ensures
            res@ == self@,
    {
        Polygon { exterior: copy_ring(self.exterior.as_slice()), interiors: copy_rings(self.interiors.as_slice()) }
    }
}

impl<K> Rings<K> for Polygon<K> {
    open spec fn exterior_ring(&self) -> Seq<[K; 2]> {
        self.exterior@
    }

    open spec fn interior_rings(&self) -> Seq<Seq<[K; 2]>> {
        rings_view(self.interiors@)
    }

    fn exterior(&self) -> (ring: &[[K; 2]]) {
        self.exterior.as_slice()
    }

    fn interiors(&self) -> (rings: &[Vec<[K; 2]>]) {
        self.interiors.as_slice()
    }
}

/// A polygon that carries a user-defined payload.
#[derive(Clone, Debug)]
pub struct PolygonWithData<K, W = ()> {
    /// Polygon boundary.
    pub exterior: Vec<[K; 2]>,
    /// Polygon interior rings.
    pub interiors: Vec<Vec<[K; 2]>>,
    /// User-defined payload for this polygon.
    pub data: W,
}

impl<K, W> View for PolygonWithData<K, W> {
    /// The exterior ring and the interior rings.
    type V = (Seq<[K; 2]>, Seq<Seq<[K; 2]>>);

    open spec fn view(&self) -> (Seq<[K; 2]>, Seq<Seq<[K; 2]>>) {
        (self.exterior@, rings_view(self.interiors@))
    }
}

impl<K, W> Rings<K> for PolygonWithData<K, W> {
    open spec fn exterior_ring(&self) -> Seq<[K; 2]> {
        self.exterior@
    }

    open spec fn interior_rings(&self) -> Seq<Seq<[K; 2]>> {
        rings_view(self.interiors@)
    }

    fn exterior(&self) -> (ring: &[[K; 2]]) {
        self.exterior.as_slice()
    }

    fn interiors(&self) -> (rings: &[Vec<[K; 2]>]) {
        self.interiors.as_slice()
    }
}

/// Sum of one coordinate (`c` is 0 for x, 1 for y) over the first `n`
/// vertices.
pub open spec fn coordinate_sum(vertices: Seq<(int, int)>, n: int, c: int) -> int
    decreases n,
{
    if n <= 0 {
        0
    } else {
        coordinate_sum(vertices, n - 1, c) + if c == 0 {
            vertices[n - 1].0
        } else {
            vertices[n - 1].1
        }
    }
}

/// Integer division rounding toward zero, as Rust's `/` does.
pub open spec fn div_toward_zero(a: int, b: int) -> int {
    if a >= 0 {
        a / b
    } else {
        -((-a) / b)
    }
}

/// The vertex average of a ring, each coordinate divided toward zero; the
/// origin for an empty ring.
pub open spec fn vertex_mean(vertices: Seq<(int, int)>) -> (int, int) {
    let n = vertices.len() as int;
    if n == 0 {
        (0, 0)
    } else {
        (
            div_toward_zero(coordinate_sum(vertices, n, 0), n),
            div_toward_zero(coordinate_sum(vertices, n, 1), n),
        )
    }
}

/// Every running sum of the coordinates stays within `lo..=hi`.
pub open spec fn running_sums_within(vertices: Seq<(int, int)>, lo: int, hi: int) -> bool {
    forall|k: int, c: int|
        0 <= k <= vertices.len() && 0 <= c < 2 ==> lo <= #[trigger] coordinate_sum(vertices, k, c)
            <= hi
}

pub open spec fn points_i64(ring: Seq<[i64; 2]>) -> Seq<(int, int)> {
    ring.map_values(|v: [i64; 2]| (v[0] as int, v[1] as int))
}

pub open spec fn points_i32(ring: Seq<[i32; 2]>) -> Seq<(int, int)> {
    ring.map_values(|v: [i32; 2]| (v[0] as int, v[1] as int))
}

/// A polygon's centroid, taken as the mean of its exterior vertices.
pub trait Centroid<K> {
    /// The coordinate sums the computation needs are representable.
    spec fn centroid_defined(&self) -> bool;

    /// The centroid.
    spec fn centroid_of(&self) -> [K; 2];

    fn centroid(&self) -> (c: [K; 2])
        requires
            self.centroid_defined(),
        ensures
            c == self.centroid_of(),
    ;
}

fn polygon_centroid_i64(vertices: &[[i64; 2]]) -> (c: [i64; 2])
    requires
        running_sums_within(points_i64(vertices@), i64::MIN as int, i64::MAX as int),
        vertices@.len() <= i64::MAX,
    ensures
        c[0] as int == vertex_mean(points_i64(vertices@)).0,
        c[1] as int == vertex_mean(points_i64(vertices@)).1,
{
    let ghost pts = points_i64(vertices@);
    let mut sum_x: i64 = 0;
    let mut sum_y: i64 = 0;
    let mut len: usize = 0;
    while len < vertices.len()
        invariant
            len <= vertices@.len(),
            pts == points_i64(vertices@),
            running_sums_within(pts, i64::MIN as int, i64::MAX as int),
            sum_x as int == coordinate_sum(pts, len as int, 0),
            sum_y as int == coordinate_sum(pts, len as int, 1),
        decreases vertices@.len() - len,
    {
        let v = vertices[len];
        assert(coordinate_sum(pts, len + 1, 0) == sum_x + v[0]);
        assert(coordinate_sum(pts, len + 1, 1) == sum_y + v[1]);
        sum_x = sum_x + v[0];
        sum_y = sum_y + v[1];
        len += 1;
    }
    if len == 0 {
        return [0, 0];
    }
    let n = len as i64;
    [sum_x / n, sum_y / n]
}

fn polygon_centroid_i32(vertices: &[[i32; 2]]) -> (c: [i32; 2])
    requires
        running_sums_within(points_i32(vertices@), i32::MIN as int, i32::MAX as int),
        vertices@.len() <= i32::MAX,
    ensures
        c[0] as int == vertex_mean(points_i32(vertices@)).0,
        c[1] as int == vertex_mean(points_i32(vertices@)).1,
{
    let ghost pts = points_i32(vertices@);
    let mut sum_x: i32 = 0;
    let mut sum_y: i32 = 0;
    let mut len: usize = 0;
    while len < vertices.len()
        invariant
            len <= vertices@.len(),
            pts == points_i32(vertices@),
            running_sums_within(pts, i32::MIN as int, i32::MAX as int),
            sum_x as int == coordinate_sum(pts, len as int, 0),
            sum_y as int == coordinate_sum(pts, len as int, 1),
        decreases vertices@.len() - len,
    {
        let v = vertices[len];
        assert(coordinate_sum(pts, len + 1, 0) == sum_x + v[0]);
        assert(coordinate_sum(pts, len + 1, 1) == sum_y + v[1]);
        sum_x = sum_x + v[0];
        sum_y = sum_y + v[1];
        len += 1;
    }
    if len == 0 {
        return [0, 0];
    }
    let n = len as i32;
    [sum_x / n, sum_y / n]
}


impl Centroid<i64> for Polygon<i64> {
    open spec fn centroid_defined(&self) -> bool {
        &&& running_sums_within(points_i64(self.exterior@), i64::MIN as int, i64::MAX as int)
        &&& self.exterior@.len() <= i64::MAX
    }

    open spec fn centroid_of(&self) -> [i64; 2] {
        let m = vertex_mean(points_i64(self.exterior@));
        [m.0 as i64, m.1 as i64]
    }

    fn centroid(&self) -> (c: [i64; 2])
        ensures
            self.exterior@.len() == 0 ==> c[0] == 0 && c[1] == 0,
            self.exterior@.len() > 0 ==> c[0] as int == div_toward_zero(
                coordinate_sum(points_i64(self.exterior@), self.exterior@.len() as int, 0),
                self.exterior@.len() as int,
            ),
            self.exterior@.len() > 0 ==> c[1] as int == div_toward_zero(
                coordinate_sum(points_i64(self.exterior@), self.exterior@.len() as int, 1),
                self.exterior@.len() as int,
            ),
    {
        polygon_centroid_i64(self.exterior.as_slice())
    }
}

impl Centroid<i32> for Polygon<i32> {
    open spec fn centroid_defined(&self) -> bool {
        &&& running_sums_within(points_i32(self.exterior@), i32::MIN as int, i32::MAX as int)
        &&& self.exterior@.len() <= i32::MAX
    }

    open spec fn centroid_of(&self) -> [i32; 2] {
        let m = vertex_mean(points_i32(self.exterior@));
        [m.0 as i32, m.1 as i32]
    }

    fn centroid(&self) -> (c: [i32; 2])
        ensures
            self.exterior@.len() == 0 ==> c[0] == 0 && c[1] == 0,
            self.exterior@.len() > 0 ==> c[0] as int == div_toward_zero(
                coordinate_sum(points_i32(self.exterior@), self.exterior@.len() as int, 0),
                self.exterior@.len() as int,
            ),
            self.exterior@.len() > 0 ==> c[1] as int == div_toward_zero(
                coordinate_sum(points_i32(self.exterior@), self.exterior@.len() as int, 1),
                self.exterior@.len() as int,
            ),
    {
        polygon_centroid_i32(self.exterior.as_slice())
    }
}

impl<W> Centroid<i64> for PolygonWithData<i64, W> {
    open spec fn centroid_defined(&self) -> bool {
        &&& running_sums_within(points_i64(self.exterior@), i64::MIN as int, i64::MAX as int)
        &&& self.exterior@.len() <= i64::MAX
    }

    open spec fn centroid_of(&self) -> [i64; 2] {
        let m = vertex_mean(points_i64(self.exterior@));
        [m.0 as i64, m.1 as i64]
    }

    fn centroid(&self) -> (c: [i64; 2])
        ensures
            self.exterior@.len() == 0 ==> c[0] == 0 && c[1] == 0,
            self.exterior@.len() > 0 ==> c[0] as int == div_toward_zero(
                coordinate_sum(points_i64(self.exterior@), self.exterior@.len() as int, 0),
                self.exterior@.len() as int,
            ),
            self.exterior@.len() > 0 ==> c[1] as int == div_toward_zero(
                coordinate_sum(points_i64(self.exterior@), self.exterior@.len() as int, 1),
                self.exterior@.len() as int,
            ),
    {
        polygon_centroid_i64(self.exterior.as_slice())
    }
}

impl<W> Centroid<i32> for PolygonWithData<i32, W> {
    open spec fn centroid_defined(&self) -> bool {
        &&& running_sums_within(points_i32(self.exterior@), i32::MIN as int, i32::MAX as int)
        &&& self.exterior@.len() <= i32::MAX
    }

    open spec fn centroid_of(&self) -> [i32; 2] {
        let m = vertex_mean(points_i32(self.exterior@));
        [m.0 as i32, m.1 as i32]
    }

    fn centroid(&self) -> (c: [i32; 2])
        ensures
            self.exterior@.len() == 0 ==> c[0] == 0 && c[1] == 0,
            self.exterior@.len() > 0 ==> c[0] as int == div_toward_zero(
                coordinate_sum(points_i32(self.exterior@), self.exterior@.len() as int, 0),
                self.exterior@.len() as int,
            ),
            self.exterior@.len() > 0 ==> c[1] as int == div_toward_zero(
                coordinate_sum(points_i32(self.exterior@), self.exterior@.len() as int, 1),
                self.exterior@.len() as int,
            ),
    {
        polygon_centroid_i32(self.exterior.as_slice())
    }
}

/// Integer division toward zero by a positive number moves a value toward
/// zero.
proof fn lemma_div_toward_zero_shrinks(a: int, b: int)
    requires
        b >= 1,
    ensures
        a >= 0 ==> 0 <= div_toward_zero(a, b) <= a,
        a < 0 ==> a <= div_toward_zero(a, b) <= 0,
{
    if a >= 0 {
        assert(0 <= a / b <= a) by (nonlinear_arith)
            requires
                a >= 0,
                b >= 1,
        ;
    } else {
        assert(0 <= (-a) / b <= -a) by (nonlinear_arith)
            requires
                -a > 0,
                b >= 1,
        ;
    }
}

/// Each coordinate of the vertex mean lies between zero and the
/// coordinate's sum.
proof fn lemma_mean_within_sums(pts: Seq<(int, int)>)
    ensures
        pts.len() > 0 ==> {
            let n = pts.len() as int;
            &&& (coordinate_sum(pts, n, 0) >= 0 ==> 0 <= vertex_mean(pts).0 <= coordinate_sum(pts, n, 0))
            &&& (coordinate_sum(pts, n, 0) < 0 ==> coordinate_sum(pts, n, 0) <= vertex_mean(pts).0 <= 0)
            &&& (coordinate_sum(pts, n, 1) >= 0 ==> 0 <= vertex_mean(pts).1 <= coordinate_sum(pts, n, 1))
            &&& (coordinate_sum(pts, n, 1) < 0 ==> coordinate_sum(pts, n, 1) <= vertex_mean(pts).1 <= 0)
        },
{
    if pts.len() > 0 {
        let n = pts.len() as int;
        lemma_div_toward_zero_shrinks(coordinate_sum(pts, n, 0), n);
        lemma_div_toward_zero_shrinks(coordinate_sum(pts, n, 1), n);
    }
}

/// The centroid of a `Polygon<i64>` is the mean of its exterior's x coordinates
/// and the mean of its y coordinates, each divided toward zero; the origin
/// for an empty exterior.
pub proof fn law_centroid_is_vertex_mean_polygon_i64(p: Polygon<i64>)
    requires
        p.centroid_defined(),
    ensures
        p.exterior@.len() == 0 ==> p.centroid_of()[0] == 0 && p.centroid_of()[1] == 0,
        p.exterior@.len() > 0 ==> p.centroid_of()[0] as int == div_toward_zero(
            coordinate_sum(points_i64(p.exterior@), p.exterior@.len() as int, 0),
            p.exterior@.len() as int,
        ),
        p.exterior@.len() > 0 ==> p.centroid_of()[1] as int == div_toward_zero(
            coordinate_sum(points_i64(p.exterior@), p.exterior@.len() as int, 1),
            p.exterior@.len() as int,
        ),
{
    lemma_mean_within_sums(points_i64(p.exterior@));
}

/// The centroid of a `PolygonWithData<i64, W>` is the mean of its exterior's x coordinates
/// and the mean of its y coordinates, each divided toward zero; the origin
/// for an empty exterior.
pub proof fn law_centroid_is_vertex_mean_polygon_with_data_i64<W>(p: PolygonWithData<i64, W>)
    requires
        p.centroid_defined(),
    ensures
        p.exterior@.len() == 0 ==> p.centroid_of()[0] == 0 && p.centroid_of()[1] == 0,
        p.exterior@.len() > 0 ==> p.centroid_of()[0] as int == div_toward_zero(
            coordinate_sum(points_i64(p.exterior@), p.exterior@.len() as int, 0),
            p.exterior@.len() as int,
        ),
        p.exterior@.len() > 0 ==> p.centroid_of()[1] as int == div_toward_zero(
            coordinate_sum(points_i64(p.exterior@), p.exterior@.len() as int, 1),
            p.exterior@.len() as int,
        ),
{
    lemma_mean_within_sums(points_i64(p.exterior@));
}

/// The centroid of a `Polygon<i32>` is the mean of its exterior's x coordinates
/// and the mean of its y coordinates, each divided toward zero; the origin
/// for an empty exterior.
pub proof fn law_centroid_is_vertex_mean_polygon_i32(p: Polygon<i32>)
    requires
        p.centroid_defined(),
    ensures
        p.exterior@.len() == 0 ==> p.centroid_of()[0] == 0 && p.centroid_of()[1] == 0,
        p.exterior@.len() > 0 ==> p.centroid_of()[0] as int == div_toward_zero(
            coordinate_sum(points_i32(p.exterior@), p.exterior@.len() as int, 0),
            p.exterior@.len() as int,
        ),
        p.exterior@.len() > 0 ==> p.centroid_of()[1] as int == div_toward_zero(
            coordinate_sum(points_i32(p.exterior@), p.exterior@.len() as int, 1),
            p.exterior@.len() as int,
        ),
{
    lemma_mean_within_sums(points_i32(p.exterior@));
}

/// The centroid of a `PolygonWithData<i32, W>` is the mean of its exterior's x coordinates
/// and the mean of its y coordinates, each divided toward zero; the origin
/// for an empty exterior.
pub proof fn law_centroid_is_vertex_mean_polygon_with_data_i32<W>(p: PolygonWithData<i32, W>)
    requires
        p.centroid_defined(),
    ensures
        p.exterior@.len() == 0 ==> p.centroid_of()[0] == 0 && p.centroid_of()[1] == 0,
        p.exterior@.len() > 0 ==> p.centroid_of()[0] as int == div_toward_zero(
            coordinate_sum(points_i32(p.exterior@), p.exterior@.len() as int, 0),
            p.exterior@.len() as int,
        ),
        p.exterior@.len() > 0 ==> p.centroid_of()[1] as int == div_toward_zero(
            coordinate_sum(points_i32(p.exterior@), p.exterior@.len() as int, 1),
            p.exterior@.len() as int,
        ),
{
    lemma_mean_within_sums(points_i32(p.exterior@));
}

} // verus!
