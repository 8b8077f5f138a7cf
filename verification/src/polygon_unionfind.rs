//! A union-find whose sets are polygons: each inserted polygon is merged with
//! the intersecting polygons already present.

use vstd::multiset::Multiset;
use vstd::prelude::*;

use rstar::primitives::{GeomWithData, Rectangle};
use rstar::{RTree, AABB};

use crate::bool_ops::{merged_polygon, overlay_of, shape_of, OverlayOperation, Union};
use crate::polygon::{Polygon, PolygonId};
use crate::unionfind::{linked_ranks, UnionFind};

verus! {

/// An `rstar` R-tree of bounding boxes, each tagged with a polygon index.
///
/// The boxes have `i32` corners but are stored with `i128` corners, so that
/// the areas, sums and squared distances the tree computes while it balances
/// itself cannot overflow.
#[verifier::external_body]
#[derive(Debug)]
pub struct BoxTree {
    tree: RTree<GeomWithData<Rectangle<[i128; 2]>, usize>>,
}

/// An R-tree entry as plain values: `(min_x, min_y, max_x, max_y, index)`.
pub type BoxEntry = (i32, i32, i32, i32, usize);

/// A bounding box as plain values: `(min_x, min_y, max_x, max_y)`.
pub type BBox = (i32, i32, i32, i32);

/// The entries an R-tree holds.
pub uninterp spec fn rtree_entries(tree: BoxTree) -> Multiset<(i32, i32, i32, i32, usize)>;

pub open spec fn min_i32(a: i32, b: i32) -> i32 {
    if a <= b {
        a
    } else {
        b
    }
}

pub open spec fn max_i32(a: i32, b: i32) -> i32 {
    if a >= b {
        a
    } else {
        b
    }
}

/// The bounding box of a ring: the smallest box around its vertices, or the
/// inverted box `(MAX, MAX, MIN, MIN)` of an empty ring.
pub open spec fn ring_bbox(ring: Seq<[i32; 2]>) -> BBox
    decreases ring.len(),
{
    if ring.len() == 0 {
        (i32::MAX, i32::MAX, i32::MIN, i32::MIN)
    } else {
        let b = ring_bbox(ring.drop_last());
        let v = ring.last();
        (min_i32(b.0, v[0]), min_i32(b.1, v[1]), max_i32(b.2, v[0]), max_i32(b.3, v[1]))
    }
}

/// Two boxes overlap or touch (inverted boxes intersect nothing ordinary).
pub open spec fn boxes_intersect(a: BBox, b: BBox) -> bool {
    a.0 <= b.2 && a.1 <= b.3 && a.2 >= b.0 && a.3 >= b.1
}

pub open spec fn entry_box(e: BoxEntry) -> BBox {
    (e.0, e.1, e.2, e.3)
}

pub open spec fn entry_of(b: BBox, id: usize) -> BoxEntry {
    (b.0, b.1, b.2, b.3, id)
}

/// A proper box: its lower corner is below and left of its upper corner.
pub open spec fn normal_box(b: BBox) -> bool {
    b.0 <= b.2 && b.1 <= b.3
}

impl Clone for BoxTree {
    /// Calls the derived `Clone` of `RTree`, which copies every entry: the
    /// copy holds the same entries.
    #[verifier::external_body]
    fn clone(&self) -> (res: Self)
        ensures
            rtree_entries(res) == rtree_entries(*self),
    {
        BoxTree { tree: self.tree.clone() }
    }
}

/// Calls `RTree::new`: the new tree holds no entries.
#[verifier::external_body]
fn rtree_new() -> (tree: BoxTree)
    ensures
        rtree_entries(tree) =~= Multiset::empty(),
{
    BoxTree { tree: RTree::new() }
}

/// Calls `RTree::insert` with the rectangle of `AABB::from_points(ring)`,
/// its corners widened to `i128`, tagged with `id`: the tree gains one
/// entry, that box and `id`. The ring must not be empty: the box of no
/// points is inverted, and `AABB::from_corners` would reorder its corners
/// into a box covering the whole plane. With `i32` corners in `i128`, every
/// area, sum of areas and squared distance the tree computes fits.
#[verifier::external_body]
fn rtree_insert(tree: &mut BoxTree, ring: &[[i32; 2]], id: usize)
    requires
        ring@.len() > 0,
    ensures
        rtree_entries(*final(tree)) == rtree_entries(*old(tree)).insert(
            entry_of(ring_bbox(ring@), id),
        ),
{
    let (l, u) = (AABB::from_points(ring.iter()).lower(), AABB::from_points(ring.iter()).upper());
    let aabb = AABB::from_corners([l[0] as i128, l[1] as i128], [u[0] as i128, u[1] as i128]);
    tree.tree.insert(GeomWithData::new(Rectangle::from_aabb(aabb), id));
}

/// Calls `RTree::remove` on the rectangle of `AABB::from_points(ring)`, its
/// corners widened to `i128`, tagged with `id`: one equal entry leaves the
/// tree if there is one, and the result says whether one did. The ring must
/// not be empty, as for insertion.
#[verifier::external_body]
fn rtree_remove(tree: &mut BoxTree, ring: &[[i32; 2]], id: usize) -> (removed: bool)
    requires
        ring@.len() > 0,
    ensures
        removed == rtree_entries(*old(tree)).contains(entry_of(ring_bbox(ring@), id)),
        rtree_entries(*final(tree)) == rtree_entries(*old(tree)).remove(
            entry_of(ring_bbox(ring@), id),
        ),
{
    let (l, u) = (AABB::from_points(ring.iter()).lower(), AABB::from_points(ring.iter()).upper());
    let aabb = AABB::from_corners([l[0] as i128, l[1] as i128], [u[0] as i128, u[1] as i128]);
    tree.tree.remove(&GeomWithData::new(Rectangle::from_aabb(aabb), id)).is_some()
}

/// Calls `RTree::locate_in_envelope_intersecting` with the envelope
/// `AABB::from_points(ring)`, its corners widened to `i128` (the ring must
/// not be empty), and collects the tags of what it yields. The
/// contract claims that every tag comes from an entry whose box intersects
/// that envelope, and that the tag of every such entry is yielded; the order
/// is left open.
#[verifier::external_body]
fn rtree_intersecting_ids(tree: &BoxTree, ring: &[[i32; 2]]) -> (ids: Vec<usize>)
    requires
        ring@.len() > 0,
    ensures
        forall|i: int|
            #![trigger ids@[i]]
            0 <= i < ids@.len() ==> exists|e: BoxEntry|
                #![trigger rtree_entries(*tree).contains(e)]
                rtree_entries(*tree).contains(e) && e.4 == ids@[i] && boxes_intersect(
                    entry_box(e),
                    ring_bbox(ring@),
                ),
        forall|e: BoxEntry|
            #![trigger rtree_entries(*tree).contains(e)]
            rtree_entries(*tree).contains(e) && boxes_intersect(entry_box(e), ring_bbox(ring@))
                ==> ids@.contains(e.4),
{
    let (l, u) = (AABB::from_points(ring.iter()).lower(), AABB::from_points(ring.iter()).upper());
    let aabb = AABB::from_corners([l[0] as i128, l[1] as i128], [u[0] as i128, u[1] as i128]);
    tree.tree.locate_in_envelope_intersecting(aabb).map(|g| g.data).collect()
}

/// Calls `RTree::iter` and lists every entry as plain values, in the tree's
/// own order; the corners, which came from `i32` values, are narrowed back.
#[verifier::external_body]
fn rtree_items(tree: &BoxTree) -> (items: Vec<BoxEntry>)
    ensures
        items@.to_multiset() == rtree_entries(*tree),
{
    let corners = |g: &GeomWithData<Rectangle<[i128; 2]>, usize>| (g.geom().lower(), g.geom().upper(), g.data);
    let narrow = |(l, u, id): ([i128; 2], [i128; 2], usize)| (l[0] as i32, l[1] as i32, u[0] as i32, u[1] as i32, id);
    tree.tree.iter().map(corners).map(narrow).collect()
}


impl BoxTree {
    /// The entries of the tree as plain values, in the tree's own order.
    pub fn entries(&self) -> (res: Vec<BoxEntry>)
        ensures
            res@.to_multiset() == rtree_entries(*self),
    {
        rtree_items(self)
    }
}

pub proof fn lemma_ring_bbox_normal(ring: Seq<[i32; 2]>)
    requires
        ring.len() > 0,
    ensures
        normal_box(ring_bbox(ring)),
    decreases ring.len(),
{
    if ring.len() > 1 {
        lemma_ring_bbox_normal(ring.drop_last());
    } else {
        assert(ring.drop_last() =~= Seq::<[i32; 2]>::empty());
    }
}

/// The two corners of the box `b`.
pub open spec fn box_points(b: BBox) -> Seq<[i32; 2]> {
    seq![[b.0, b.1], [b.2, b.3]]
}

pub proof fn lemma_box_points(b: BBox)
    requires
        normal_box(b),
    ensures
        ring_bbox(box_points(b)) == b,
{
    let s = box_points(b);
    assert(s.drop_last().drop_last() =~= Seq::<[i32; 2]>::empty());
    assert(s.drop_last() =~= seq![[b.0, b.1]]);
    assert(ring_bbox(s.drop_last().drop_last()) == (i32::MAX, i32::MAX, i32::MIN, i32::MIN));
    assert(ring_bbox(s.drop_last()) == (b.0, b.1, b.0, b.1));
}

/// The two corners of a box.
fn box_corners(e: BoxEntry) -> (ring: Vec<[i32; 2]>)
    ensures
        ring@ == box_points(entry_box(e)),
{
    let ring = vec![[e.0, e.1], [e.2, e.3]];
    assert(ring@ =~= box_points(entry_box(e)));
    ring
}

/// Every entry of the tree has a box built from points.
pub open spec fn boxes_normal(m: Multiset<BoxEntry>) -> bool {
    forall|e: BoxEntry| #[trigger] m.contains(e) ==> normal_box(entry_box(e))
}

/// The tree holds an entry tagged `id`.
pub open spec fn has_id(m: Multiset<BoxEntry>, id: usize) -> bool {
    exists|e: BoxEntry| #[trigger] m.contains(e) && e.4 == id
}

/// Removes one entry tagged `id` from the tree, if there is one.
fn remove_box_with_id(tree: &mut BoxTree, id: usize)
    requires
        boxes_normal(rtree_entries(*old(tree))),
    ensures
        !has_id(rtree_entries(*old(tree)), id) ==> rtree_entries(*final(tree)) == rtree_entries(
            *old(tree),
        ),
        has_id(rtree_entries(*old(tree)), id) ==> exists|e: BoxEntry|
            #[trigger] rtree_entries(*old(tree)).contains(e) && e.4 == id && rtree_entries(
                *final(tree),
            ) == rtree_entries(*old(tree)).remove(e),
{
    broadcast use vstd::seq_lib::group_to_multiset_ensures;

    let items = rtree_items(tree);
    for i in 0..items.len()
        invariant
            items@.to_multiset() == rtree_entries(*old(tree)),
            *tree == *old(tree),
            boxes_normal(rtree_entries(*old(tree))),
            forall|j: int| 0 <= j < i ==> (#[trigger] items@[j]).4 != id,
    {
        if items[i].4 == id {
            let e = items[i];
            assert(items@.contains(e));
            proof {
                vstd::seq_lib::to_multiset_contains(items@, e);
            }
            assert(rtree_entries(*old(tree)).contains(e));
            let ring = box_corners(e);
            proof {
                lemma_box_points(entry_box(e));
                assert(entry_of(ring_bbox(ring@), id) == e);
            }
            rtree_remove(tree, ring.as_slice(), id);
            return;
        }
    }
    assert forall|e: BoxEntry| #[trigger] rtree_entries(*old(tree)).contains(e) implies e.4 != id by {
        vstd::seq_lib::to_multiset_contains(items@, e);
        assert(items@.contains(e));
        let j = choose|j: int| 0 <= j < items@.len() && items@[j] == e;
        assert(items@[j].4 != id);
    }
}

/// A polygon as its exterior ring and its interior rings.
pub type PolygonView = (Seq<[i32; 2]>, Seq<Seq<[i32; 2]>>);

/// The entry the R-tree must hold exactly once: a representative's index with
/// the bounding box of its polygon.
pub open spec fn entry_expected(uf: UnionFind, polys: Seq<PolygonView>, e: BoxEntry) -> bool {
    &&& e.4 < polys.len()
    &&& uf.root_of(e.4 as int) == e.4
    &&& entry_box(e) == ring_bbox(polys[e.4 as int].0)
}

/// The R-tree entries are exactly the expected ones, each once.
pub open spec fn boxes_match(m: Multiset<BoxEntry>, uf: UnionFind, polys: Seq<PolygonView>) -> bool {
    forall|e: BoxEntry| #[trigger]
        m.count(e) == if entry_expected(uf, polys, e) {
            1nat
        } else {
            0nat
        }
}

/// The entries of a matching tree have boxes built from points.
pub proof fn lemma_boxes_match_normal(m: Multiset<BoxEntry>, uf: UnionFind, polys: Seq<PolygonView>)
    requires
        boxes_match(m, uf, polys),
        forall|i: int| 0 <= i < polys.len() ==> (#[trigger] polys[i]).0.len() > 0,
    ensures
        boxes_normal(m),
{
    assert forall|e: BoxEntry| #[trigger] m.contains(e) implies normal_box(entry_box(e)) by {
        lemma_ring_bbox_normal(polys[e.4 as int].0);
    }
}

/// In a matching tree, a representative's entry is its only entry.
pub proof fn lemma_boxes_match_unique(
    m: Multiset<BoxEntry>,
    uf: UnionFind,
    polys: Seq<PolygonView>,
    r: usize,
)
    requires
        boxes_match(m, uf, polys),
        r < polys.len(),
        uf.root_of(r as int) == r,
    ensures
        has_id(m, r),
        m.contains(entry_of(ring_bbox(polys[r as int].0), r)),
        forall|e: BoxEntry| #[trigger] m.contains(e) && e.4 == r ==> e == entry_of(ring_bbox(polys[r as int].0), r),
{
    let e0 = entry_of(ring_bbox(polys[r as int].0), r);
    assert(m.count(e0) == 1);
    assert(m.contains(e0) && e0.4 == r);
}

/// Joining the set of root `loser` into root `winner` and storing `merged` at
/// `winner`: the tree matches again once the two old entries leave and the
/// merged polygon's entry comes in.
pub proof fn lemma_merge_boxes(
    m: Multiset<BoxEntry>,
    u0: UnionFind,
    u1: UnionFind,
    p0: Seq<PolygonView>,
    p1: Seq<PolygonView>,
    winner: usize,
    loser: usize,
    merged: PolygonView,
)
    requires
        boxes_match(m, u0, p0),
        winner < p0.len(),
        loser < p0.len(),
        winner != loser,
        u0.root_of(winner as int) == winner,
        u0.root_of(loser as int) == loser,
        forall|z: int|
            0 <= z < p0.len() ==> #[trigger] u1.root_of(z) == if u0.root_of(z) == loser {
                winner as int
            } else {
                u0.root_of(z)
            },
        p1 == p0.update(winner as int, merged),
    ensures
        boxes_match(
            m.remove(entry_of(ring_bbox(p0[loser as int].0), loser)).remove(
                entry_of(ring_bbox(p0[winner as int].0), winner),
            ).insert(entry_of(ring_bbox(merged.0), winner)),
            u1,
            p1,
        ),
{
    let el = entry_of(ring_bbox(p0[loser as int].0), loser);
    let ew = entry_of(ring_bbox(p0[winner as int].0), winner);
    let en = entry_of(ring_bbox(merged.0), winner);
    let m2 = m.remove(el).remove(ew).insert(en);
    assert forall|e: BoxEntry| #[trigger]
        m2.count(e) == if entry_expected(u1, p1, e) {
            1nat
        } else {
            0nat
        } by {
        assert(m.count(e) == if entry_expected(u0, p0, e) {
            1nat
        } else {
            0nat
        });
        if e.4 < p0.len() {
            let z = e.4 as int;
            assert(u1.root_of(z) == if u0.root_of(z) == loser {
                winner as int
            } else {
                u0.root_of(z)
            });
        }
    }
}

/// The representative and its rank after the insertion of a new element `n`
/// (a singleton of rank 0) whose set is joined, in order, with the sets of the
/// old representatives `parts`, whose ranks are `ranks`: each join keeps the
/// root of higher rank, the old representative on a tie, and a tie raises
/// the rank by one.
pub open spec fn merge_winner(ranks: Seq<usize>, n: int, parts: Seq<int>) -> (int, int)
    decreases parts.len(),
{
    if parts.len() == 0 {
        (n, 0)
    } else {
        let prev = merge_winner(ranks, n, parts.drop_last());
        let p = parts.last();
        if ranks[p] >= prev.1 {
            (p, if ranks[p] == prev.1 {
                prev.1 + 1
            } else {
                ranks[p] as int
            })
        } else {
            prev
        }
    }
}

/// The union of two polygons as the overlay engine computes it, if it is a
/// single polygon.
pub open spec fn union_of(a: PolygonView, b: PolygonView) -> Option<PolygonView> {
    merged_polygon(overlay_of(shape_of(a), shape_of(b), OverlayOperation::Union))
}

/// The union of `a` and `b` is a single polygon with a non-empty boundary:
/// the condition on which an insertion merges two sets.
pub open spec fn joinable(a: PolygonView, b: PolygonView) -> bool {
    match union_of(a, b) {
        Some(m) => m.0.len() > 0,
        None => false,
    }
}

/// The union an insertion tries is the engine's union with the polygon
/// merged so far as the subject and the neighbour as the clip, and it
/// merges exactly when that union is one polygon with a boundary.
pub proof fn law_union_of_is_the_engine_union(a: PolygonView, b: PolygonView)
    ensures
        union_of(a, b) == merged_polygon(
            overlay_of(shape_of(a), shape_of(b), OverlayOperation::Union),
        ),
        joinable(a, b) <==> match merged_polygon(
            overlay_of(shape_of(a), shape_of(b), OverlayOperation::Union),
        ) {
            Some(m) => m.0.len() > 0,
            None => false,
        },
{
}

/// Each join keeps the old representative when its rank is at least the
/// rank of the new set's representative, and a tie raises the rank by one;
/// with nothing joined, the new element represents itself with rank 0.
pub proof fn law_merge_winner_breaks_ties_towards_the_old_set(
    ranks: Seq<usize>,
    n: int,
    parts: Seq<int>,
)
    ensures
        parts.len() == 0 ==> merge_winner(ranks, n, parts) == (n, 0int),
        parts.len() > 0 ==> {
            let prev = merge_winner(ranks, n, parts.drop_last());
            let p = parts.last();
            &&& ranks[p] > prev.1 ==> merge_winner(ranks, n, parts) == (p, ranks[p] as int)
            &&& ranks[p] == prev.1 ==> merge_winner(ranks, n, parts) == (p, prev.1 + 1)
            &&& ranks[p] < prev.1 ==> merge_winner(ranks, n, parts) == prev
        },
{
}

/// A matching tree still matches after compression, which keeps every root.
pub proof fn lemma_boxes_match_roots(
    m: Multiset<BoxEntry>,
    u0: UnionFind,
    u1: UnionFind,
    p: Seq<PolygonView>,
)
    requires
        boxes_match(m, u0, p),
        forall|z: int| 0 <= z < p.len() ==> #[trigger] u1.root_of(z) == u0.root_of(z),
    ensures
        boxes_match(m, u1, p),
{
    assert forall|e: BoxEntry| #[trigger]
        m.count(e) == if entry_expected(u1, p, e) {
            1nat
        } else {
            0nat
        } by {
        assert(m.count(e) == if entry_expected(u0, p, e) {
            1nat
        } else {
            0nat
        });
        if e.4 < p.len() {
            assert(u1.root_of(e.4 as int) == u0.root_of(e.4 as int));
        }
    }
}

/// A union-find whose sets are polygons.
///
/// Every set is represented by the union of its polygons, stored at the
/// set's representative index; the R-tree holds the bounding box of every
/// representative polygon.
#[derive(Clone, Debug)]
pub struct PolygonUnionFind<P = Polygon<i32>> {
    polygons: Vec<P>,
    rtree: BoxTree,
    unionfind: UnionFind,
}

impl<P> PolygonUnionFind<P> {
    /// The stored polygons, by index.
    pub closed spec fn polygon_seq(&self) -> Seq<P> {
        self.polygons@
    }

    /// The entries of the R-tree.
    pub closed spec fn boxes(&self) -> Multiset<BoxEntry> {
        rtree_entries(self.rtree)
    }

    /// The union-find over polygon indices.
    pub closed spec fn uf(&self) -> UnionFind {
        self.unionfind
    }

    /// Returns a reference to underlying raw polygon collection.
    pub fn raw_polygons(&self) -> (res: &Vec<P>)
        ensures
            res@ == self.polygon_seq(),
    {
        &self.polygons
    }

    /// Returns a reference to the underlying R-tree.
    pub fn rtree(&self) -> (res: &BoxTree)
        ensures
            rtree_entries(*res) == self.boxes(),
    {
        &self.rtree
    }

    /// Returns a reference to the underlying union-find.
    pub fn unionfind(&self) -> (res: &UnionFind)
        ensures
            *res == self.uf(),
    {
        &self.unionfind
    }

    /// Dissolve the polygon-union-find, returning its internal polygons,
    /// R-tree, and union-find, ceding ownership over them.
    pub fn dissolve(self) -> (res: (Vec<P>, BoxTree, UnionFind))
        ensures
            res.0@ == self.polygon_seq(),
            rtree_entries(res.1) == self.boxes(),
            res.2 == self.uf(),
    {
        (self.polygons, self.rtree, self.unionfind)
    }
}

impl PolygonUnionFind<Polygon<i32>> {
    /// The stored polygons as (exterior, interiors) views, by index.
    pub open spec fn polygons_view(&self) -> Seq<(Seq<[i32; 2]>, Seq<Seq<[i32; 2]>>)> {
        self.polygon_seq().map_values(|p: Polygon<i32>| p@)
    }

    /// Number of inserted polygons.
    pub open spec fn size(&self) -> nat {
        self.polygon_seq().len()
    }

    /// The representative index of the set that holds polygon `i`.
    pub open spec fn root_of(&self, i: int) -> int {
        self.uf().root_of(i)
    }

    /// Polygons `i` and `j` are in the same set.
    pub open spec fn same_set(&self, i: int, j: int) -> bool {
        self.uf().same_set(i, j)
    }

    /// The exterior ring stored at index `i`.
    pub open spec fn exterior_at(&self, i: int) -> Seq<[i32; 2]> {
        self.polygons_view()[i].0
    }

    /// The structure invariant: the R-tree holds exactly the bounding box of
    /// each representative polygon, tagged with its index, and every polygon
    /// has a non-empty boundary.
    pub open spec fn wf(&self) -> bool {
        &&& self.uf().wf()
        &&& self.uf().size() == self.size()
        &&& boxes_match(self.boxes(), self.uf(), self.polygons_view())
        &&& forall|i: int| 0 <= i < self.size() ==> (#[trigger] self.polygons_view()[i]).0.len() > 0
    }

    /// Create an empty `PolygonUnionFind`.
    pub fn new() -> (res: Self)
        ensures
            res.wf(),
            res.size() == 0,
            res.boxes() =~= Multiset::empty(),
    {
        Self { polygons: Vec::new(), rtree: rtree_new(), unionfind: UnionFind::new() }
    }

    /// Remove all polygons and their relations.
    ///
    /// This resets the structure's state to as if it was returned freshly from
    /// [`new()`].
    pub fn clear(&mut self)
        ensures
            final(self).wf(),
            final(self).size() == 0,
            final(self).boxes() =~= Multiset::empty(),
    {
        self.polygons = Vec::new();
        self.rtree = rtree_new();
        self.unionfind = UnionFind::new();
    }

    /// Find the representative polygon for `index` without path compression.
    pub fn find(&self, index: usize) -> (res: &Polygon<i32>)
        requires
            self.wf(),
            index < self.size(),
        ensures
            res@ == self.polygons_view()[self.root_of(index as int)],
    {
        let r = self.unionfind.find(index);
        proof {
            crate::unionfind::lemma_root(self.uf().parents@, self.uf().ranks@, index as int);
        }
        &self.polygons[r]
    }

    /// Find the representative polygon for `index`, applying path compression
    /// along the way.
    pub fn find_compress(&mut self, index: usize) -> (res: &Polygon<i32>)
        requires
            old(self).wf(),
            index < old(self).size(),
        ensures
            final(self).wf(),
            final(self).polygons_view() == old(self).polygons_view(),
            final(self).boxes() == old(self).boxes(),
            final(self).uf().ranks@ == old(self).uf().ranks@,
            final(self).uf().parents@ == crate::unionfind::compressed(
                old(self).uf().parents@,
                old(self).uf().ranks@,
                index as int,
            ),
            forall|z: int| 0 <= z < old(self).size() ==> #[trigger] final(self).root_of(z) == old(self).root_of(z),
            res@ == old(self).polygons_view()[old(self).root_of(index as int)],
    {
        proof {
            crate::unionfind::lemma_root(self.uf().parents@, self.uf().ranks@, index as int);
        }
        let r = self.unionfind.find_compress(index);
        proof {
            assert forall|e: BoxEntry| #[trigger]
                self.boxes().count(e) == if entry_expected(self.uf(), self.polygons_view(), e) {
                    1nat
                } else {
                    0nat
                } by {
                assert(old(self).boxes().count(e) == if entry_expected(old(self).uf(), old(self).polygons_view(), e) {
                    1nat
                } else {
                    0nat
                });
                if e.4 < self.size() {
                    assert(self.root_of(e.4 as int) == old(self).root_of(e.4 as int));
                }
            }
        }
        &self.polygons[r]
    }

    /// Removes the R-tree entry tagged `polygon_id`, if there is one.
    fn remove_polygon_from_rtree(&mut self, polygon_id: usize)
        requires
            boxes_normal(old(self).boxes()),
        ensures
            final(self).polygons == old(self).polygons,
            final(self).unionfind == old(self).unionfind,
            !has_id(old(self).boxes(), polygon_id) ==> final(self).boxes() == old(self).boxes(),
            has_id(old(self).boxes(), polygon_id) ==> exists|e: BoxEntry|
                #[trigger] old(self).boxes().contains(e) && e.4 == polygon_id && final(self).boxes()
                    == old(self).boxes().remove(e),
    {
        remove_box_with_id(&mut self.rtree, polygon_id);
    }

    /// Replaces the R-tree entry tagged `polygon_id` with the bounding box of
    /// `polygon`.
    fn reinsert_polygon_in_rtree(&mut self, polygon_id: usize, polygon: &Polygon<i32>)
        requires
            boxes_normal(old(self).boxes()),
            polygon.exterior@.len() > 0,
        ensures
            final(self).polygons == old(self).polygons,
            final(self).unionfind == old(self).unionfind,
            !has_id(old(self).boxes(), polygon_id) ==> final(self).boxes() == old(self).boxes().insert(
                entry_of(ring_bbox(polygon.exterior@), polygon_id),
            ),
            has_id(old(self).boxes(), polygon_id) ==> exists|e: BoxEntry|
                #[trigger] old(self).boxes().contains(e) && e.4 == polygon_id && final(self).boxes()
                    == old(self).boxes().remove(e).insert(
                    entry_of(ring_bbox(polygon.exterior@), polygon_id),
                ),
    {
        self.remove_polygon_from_rtree(polygon_id);
        rtree_insert(&mut self.rtree, polygon.exterior.as_slice(), polygon_id);
    }

    /// The representative polygons of all sets, in increasing order of their
    /// representative index.
    ///
    /// If several inserted polygons have been merged into one set, only the
    /// representative polygon of that set is listed.
    pub fn polygons(&mut self) -> (res: Vec<&Polygon<i32>>)
        requires
            old(self).wf(),
        ensures
            *final(self) == *old(self),
            res@.len() == old(self).root_indices(old(self).size() as int).len(),
            forall|k: int|
                0 <= k < res@.len() ==> (#[trigger] res@[k])@ == old(self).polygons_view()[old(
                    self,
                ).root_indices(old(self).size() as int)[k] as int],
            // Every set's representative polygon is listed, and only those.
            forall|r: int|
                0 <= r < old(self).size() && old(self).root_of(r) == r ==> exists|k: int|
                    0 <= k < res@.len() && (#[trigger] res@[k])@ == old(self).polygons_view()[r],
            forall|k: int|
                0 <= k < res@.len() ==> old(self).root_of(
                    #[trigger] old(self).root_indices(old(self).size() as int)[k] as int,
                ) == old(self).root_indices(old(self).size() as int)[k] as int,
    {
        let indices = self.polygon_indices();
        proof {
            assert(self.polygons.len() == self.polygons@.len());
            self.lemma_root_indices(self.size() as int);
        }
        let mut res: Vec<&Polygon<i32>> = Vec::new();
        for k in 0..indices.len()
            invariant
                indices@ == self.root_indices(self.size() as int),
                forall|j: int| 0 <= j < indices@.len() ==> (#[trigger] indices@[j]) < self.size(),
                res@.len() == k,
                forall|j: int|
                    0 <= j < k ==> (#[trigger] res@[j])@ == self.polygons_view()[indices@[j] as int],
        {
            res.push(&self.polygons[indices[k]]);
        }
        proof {
            let n = self.size() as int;
            self.law_listing_is_exactly_the_roots(n);
            assert forall|r: int| 0 <= r < n && self.root_of(r) == r implies exists|k: int|
                0 <= k < res@.len() && (#[trigger] res@[k])@ == self.polygons_view()[r] by {
                assert(indices@.contains(r as usize));
                let k = choose|k: int| 0 <= k < indices@.len() && indices@[k] == r as usize;
                assert(res@[k]@ == self.polygons_view()[indices@[k] as int]);
            }
        }
        res
    }

    /// How an insertion of `p` took `self` to `after`, where `p` gets the
    /// index `n == self.size()`.
    ///
    /// `accs` are the polygons merged so far, starting with `p`: each
    /// `accs[k + 1]` is the union of `accs[k]` with the polygon of the old
    /// representative `parts[k]`, whose set is now joined to `p`'s. Every old
    /// representative now in `p`'s set is one of `parts`. Every old
    /// representative whose bounding box meets `p`'s and whose set stayed
    /// apart failed to unite with one of `accs`. The representative of `p`'s
    /// set holds the last of `accs`, and every other member holds its old
    /// polygon (`p` for `n` itself) or one of `accs`. The representative is
    /// the one the joins, in the order of `parts`, leave by rank.
    pub open spec fn merge_record(
        &self,
        after: &Self,
        p: PolygonView,
        accs: Seq<PolygonView>,
        parts: Seq<int>,
    ) -> bool {
        let n = self.size() as int;
        &&& accs.len() == parts.len() + 1
        &&& accs[0] == p
        &&& forall|k: int|
            0 <= k < parts.len() ==> {
                &&& 0 <= #[trigger] parts[k] < n
                &&& self.root_of(parts[k]) == parts[k]
                &&& after.same_set(parts[k], n)
                &&& union_of(accs[k], self.polygons_view()[parts[k]]) == Some(accs[k + 1])
                &&& accs[k + 1].0.len() > 0
            }
        &&& forall|r: int|
            0 <= r < n && self.root_of(r) == r && #[trigger] after.same_set(r, n) ==> parts.contains(r)
        &&& forall|r: int|
            0 <= r < n && self.root_of(r) == r && boxes_intersect(
                ring_bbox(self.exterior_at(r)),
                ring_bbox(p.0),
            ) && !#[trigger] after.same_set(r, n) ==> exists|m: int|
                0 <= m < accs.len() && !joinable(#[trigger] accs[m], self.polygons_view()[r])
        &&& after.polygons_view()[after.root_of(n)] == accs.last()
        &&& after.root_of(n) == merge_winner(self.uf().ranks@, n, parts).0
        &&& forall|i: int|
            0 <= i <= n && #[trigger] after.same_set(i, n) ==> after.polygons_view()[i] == (if i < n {
                self.polygons_view()[i]
            } else {
                p
            }) || exists|m: int| 1 <= m < accs.len() && after.polygons_view()[i] == #[trigger] accs[m]
    }

    /// What an insertion's merge record says, clause by clause: the chain of
    /// unions starts at the inserted polygon and unites it, in order, with
    /// the polygons of representatives now joined to it; every representative
    /// joined is in the chain; a meeting representative left apart failed to
    /// unite with some accumulated polygon; the new set's representative is
    /// the one the joins leave by rank and holds the last union.
    pub proof fn law_merge_record_clauses(
        &self,
        after: &Self,
        p: PolygonView,
        accs: Seq<PolygonView>,
        parts: Seq<int>,
    )
        requires
            self.merge_record(after, p, accs, parts),
        ensures
            accs.len() == parts.len() + 1,
            accs[0] == p,
            forall|k: int|
                0 <= k < parts.len() ==> 0 <= #[trigger] parts[k] < self.size() && self.root_of(
                    parts[k],
                ) == parts[k] && after.same_set(parts[k], self.size() as int) && merged_polygon(
                    overlay_of(
                        shape_of(accs[k]),
                        shape_of(self.polygons_view()[parts[k]]),
                        OverlayOperation::Union,
                    ),
                ) == Some(accs[k + 1]),
            forall|r: int|
                0 <= r < self.size() && self.root_of(r) == r && #[trigger] after.same_set(
                    r,
                    self.size() as int,
                ) ==> parts.contains(r),
            forall|r: int|
                0 <= r < self.size() && self.root_of(r) == r && boxes_intersect(
                    ring_bbox(self.exterior_at(r)),
                    ring_bbox(p.0),
                ) && !#[trigger] after.same_set(r, self.size() as int) ==> exists|m: int|
                    0 <= m < accs.len() && !joinable(#[trigger] accs[m], self.polygons_view()[r]),
            after.polygons_view()[after.root_of(self.size() as int)] == accs.last(),
            after.root_of(self.size() as int) == merge_winner(self.uf().ranks@, self.size() as int, parts).0,
    {
    }

    /// Insert a polygon and merge it with any neighboring polygon.
    ///
    /// Returns the polygon's new id even if it was immediately absorbed by
    /// another polygon. The polygon's boundary must not be empty: the R-tree
    /// holds proper boxes only, and the bounding box of no points is inverted.
    #[verifier::spinoff_prover]
    #[verifier::rlimit(60)]
    pub fn insert(&mut self, polygon: Polygon<i32>) -> (id: PolygonId)
        requires
            old(self).wf(),
            polygon.exterior@.len() > 0,
        ensures
            final(self).wf(),
            id.0 == old(self).size(),
            final(self).size() == old(self).size() + 1,
            // Sets already joined stay joined.
            forall|i: int, j: int|
                0 <= i < old(self).size() && 0 <= j < old(self).size() && old(self).same_set(i, j)
                    ==> #[trigger] final(self).same_set(i, j),
            // The only new joins are into the set of the new polygon.
            forall|i: int, j: int|
                0 <= i < old(self).size() && 0 <= j < old(self).size()
                    && #[trigger] final(self).same_set(i, j) ==> old(self).same_set(i, j)
                    || (final(self).same_set(i, id.0 as int) && final(self).same_set(j, id.0 as int)),
            // Sets not joined to the new polygon keep their representative
            // and their polygons.
            forall|i: int|
                0 <= i < old(self).size() && !#[trigger] final(self).same_set(i, id.0 as int)
                    ==> final(self).root_of(i) == old(self).root_of(i)
                    && final(self).polygons_view()[i] == old(self).polygons_view()[i],
            // Only sets whose representative's bounding box meets the new
            // polygon's bounding box are joined.
            forall|i: int|
                0 <= i < old(self).size() && #[trigger] final(self).same_set(i, id.0 as int)
                    ==> boxes_intersect(
                    ring_bbox(old(self).exterior_at(old(self).root_of(i))),
                    ring_bbox(polygon.exterior@),
                ),
            // With nothing joined, the new polygon is its own representative.
            (forall|i: int| 0 <= i < old(self).size() ==> !#[trigger] final(self).same_set(i, id.0 as int))
                ==> final(self).root_of(id.0 as int) == id.0 && final(self).polygons_view()[id.0 as int]
                == polygon@,
            // The merges, the failed attempts and the stored unions.
            exists|accs: Seq<PolygonView>, parts: Seq<int>|
                old(self).merge_record(&*final(self), polygon@, accs, parts),
    {
        let ghost old_self = *old(self);
        let ghost poly0 = polygon@;
        let new_polygon_index = self.unionfind.new_set();
        rtree_insert(&mut self.rtree, polygon.exterior.as_slice(), new_polygon_index);
        let id = self.polygons.len();
        self.polygons.push(polygon.clone());
        let ghost n = new_polygon_index as int;
        proof {
            assert(self.polygons_view() =~= old_self.polygons_view().push(poly0));
            assert forall|i: int| 0 <= i < self.size() implies (#[trigger] self.polygons_view()[i]).0.len()
                > 0 by {
                if i < n {
                    assert(old_self.polygons_view()[i].0.len() > 0);
                }
            }
            assert forall|e: BoxEntry| #[trigger]
                self.boxes().count(e) == if entry_expected(self.uf(), self.polygons_view(), e) {
                    1nat
                } else {
                    0nat
                } by {
                assert(old_self.boxes().count(e) == if entry_expected(old_self.uf(), old_self.polygons_view(), e) {
                    1nat
                } else {
                    0nat
                });
                if e.4 < n {
                    assert(self.root_of(e.4 as int) == old_self.root_of(e.4 as int));
                }
            }
        }
        let neighbor_ids = rtree_intersecting_ids(&self.rtree, polygon.exterior.as_slice());
        let ghost query = ring_bbox(poly0.0);
        let ghost start = *self;
        proof {
            assert forall|j: int| 0 <= j < neighbor_ids@.len() implies (#[trigger] neighbor_ids@[j]) <= n
                && (neighbor_ids@[j] == n || (old_self.root_of(neighbor_ids@[j] as int) == neighbor_ids@[j]
                && boxes_intersect(ring_bbox(old_self.exterior_at(neighbor_ids@[j] as int)), query))) by {
                let e = choose|e: BoxEntry| #![trigger rtree_entries(start.rtree).contains(e)]
                    rtree_entries(start.rtree).contains(e) && e.4 == neighbor_ids@[j] && boxes_intersect(entry_box(e), query);
                assert(start.boxes().count(e) > 0);
                if e.4 < n {
                    assert(start.root_of(e.4 as int) == old_self.root_of(e.4 as int));
                }
            }
            assert forall|r: int| 0 <= r < n && old_self.root_of(r) == r && boxes_intersect(
                ring_bbox(old_self.exterior_at(r)), query) implies neighbor_ids@.contains(r as usize) by {
                let e = entry_of(ring_bbox(old_self.exterior_at(r)), r as usize);
                assert(start.root_of(r) == old_self.root_of(r));
                assert(start.boxes().count(e) == 1);
                assert(rtree_entries(start.rtree).contains(e));
            }
        }
        let mut polygon = polygon;
        let ghost mut accs: Seq<PolygonView> = seq![poly0];
        let ghost mut parts: Seq<int> = Seq::empty();
        for k in 0..neighbor_ids.len()
            invariant
                self.wf(),
                n == old_self.size(),
                n == new_polygon_index,
                self.size() == n + 1,
                old_self == *old(self),
                query == ring_bbox(poly0.0),
                forall|j: int| 0 <= j < neighbor_ids@.len() ==> (#[trigger] neighbor_ids@[j]) <= n
                    && (neighbor_ids@[j] == n || (old_self.root_of(neighbor_ids@[j] as int) == neighbor_ids@[j]
                    && boxes_intersect(ring_bbox(old_self.exterior_at(neighbor_ids@[j] as int)), query))),
                forall|r: int| 0 <= r < n && old_self.root_of(r) == r && boxes_intersect(
                    ring_bbox(old_self.exterior_at(r)), query) ==> neighbor_ids@.contains(r as usize),
                self.polygons_view()[self.root_of(n)] == polygon@,
                forall|i: int, j: int|
                    0 <= i < n && 0 <= j < n && old_self.same_set(i, j) ==> #[trigger] self.same_set(i, j),
                forall|i: int, j: int|
                    0 <= i < n && 0 <= j < n && #[trigger] self.same_set(i, j) ==> old_self.same_set(i, j)
                        || (self.same_set(i, n) && self.same_set(j, n)),
                forall|i: int|
                    0 <= i < n && !#[trigger] self.same_set(i, n) ==> self.root_of(i) == old_self.root_of(i)
                        && self.polygons_view()[i] == old_self.polygons_view()[i],
                forall|i: int|
                    0 <= i < n && #[trigger] self.same_set(i, n) ==> boxes_intersect(
                        ring_bbox(old_self.exterior_at(old_self.root_of(i))), query),
                forall|j: int|
                    0 <= j < k ==> self.same_set(#[trigger] neighbor_ids@[j] as int, n) || exists|m: int|
                        0 <= m < accs.len() && !joinable(
                            #[trigger] accs[m],
                            old_self.polygons_view()[neighbor_ids@[j] as int],
                        ),
                (forall|i: int| 0 <= i < n ==> !#[trigger] self.same_set(i, n)) ==> self.root_of(n) == n
                    && polygon@ == poly0,
                accs.len() == parts.len() + 1,
                accs[0] == poly0,
                accs.last() == polygon@,
                polygon@.0.len() > 0,
                forall|t: int|
                    0 <= t < parts.len() ==> {
                        &&& 0 <= #[trigger] parts[t] < n
                        &&& old_self.root_of(parts[t]) == parts[t]
                        &&& self.same_set(parts[t], n)
                        &&& union_of(accs[t], old_self.polygons_view()[parts[t]]) == Some(accs[t + 1])
                        &&& accs[t + 1].0.len() > 0
                    },
                forall|r: int|
                    0 <= r < n && old_self.root_of(r) == r && #[trigger] self.same_set(r, n)
                        ==> parts.contains(r),
                self.root_of(n) == merge_winner(old_self.uf().ranks@, n, parts).0,
                self.uf().ranks@[self.root_of(n)] == merge_winner(old_self.uf().ranks@, n, parts).1,
                forall|r: int|
                    0 <= r < n && old_self.root_of(r) == r && !#[trigger] self.same_set(r, n)
                        ==> self.uf().ranks@[r] == old_self.uf().ranks@[r],
                forall|i: int|
                    0 <= i <= n && #[trigger] self.same_set(i, n) ==> self.polygons_view()[i] == (if i < n {
                        old_self.polygons_view()[i]
                    } else {
                        poly0
                    }) || exists|m: int| 1 <= m < accs.len() && self.polygons_view()[i] == #[trigger] accs[m],
        {
            let neighbor_id = neighbor_ids[k];
            let ghost cur = *self;
            proof {
                crate::unionfind::lemma_root(cur.uf().parents@, cur.uf().ranks@, neighbor_id as int);
                crate::unionfind::lemma_root(cur.uf().parents@, cur.uf().ranks@, n);
            }
            let neighbor_representative = self.unionfind.find_compress(neighbor_id);
            let root_of_inserted = self.unionfind.find_compress(new_polygon_index);
            let ghost mid = *self;
            proof {
                lemma_boxes_match_roots(cur.boxes(), cur.uf(), mid.uf(), cur.polygons_view());
                assert forall|z: int| 0 <= z <= n implies #[trigger] mid.root_of(z) == cur.root_of(z) by {}
                assert forall|i: int, j: int| 0 <= i <= n && 0 <= j <= n implies #[trigger] mid.same_set(i, j) == cur.same_set(i, j) by {
                    assert(mid.root_of(i) == cur.root_of(i));
                    assert(mid.root_of(j) == cur.root_of(j));
                }
            }
            if neighbor_representative == root_of_inserted {
                proof {
                    assert(mid.same_set(neighbor_id as int, n));
                    if forall|i: int| 0 <= i < n ==> !#[trigger] mid.same_set(i, n) {
                        assert forall|i: int| 0 <= i < n implies !#[trigger] cur.same_set(i, n) by {
                            assert(mid.same_set(i, n) == cur.same_set(i, n));
                        }
                    }
                }
            } else {
                assert(neighbor_id != n);
                assert(!cur.same_set(neighbor_id as int, n));
                assert(cur.root_of(neighbor_id as int) == old_self.root_of(neighbor_id as int));
                assert(neighbor_representative == neighbor_id);
                let neighbor = self.polygons[neighbor_representative].clone();
                let ghost prev = polygon@;
                let ghost neighbor_view = neighbor@;
                let unioned = Polygon::union(polygon.clone(), neighbor);
                let joins = match &unioned {
                    Some(m) => m.exterior.len() > 0,
                    None => false,
                };
                if joins {
                    let merged = unioned.unwrap();
                    let root_of_neighbor = neighbor_representative;
                    proof {
                        crate::unionfind::lemma_root(mid.uf().parents@, mid.uf().ranks@, neighbor_id as int);
                        crate::unionfind::lemma_root(mid.uf().parents@, mid.uf().ranks@, n);
                    }
                    self.unionfind.union(root_of_neighbor, root_of_inserted);
                    let ghost after_union = self.uf();
                    let representative = self.unionfind.find_compress(new_polygon_index);
                    proof {
                        let rn = root_of_neighbor as int;
                        let ri = root_of_inserted as int;
                        assert(representative as int == mid.uf().union_winner(rn, ri));
                        assert forall|z: int| 0 <= z <= n implies #[trigger] self.root_of(z) == if mid.root_of(z) == rn
                            || mid.root_of(z) == ri {
                            representative as int
                        } else {
                            mid.root_of(z)
                        } by {
                            assert(after_union.root_of(z) == mid.uf().united_root(rn, ri, z));
                        }
                    }
                    polygon = merged;
                    self.polygons[representative] = polygon.clone();
                    let absorbed = if representative == root_of_neighbor {
                        root_of_inserted
                    } else {
                        root_of_neighbor
                    };
                    proof {
                        lemma_boxes_match_normal(mid.boxes(), mid.uf(), mid.polygons_view());
                        lemma_boxes_match_unique(mid.boxes(), mid.uf(), mid.polygons_view(), absorbed);
                        lemma_boxes_match_unique(
                            mid.boxes(),
                            mid.uf(),
                            mid.polygons_view(),
                            representative,
                        );
                    }
                    self.remove_polygon_from_rtree(absorbed);
                    let ghost m1 = self.boxes();
                    proof {
                        assert(m1 == mid.boxes().remove(
                            entry_of(ring_bbox(mid.polygons_view()[absorbed as int].0), absorbed),
                        ));
                        assert(m1.contains(
                            entry_of(
                                ring_bbox(mid.polygons_view()[representative as int].0),
                                representative,
                            ),
                        ));
                        assert forall|e: BoxEntry| #[trigger] m1.contains(e) implies normal_box(
                            entry_box(e),
                        ) by {
                            assert(mid.boxes().contains(e));
                        }
                        assert(has_id(m1, representative));
                    }
                    self.reinsert_polygon_in_rtree(representative, &polygon);
                    proof {
                        assert forall|e: BoxEntry|
                            #[trigger] m1.contains(e) && e.4 == representative implies e == entry_of(
                            ring_bbox(mid.polygons_view()[representative as int].0),
                            representative,
                        ) by {
                            assert(mid.boxes().contains(e));
                        }
                        assert(self.polygons_view() =~= mid.polygons_view().update(
                            representative as int,
                            polygon@,
                        ));
                        lemma_merge_boxes(
                            mid.boxes(),
                            mid.uf(),
                            self.uf(),
                            mid.polygons_view(),
                            self.polygons_view(),
                            representative,
                            absorbed,
                            polygon@,
                        );
                        let rn = root_of_neighbor as int;
                        let ri = root_of_inserted as int;
                        let w = representative as int;
                        assert(self.root_of(n) == w);
                        assert(self.polygons_view()[w] == polygon@);
                        assert(merged_polygon(overlay_of(shape_of(prev), shape_of(neighbor_view), OverlayOperation::Union)) == Some(polygon@));
                        assert forall|i: int, j: int|
                            0 <= i < n && 0 <= j < n && old_self.same_set(i, j) implies #[trigger] self.same_set(i, j) by {
                            assert(cur.same_set(i, j));
                            assert(self.root_of(i) == if mid.root_of(i) == rn || mid.root_of(i) == ri { w } else { mid.root_of(i) });
                            assert(self.root_of(j) == if mid.root_of(j) == rn || mid.root_of(j) == ri { w } else { mid.root_of(j) });
                        }
                        assert forall|i: int, j: int|
                            0 <= i < n && 0 <= j < n && #[trigger] self.same_set(i, j) implies old_self.same_set(i, j)
                                || (self.same_set(i, n) && self.same_set(j, n)) by {
                            assert(self.root_of(i) == if mid.root_of(i) == rn || mid.root_of(i) == ri { w } else { mid.root_of(i) });
                            assert(self.root_of(j) == if mid.root_of(j) == rn || mid.root_of(j) == ri { w } else { mid.root_of(j) });
                            if mid.root_of(i) != rn && mid.root_of(i) != ri {
                                assert(cur.same_set(i, j));
                            }
                        }
                        assert forall|i: int|
                            0 <= i < n && !#[trigger] self.same_set(i, n) implies self.root_of(i) == old_self.root_of(i)
                                && self.polygons_view()[i] == old_self.polygons_view()[i] by {
                            assert(self.root_of(i) == if mid.root_of(i) == rn || mid.root_of(i) == ri { w } else { mid.root_of(i) });
                            assert(!cur.same_set(i, n));
                        }
                        assert forall|i: int|
                            0 <= i < n && #[trigger] self.same_set(i, n) implies boxes_intersect(
                                ring_bbox(old_self.exterior_at(old_self.root_of(i))), query) by {
                            assert(self.root_of(i) == if mid.root_of(i) == rn || mid.root_of(i) == ri { w } else { mid.root_of(i) });
                            if mid.root_of(i) == ri {
                                assert(cur.same_set(i, n));
                            } else {
                                assert(!cur.same_set(i, n));
                                assert(old_self.root_of(i) == rn);
                            }
                        }
                        let old_accs = accs;
                        let old_parts = parts;
                        accs = accs.push(polygon@);
                        parts = parts.push(rn);
                        assert(neighbor_view == old_self.polygons_view()[rn]);
                        assert(parts.drop_last() =~= old_parts);
                        assert(mid.uf().ranks@ == cur.uf().ranks@);
                        assert(old_self.uf().ranks@[rn] == cur.uf().ranks@[rn]);
                        assert(mid.uf().root_of(rn) == rn);
                        assert(mid.uf().root_of(ri) == ri);
                        assert(after_union.ranks@ == self.uf().ranks@);
                        assert(self.uf().ranks@ == linked_ranks(
                            mid.uf().ranks@,
                            mid.uf().union_winner(rn, ri),
                            mid.uf().union_loser(rn, ri),
                        ));
                        let prev_w = merge_winner(old_self.uf().ranks@, n, old_parts);
                        assert(prev_w.0 == ri && prev_w.1 == cur.uf().ranks@[ri]);
                        assert(self.root_of(n) == merge_winner(old_self.uf().ranks@, n, parts).0);
                        crate::unionfind::lemma_rank_bound(mid.uf().ranks@, rn);
                        crate::unionfind::lemma_rank_bound(mid.uf().ranks@, ri);
                        if cur.uf().ranks@[rn] == cur.uf().ranks@[ri] {
                            assert(w == rn);
                            assert(self.uf().ranks@[w] == cur.uf().ranks@[rn] + 1);
                        } else if cur.uf().ranks@[rn] < cur.uf().ranks@[ri] {
                            assert(w == ri);
                            assert(self.uf().ranks@[w] == cur.uf().ranks@[ri]);
                        } else {
                            assert(w == rn);
                            assert(self.uf().ranks@[w] == cur.uf().ranks@[rn]);
                        }
                        assert(self.uf().ranks@[w] == merge_winner(old_self.uf().ranks@, n, parts).1);
                        assert forall|r: int|
                            0 <= r < n && old_self.root_of(r) == r && !#[trigger] self.same_set(r, n)
                                implies self.uf().ranks@[r] == old_self.uf().ranks@[r] by {
                            assert(self.root_of(r) == if mid.root_of(r) == rn || mid.root_of(r) == ri { w } else { mid.root_of(r) });
                            assert(!cur.same_set(r, n));
                            assert(cur.root_of(r) == r);
                            assert(r != rn && r != ri);
                        }
                        assert forall|j: int| 0 <= j < k implies self.same_set(#[trigger] neighbor_ids@[j] as int, n)
                            || exists|m: int|
                                0 <= m < accs.len() && !joinable(
                                    #[trigger] accs[m],
                                    old_self.polygons_view()[neighbor_ids@[j] as int],
                                ) by {
                            let c = neighbor_ids@[j] as int;
                            assert(self.root_of(c) == if mid.root_of(c) == rn || mid.root_of(c) == ri { w } else { mid.root_of(c) });
                            if !cur.same_set(c, n) && !self.same_set(c, n) {
                                let m = choose|m: int|
                                    0 <= m < old_accs.len() && !joinable(
                                        #[trigger] old_accs[m],
                                        old_self.polygons_view()[c],
                                    );
                                assert(accs[m] == old_accs[m]);
                            }
                        }
                        assert(self.same_set(neighbor_id as int, n));
                        assert forall|t: int| 0 <= t < parts.len() implies {
                            &&& 0 <= #[trigger] parts[t] < n
                            &&& old_self.root_of(parts[t]) == parts[t]
                            &&& self.same_set(parts[t], n)
                            &&& union_of(accs[t], old_self.polygons_view()[parts[t]]) == Some(accs[t + 1])
                            &&& accs[t + 1].0.len() > 0
                        } by {
                            if t < old_parts.len() {
                                assert(parts[t] == old_parts[t]);
                                assert(accs[t] == old_accs[t]);
                                assert(accs[t + 1] == old_accs[t + 1]);
                                let c = parts[t];
                                assert(cur.same_set(c, n));
                                assert(self.root_of(c) == if mid.root_of(c) == rn || mid.root_of(c) == ri { w } else { mid.root_of(c) });
                            }
                        }
                        assert forall|r: int|
                            0 <= r < n && old_self.root_of(r) == r && #[trigger] self.same_set(r, n)
                                implies parts.contains(r) by {
                            assert(self.root_of(r) == if mid.root_of(r) == rn || mid.root_of(r) == ri { w } else { mid.root_of(r) });
                            if cur.same_set(r, n) {
                                assert(old_parts.contains(r));
                                let t = choose|t: int| 0 <= t < old_parts.len() && old_parts[t] == r;
                                assert(parts[t] == r);
                            } else {
                                assert(cur.root_of(r) == r);
                                assert(r == rn);
                                assert(parts[old_parts.len() as int] == r);
                            }
                        }
                        assert forall|i: int|
                            0 <= i <= n && #[trigger] self.same_set(i, n) implies self.polygons_view()[i] == (if i < n {
                                old_self.polygons_view()[i]
                            } else {
                                poly0
                            }) || exists|m: int| 1 <= m < accs.len() && self.polygons_view()[i] == #[trigger] accs[m] by {
                            assert(self.root_of(i) == if mid.root_of(i) == rn || mid.root_of(i) == ri { w } else { mid.root_of(i) });
                            if i == w {
                                assert(accs[old_accs.len() as int] == polygon@);
                            } else if cur.same_set(i, n) {
                                if !(self.polygons_view()[i] == (if i < n { old_self.polygons_view()[i] } else { poly0 })) {
                                    let m = choose|m: int| 1 <= m < old_accs.len() && cur.polygons_view()[i] == #[trigger] old_accs[m];
                                    assert(accs[m] == old_accs[m]);
                                }
                            } else {
                                assert(i < n);
                            }
                        }
                    }
                } else {
                    proof {
                        assert(neighbor_view == old_self.polygons_view()[neighbor_id as int]);
                        assert(!joinable(prev, neighbor_view));
                        assert(accs[accs.len() - 1] == prev);
                        if forall|i: int| 0 <= i < n ==> !#[trigger] mid.same_set(i, n) {
                            assert forall|i: int| 0 <= i < n implies !#[trigger] cur.same_set(i, n) by {
                                assert(mid.same_set(i, n) == cur.same_set(i, n));
                            }
                        }
                    }
                }
            }
        }
        proof {
            assert forall|r: int|
                0 <= r < n && old_self.root_of(r) == r && boxes_intersect(
                    ring_bbox(old_self.exterior_at(r)),
                    ring_bbox(poly0.0),
                ) && !#[trigger] self.same_set(r, n) implies exists|m: int|
                    0 <= m < accs.len() && !joinable(#[trigger] accs[m], old_self.polygons_view()[r]) by {
                assert(neighbor_ids@.contains(r as usize));
                let j = choose|j: int| 0 <= j < neighbor_ids@.len() && neighbor_ids@[j] == r as usize;
                assert(!self.same_set(neighbor_ids@[j] as int, n));
            }
            assert(old_self.merge_record(&*self, poly0, accs, parts));
        }
        PolygonId::new(id)
    }

    /// The representative indices among the first `n` indices, in
    /// increasing order.
    pub open spec fn root_indices(&self, n: int) -> Seq<usize>
        decreases n,
    {
        if n <= 0 {
            seq![]
        } else if self.root_of(n - 1) == n - 1 {
            self.root_indices(n - 1).push((n - 1) as usize)
        } else {
            self.root_indices(n - 1)
        }
    }

    /// The representative indices are below `n` and increase strictly.
    pub proof fn lemma_root_indices(&self, n: int)
        requires
            n <= usize::MAX,
        ensures
            forall|k: int| 0 <= k < self.root_indices(n).len() ==> (#[trigger] self.root_indices(n)[k]) < n,
            forall|a: int, b: int|
                0 <= a < b < self.root_indices(n).len() ==> self.root_indices(n)[a] < self.root_indices(n)[b],
        decreases n,
    {
        if n > 0 {
            self.lemma_root_indices(n - 1);
            let prev = self.root_indices(n - 1);
            if self.root_of(n - 1) == n - 1 {
                let cur = prev.push((n - 1) as usize);
                assert(self.root_indices(n) == cur);
                assert forall|k: int| 0 <= k < cur.len() implies (#[trigger] cur[k]) < n by {
                    if k < prev.len() {
                        assert(cur[k] == prev[k]);
                    }
                }
                assert forall|a: int, b: int| 0 <= a < b < cur.len() implies cur[a] < cur[b] by {
                    assert(cur[a] == prev[a]);
                    assert(prev[a] < n - 1);
                    if b < prev.len() {
                        assert(cur[b] == prev[b]);
                    }
                }
            }
        }
    }

    /// The listing of representatives below `n` holds exactly the indices
    /// below `n` that are their own representative.
    pub proof fn law_listing_is_exactly_the_roots(&self, n: int)
        requires
            0 <= n <= usize::MAX,
        ensures
            forall|r: int|
                0 <= r < n ==> (self.root_indices(n).contains(r as usize) <==> self.root_of(r) == r),
            forall|k: int|
                0 <= k < self.root_indices(n).len() ==> self.root_of(
                    #[trigger] self.root_indices(n)[k] as int,
                ) == self.root_indices(n)[k] as int && self.root_indices(n)[k] < n,
        decreases n,
    {
        self.lemma_root_indices(n);
        if n > 0 {
            self.law_listing_is_exactly_the_roots(n - 1);
            let prev = self.root_indices(n - 1);
            let cur = self.root_indices(n);
            self.lemma_root_indices(n - 1);
            assert forall|r: int| 0 <= r < n implies (cur.contains(r as usize) <==> self.root_of(r) == r) by {
                if r < n - 1 {
                    if cur.contains(r as usize) {
                        let k = choose|k: int| 0 <= k < cur.len() && cur[k] == r as usize;
                        if k < prev.len() {
                            assert(prev[k] == cur[k]);
                        }
                    }
                    if prev.contains(r as usize) {
                        let k = choose|k: int| 0 <= k < prev.len() && prev[k] == r as usize;
                        assert(cur[k] == prev[k]);
                    }
                } else {
                    if self.root_of(r) == r {
                        assert(cur[prev.len() as int] == r as usize);
                    } else {
                        assert(cur == prev);
                        if prev.contains(r as usize) {
                            let k = choose|k: int| 0 <= k < prev.len() && prev[k] == r as usize;
                        }
                    }
                }
            }
            assert forall|k: int| 0 <= k < cur.len() implies self.root_of(#[trigger] cur[k] as int)
                == cur[k] as int && cur[k] < n by {
                if k < prev.len() {
                    assert(cur[k] == prev[k]);
                }
            }
        }
    }

    /// The representative indices of all sets, in increasing order.
    pub fn polygon_indices(&mut self) -> (res: Vec<usize>)
        requires
            old(self).wf(),
        ensures
            *final(self) == *old(self),
            res@ == old(self).root_indices(old(self).size() as int),
            forall|r: int|
                0 <= r < old(self).size() ==> (res@.contains(r as usize) <==> old(self).root_of(r)
                    == r),
            forall|k: int| 0 <= k < res@.len() ==> (#[trigger] res@[k]) < old(self).size(),
            forall|a: int, b: int| 0 <= a < b < res@.len() ==> res@[a] < res@[b],
    {
        let mut res: Vec<usize> = Vec::new();
        let n = self.polygons.len();
        for i in 0..n
            invariant
                n == self.size(),
                self.wf(),
                res@ == self.root_indices(i as int),
        {
            let r = self.unionfind.find(i);
            if r == i {
                res.push(i);
            }
        }
        proof {
            self.law_listing_is_exactly_the_roots(n as int);
            self.lemma_root_indices(n as int);
        }
        res
    }
}

} // verus!
