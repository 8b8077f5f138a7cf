//! A disjoint-set (union-find) data structure whose sets are polygons.
//!
//! Upon insertion, each polygon is merged with every intersecting polygon that
//! is already present. Candidates are filtered spatially by keeping the
//! bounding box of every representative polygon in an R-tree.

pub mod bool_ops;
pub mod combinators;
pub mod hull;
pub mod layers_with_transitions;
pub mod polygon;
pub mod polygon_unionfind;
pub mod unionfind;
pub mod wide_coordinates;

pub use bool_ops::{Difference, Intersection, Union};
pub use combinators::{Inflated, Negated, Paralleled};
pub use layers_with_transitions::LayersWithTransitions;
pub use polygon::{Centroid, Polygon, PolygonId, PolygonWithData, Rings};
pub use polygon_unionfind::PolygonUnionFind;
pub use unionfind::UnionFind;

use vstd::prelude::*;

verus! {

/// A collection that a polygon can be added to.
pub trait Include<P> {
    type Output;

    /// Whether adding `polygon` may take the collection from `before` to
    /// `after` and answer `output`; an implementation that does not define it
    /// promises nothing.
    open spec fn includes(before: &Self, polygon: P, after: &Self, output: Self::Output) -> bool {
        true
    }

    fn include_polygon(&mut self, polygon: P) -> (output: Self::Output)
        ensures
            Self::includes(&*old(self), polygon, &*final(self), output),
    ;
}

/// A collection that a polygon can be cut out of.
pub trait Exclude<P> {
    type Output;

    /// Whether cutting `polygon` out may take the collection from `before` to
    /// `after` and answer `output`; an implementation that does not define it
    /// promises nothing.
    open spec fn excludes(before: &Self, polygon: P, after: &Self, output: Self::Output) -> bool {
        true
    }

    fn exclude(&mut self, polygon: P) -> (output: Self::Output)
        ensures
            Self::excludes(&*old(self), polygon, &*final(self), output),
    ;
}

/// A collection that can be clipped by a polygon.
pub trait Clip<P> {
    type Output;

    /// Whether clipping by `polygon` may take the collection from `before` to
    /// `after` and answer `output`; an implementation that does not define it
    /// promises nothing.
    open spec fn clips(before: &Self, polygon: P, after: &Self, output: Self::Output) -> bool {
        true
    }

    fn clip(&mut self, polygon: P) -> (output: Self::Output)
        ensures
            Self::clips(&*old(self), polygon, &*final(self), output),
    ;
}

} // verus!
