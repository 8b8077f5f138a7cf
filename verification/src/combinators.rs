//! Combinators that wrap polygon collections.

use vstd::prelude::*;

use crate::{Clip, Exclude, Include};

verus! {

/// A collection whose inserted polygons are first inflated by `offset`.
#[derive(Clone, Debug)]
pub struct Inflated<I, K> {
    pub(crate) inflatee: I,
    pub(crate) offset: K,
}

impl<I, K> Inflated<I, K> {
    /// The wrapped collection.
    pub closed spec fn inflatee_value(&self) -> I {
        self.inflatee
    }

    /// The inflation offset.
    pub closed spec fn offset_value(&self) -> K {
        self.offset
    }

    pub fn inflatee(&self) -> (res: &I)
        ensures
            *res == self.inflatee_value(),
    {
        &self.inflatee
    }

    pub fn offset(&self) -> (res: &K)
        ensures
            *res == self.offset_value(),
    {
        &self.offset
    }
}

impl<I: Default, K> Inflated<I, K> {
    /// An inflating wrapper around a default collection.
    pub fn new(offset: K) -> (res: Self)
        ensures
            res.offset_value() == offset,
            call_ensures(I::default, (), res.inflatee_value()),
    {
        Self { inflatee: I::default(), offset }
    }
}

/// A pair of collections: polygons added to the subtrahend are cut out of the
/// minuend.
#[derive(Clone, Debug)]
pub struct Negated<M, S> {
    pub(crate) minuend: M,
    pub(crate) subtrahend: S,
}

impl<M, S> Negated<M, S> {
    /// The collection polygons are cut out of.
    pub closed spec fn minuend_value(&self) -> M {
        self.minuend
    }

    /// The collection of polygons to cut out.
    pub closed spec fn subtrahend_value(&self) -> S {
        self.subtrahend
    }

    pub fn minuend(&self) -> (res: &M)
        ensures
            *res == self.minuend_value(),
    {
        &self.minuend
    }

    pub fn subtrahend(&self) -> (res: &S)
        ensures
            *res == self.subtrahend_value(),
    {
        &self.subtrahend
    }

    pub fn new(minuend: M, subtrahend: S) -> (res: Self)
        ensures
            res.minuend_value() == minuend,
            res.subtrahend_value() == subtrahend,
    {
        Self { minuend, subtrahend }
    }
}

impl<M: Default, S: Default> Default for Negated<M, S> {
    fn default() -> (res: Self)
        ensures
            call_ensures(M::default, (), res.minuend_value()),
            call_ensures(S::default, (), res.subtrahend_value()),
    {
        Self { minuend: M::default(), subtrahend: S::default() }
    }
}

/// A primary collection together with parallel collections that receive the
/// same operations.
#[derive(Clone, Debug)]
pub struct Paralleled<S> {
    pub(crate) primary: S,
    pub(crate) parallels: Vec<S>,
}

impl<S> Paralleled<S> {
    /// The primary collection.
    pub closed spec fn primary_value(&self) -> S {
        self.primary
    }

    /// The parallel collections.
    pub closed spec fn parallels_value(&self) -> Seq<S> {
        self.parallels@
    }

    pub fn primary(&self) -> (res: &S)
        ensures
            *res == self.primary_value(),
    {
        &self.primary
    }

    pub fn parallels(&self) -> (res: &Vec<S>)
        ensures
            res@ == self.parallels_value(),
    {
        &self.parallels
    }

    pub fn new(primary: S, parallels: Vec<S>) -> (res: Self)
        ensures
            res.primary_value() == primary,
            res.parallels_value() == parallels@,
    {
        Self { primary, parallels }
    }
}

/// `after` and `output` are what adding a clone of `polygon` to `before` may
/// give.
pub open spec fn includes_clone<P: Clone, S: Include<P>>(
    before: S,
    polygon: P,
    after: S,
    output: S::Output,
) -> bool {
    exists|c: P| cloned::<P>(polygon, c) && S::includes(&before, c, &after, output)
}

/// `after` and `output` are what cutting a clone of `polygon` out of `before`
/// may give.
pub open spec fn excludes_clone<P: Clone, S: Exclude<P>>(
    before: S,
    polygon: P,
    after: S,
    output: S::Output,
) -> bool {
    exists|c: P| cloned::<P>(polygon, c) && S::excludes(&before, c, &after, output)
}

/// `after` is what clipping `before` by a clone of `polygon` may give, for
/// some output.
pub open spec fn clips_clone<P: Clone, S: Clip<P>>(before: S, polygon: P, after: S) -> bool {
    exists|c: P, o: S::Output| cloned::<P>(polygon, c) && S::clips(&before, c, &after, o)
}

impl<P: Clone, S: Include<P>> Include<P> for Paralleled<S> {
    type Output = (S::Output, Vec<S::Output>);

    /// Every parallel, in order, received a clone of the polygon, then the
    /// primary received the polygon itself; the outputs come back in the same
    /// order, the primary's first.
    open spec fn includes(
        before: &Self,
        polygon: P,
        after: &Self,
        output: (S::Output, Vec<S::Output>),
    ) -> bool {
        &&& after.parallels_value().len() == before.parallels_value().len()
        &&& output.1@.len() == before.parallels_value().len()
        &&& forall|i: int|
            #![trigger after.parallels_value()[i]]
            0 <= i < before.parallels_value().len() ==> includes_clone(
                before.parallels_value()[i],
                polygon,
                after.parallels_value()[i],
                output.1@[i],
            )
        &&& S::includes(&before.primary_value(), polygon, &after.primary_value(), output.0)
    }

    fn include_polygon(&mut self, polygon: P) -> (res: (S::Output, Vec<S::Output>)) {
        let ghost start = *self;
        let mut parallel_outputs = Vec::with_capacity(self.parallels.len());
        let n = self.parallels.len();
        let mut i: usize = 0;
        while i < n
            invariant
                i <= n,
                n == self.parallels.len(),
                n == start.parallels@.len(),
                self.primary == start.primary,
                parallel_outputs.len() == i,
                forall|k: int| i <= k < n ==> #[trigger] self.parallels@[k] == start.parallels@[k],
                forall|k: int|
                    #![trigger self.parallels@[k]]
                    0 <= k < i ==> includes_clone(
                        start.parallels@[k],
                        polygon,
                        self.parallels@[k],
                        parallel_outputs@[k],
                    ),
            decreases n - i,
        {
            let c = polygon.clone();
            let ghost pre_par = self.parallels@;
            let ghost pre_out = parallel_outputs@;
            let out = self.parallels[i].include_polygon(c);
            parallel_outputs.push(out);
            proof {
                assert(S::includes(&pre_par[i as int], c, &self.parallels@[i as int], out));
                assert forall|k: int|
                    #![trigger self.parallels@[k]]
                    0 <= k < i + 1 implies includes_clone(
                        start.parallels@[k],
                        polygon,
                        self.parallels@[k],
                        parallel_outputs@[k],
                    ) by {
                    if k < i {
                        assert(self.parallels@[k] == pre_par[k]);
                        assert(parallel_outputs@[k] == pre_out[k]);
                    } else {
                        assert(cloned::<P>(polygon, c));
                        assert(parallel_outputs@[k] == out);
                    }
                }
            }
            i += 1;
        }
        let primary_output = self.primary.include_polygon(polygon);
        (primary_output, parallel_outputs)
    }
}

impl<P: Clone, S: Exclude<P>> Exclude<P> for Paralleled<S> {
    type Output = (S::Output, Vec<S::Output>);

    /// Every parallel, in order, had a clone of the polygon cut out, then the
    /// primary had the polygon itself cut out; the outputs come back in the
    /// same order, the primary's first.
    open spec fn excludes(
        before: &Self,
        polygon: P,
        after: &Self,
        output: (S::Output, Vec<S::Output>),
    ) -> bool {
        &&& after.parallels_value().len() == before.parallels_value().len()
        &&& output.1@.len() == before.parallels_value().len()
        &&& forall|i: int|
            #![trigger after.parallels_value()[i]]
            0 <= i < before.parallels_value().len() ==> excludes_clone(
                before.parallels_value()[i],
                polygon,
                after.parallels_value()[i],
                output.1@[i],
            )
        &&& S::excludes(&before.primary_value(), polygon, &after.primary_value(), output.0)
    }

    fn exclude(&mut self, polygon: P) -> (res: (S::Output, Vec<S::Output>)) {
        let ghost start = *self;
        let mut parallel_outputs = Vec::with_capacity(self.parallels.len());
        let n = self.parallels.len();
        let mut i: usize = 0;
        while i < n
            invariant
                i <= n,
                n == self.parallels.len(),
                n == start.parallels@.len(),
                self.primary == start.primary,
                parallel_outputs.len() == i,
                forall|k: int| i <= k < n ==> #[trigger] self.parallels@[k] == start.parallels@[k],
                forall|k: int|
                    #![trigger self.parallels@[k]]
                    0 <= k < i ==> excludes_clone(
                        start.parallels@[k],
                        polygon,
                        self.parallels@[k],
                        parallel_outputs@[k],
                    ),
            decreases n - i,
        {
            let c = polygon.clone();
            let ghost pre_par = self.parallels@;
            let ghost pre_out = parallel_outputs@;
            let out = self.parallels[i].exclude(c);
            parallel_outputs.push(out);
            proof {
                assert(S::excludes(&pre_par[i as int], c, &self.parallels@[i as int], out));
                assert forall|k: int|
                    #![trigger self.parallels@[k]]
                    0 <= k < i + 1 implies excludes_clone(
                        start.parallels@[k],
                        polygon,
                        self.parallels@[k],
                        parallel_outputs@[k],
                    ) by {
                    if k < i {
                        assert(self.parallels@[k] == pre_par[k]);
                        assert(parallel_outputs@[k] == pre_out[k]);
                    } else {
                        assert(cloned::<P>(polygon, c));
                        assert(parallel_outputs@[k] == out);
                    }
                }
            }
            i += 1;
        }
        let primary_output = self.primary.exclude(polygon);
        (primary_output, parallel_outputs)
    }
}

impl<P: Clone, S: Clip<P>> Clip<P> for Paralleled<S> {
    type Output = S::Output;

    /// Every parallel, in order, was clipped by a clone of the polygon and
    /// its output dropped, then the primary was clipped by the polygon
    /// itself, whose output is returned.
    open spec fn clips(before: &Self, polygon: P, after: &Self, output: S::Output) -> bool {
        &&& after.parallels_value().len() == before.parallels_value().len()
        &&& forall|i: int|
            #![trigger after.parallels_value()[i]]
            0 <= i < before.parallels_value().len() ==> clips_clone(
                before.parallels_value()[i],
                polygon,
                after.parallels_value()[i],
            )
        &&& S::clips(&before.primary_value(), polygon, &after.primary_value(), output)
    }

    fn clip(&mut self, polygon: P) -> (res: S::Output) {
        let ghost start = *self;
        let n = self.parallels.len();
        let mut i: usize = 0;
        while i < n
            invariant
                i <= n,
                n == self.parallels.len(),
                n == start.parallels@.len(),
                self.primary == start.primary,
                forall|k: int| i <= k < n ==> #[trigger] self.parallels@[k] == start.parallels@[k],
                forall|k: int|
                    #![trigger self.parallels@[k]]
                    0 <= k < i ==> clips_clone(
                        start.parallels@[k],
                        polygon,
                        self.parallels@[k],
                    ),
            decreases n - i,
        {
            let c = polygon.clone();
            let ghost pre_par = self.parallels@;
            let out = self.parallels[i].clip(c);
            proof {
                assert(S::clips(&pre_par[i as int], c, &self.parallels@[i as int], out));
                assert forall|k: int|
                    #![trigger self.parallels@[k]]
                    0 <= k < i + 1 implies clips_clone(
                        start.parallels@[k],
                        polygon,
                        self.parallels@[k],
                    ) by {
                    if k < i {
                        assert(self.parallels@[k] == pre_par[k]);
                    } else {
                        assert(cloned::<P>(polygon, c));
                        assert(S::clips(&start.parallels@[k], c, &self.parallels@[k], out));
                    }
                }
            }
            i += 1;
        }
        self.primary.clip(polygon)
    }
}

} // verus!
