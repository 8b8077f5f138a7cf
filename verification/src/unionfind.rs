//! Disjoint-set union with union by rank and path compression.

use vstd::prelude::*;
use vstd::set_lib::*;

verus! {

/// Every parent index is in range and ranks grow strictly along parent links.
pub open spec fn forest_wf(p: Seq<usize>, r: Seq<usize>) -> bool {
    &&& p.len() == r.len()
    &&& forall|i: int| 0 <= i < p.len() ==> (#[trigger] p[i] as int) < p.len()
    &&& forall|i: int|
        0 <= i < p.len() && p[i] as int != i ==> r[i] < r[#[trigger] p[i] as int]
}

/// Every rank below the rank of a node is the rank of some other node.
pub open spec fn ranks_witnessed(r: Seq<usize>) -> bool {
    forall|i: int, k: int| 0 <= i < r.len() && 0 <= k < r[i] ==> #[trigger] rank_held_elsewhere(r, i, k)
}

/// Some node other than `i` has rank `k`.
pub open spec fn rank_held_elsewhere(r: Seq<usize>, i: int, k: int) -> bool {
    exists|j: int| 0 <= j < r.len() && j != i && #[trigger] r[j] == k
}

/// The representative (root) reached from `x` by following parent links.
pub open spec fn root(p: Seq<usize>, r: Seq<usize>, x: int) -> int
    decreases usize::MAX - r[x],
{
    if 0 <= x < p.len() && x < r.len() && p[x] as int != x && (p[x] as int) < r.len() && r[x]
        < r[p[x] as int] {
        root(p, r, p[x] as int)
    } else {
        x
    }
}

/// `z` lies on the path from `x` to its root (both ends included).
pub open spec fn on_path(p: Seq<usize>, r: Seq<usize>, x: int, z: int) -> bool
    decreases usize::MAX - r[x],
{
    if z == x {
        true
    } else if 0 <= x < p.len() && x < r.len() && p[x] as int != x && (p[x] as int) < r.len()
        && r[x] < r[p[x] as int] {
        on_path(p, r, p[x] as int, z)
    } else {
        false
    }
}

/// The parent links after compressing the path from `x`: every node on that
/// path points directly at the root.
pub open spec fn compressed(p: Seq<usize>, r: Seq<usize>, x: int) -> Seq<usize> {
    Seq::new(p.len(), |z: int| if on_path(p, r, x, z) { root(p, r, x) as usize } else { p[z] })
}

pub proof fn lemma_root(p: Seq<usize>, r: Seq<usize>, x: int)
    requires
        forest_wf(p, r),
        0 <= x < p.len(),
    ensures
        0 <= root(p, r, x) < p.len(),
        p[root(p, r, x)] as int == root(p, r, x),
        r[x] <= r[root(p, r, x)],
        p[x] as int != x ==> r[x] < r[root(p, r, x)],
        p[x] as int != x ==> root(p, r, x) == root(p, r, p[x] as int),
        p[x] as int == x ==> root(p, r, x) == x,
        root(p, r, root(p, r, x)) == root(p, r, x),
        on_path(p, r, x, root(p, r, x)),
    decreases usize::MAX - r[x],
{
    if p[x] as int != x {
        lemma_root(p, r, p[x] as int);
    }
}

/// Nodes on the path from `x` share its root and rank at least as high.
pub proof fn lemma_on_path(p: Seq<usize>, r: Seq<usize>, x: int, z: int)
    requires
        forest_wf(p, r),
        0 <= x < p.len(),
        on_path(p, r, x, z),
    ensures
        0 <= z < p.len(),
        r[x] <= r[z],
        root(p, r, z) == root(p, r, x),
    decreases usize::MAX - r[x],
{
    if z != x {
        lemma_on_path(p, r, p[x] as int, z);
        lemma_root(p, r, x);
    }
}

/// If every new parent link is either the old link or the old root, then no
/// node's root changes.
pub proof fn lemma_roots_kept(p: Seq<usize>, q: Seq<usize>, r: Seq<usize>, z: int)
    requires
        forest_wf(p, r),
        forest_wf(q, r),
        p.len() == q.len(),
        forall|i: int|
            0 <= i < p.len() ==> #[trigger] q[i] == p[i] || q[i] as int == root(p, r, i),
        0 <= z < p.len(),
    ensures
        root(q, r, z) == root(p, r, z),
    decreases usize::MAX - r[z],
{
    lemma_root(p, r, z);
    if q[z] as int != z {
        let w = q[z] as int;
        lemma_roots_kept(p, q, r, w);
        if q[z] == p[z] {
        } else {
            lemma_root(p, r, z);
        }
    }
}

/// A node's rank is below the number of nodes.
pub proof fn lemma_rank_bound(r: Seq<usize>, i: int)
    requires
        ranks_witnessed(r),
        0 <= i < r.len(),
    ensures
        r[i] < r.len(),
{
    let n = r.len() as int;
    let idx = set_int_range(0, n);
    let f = |j: int| r[j] as int;
    let img = idx.map(f);
    lemma_int_range(0, n);
    lemma_map_size_bound(idx, img, f);
    let k = r[i] as int;
    assert forall|v: int| #[trigger] set_int_range(0, k + 1).contains(v) implies img.contains(v) by {
        if v == k {
            assert(idx.contains(i) && f(i) == v);
        } else {
            assert(rank_held_elsewhere(r, i, v));
            let j = choose|j: int| 0 <= j < r.len() && j != i && #[trigger] r[j] == v;
            assert(idx.contains(j) && f(j) == v);
        }
    }
    lemma_int_range(0, k + 1);
    lemma_len_subset(set_int_range(0, k + 1), img);
}


/// The elements whose root is `x`.
pub open spec fn members(p: Seq<usize>, r: Seq<usize>, x: int) -> Set<int> {
    Set::new(|i: int| 0 <= i < p.len() && root(p, r, i) == x)
}

/// Every root of rank `k` heads at least `2^k` elements.
pub open spec fn size_law(p: Seq<usize>, r: Seq<usize>) -> bool {
    forall|x: int|
        0 <= x < p.len() && root(p, r, x) == x ==> (#[trigger] members(p, r, x)).len()
            >= vstd::arithmetic::power2::pow2(r[x] as nat)
}

/// The members of a root are finitely many.
pub proof fn lemma_members_finite(p: Seq<usize>, r: Seq<usize>, x: int)
    ensures
        members(p, r, x).finite(),
        members(p, r, x).len() <= p.len(),
{
    lemma_int_range(0, p.len() as int);
    lemma_len_subset(members(p, r, x), set_int_range(0, p.len() as int));
}

/// Forests with the same roots and ranks obey the size law alike.
pub proof fn lemma_size_law_same_roots(p: Seq<usize>, q: Seq<usize>, r: Seq<usize>)
    requires
        p.len() == q.len(),
        forall|z: int| 0 <= z < p.len() ==> root(q, r, z) == root(p, r, z),
        size_law(p, r),
    ensures
        size_law(q, r),
{
    assert forall|x: int| 0 <= x < q.len() && root(q, r, x) == x implies (#[trigger] members(
        q,
        r,
        x,
    )).len() >= vstd::arithmetic::power2::pow2(r[x] as nat) by {
        assert(members(q, r, x) =~= members(p, r, x));
        assert(root(p, r, x) == x);
    }
}

/// Singletons obey the size law.
pub proof fn lemma_size_law_singletons(p: Seq<usize>, r: Seq<usize>)
    requires
        p.len() == r.len(),
        forall|z: int| 0 <= z < p.len() ==> p[z] as int == z && r[z] == 0,
    ensures
        size_law(p, r),
{
    vstd::arithmetic::power2::lemma2_to64();
    assert forall|x: int| 0 <= x < p.len() && root(p, r, x) == x implies (#[trigger] members(
        p,
        r,
        x,
    )).len() >= vstd::arithmetic::power2::pow2(r[x] as nat) by {
        assert forall|i: int| 0 <= i < p.len() implies root(p, r, i) == i by {}
        assert(members(p, r, x) =~= set![x]);
    }
}

/// Appending a singleton keeps the size law.
pub proof fn lemma_size_law_extend(p: Seq<usize>, r: Seq<usize>, n: usize)
    requires
        forest_wf(p, r),
        n == p.len(),
        size_law(p, r),
    ensures
        size_law(p.push(n), r.push(0)),
{
    let p1 = p.push(n);
    let r1 = r.push(0);
    vstd::arithmetic::power2::lemma2_to64();
    assert(root(p1, r1, n as int) == n);
    assert forall|x: int| 0 <= x < p1.len() && root(p1, r1, x) == x implies (#[trigger] members(
        p1,
        r1,
        x,
    )).len() >= vstd::arithmetic::power2::pow2(r1[x] as nat) by {
        if x == n {
            assert forall|i: int| 0 <= i < p1.len() && root(p1, r1, i) == x implies i == x by {
                if i < n {
                    lemma_roots_extend(p, r, n, i);
                    lemma_root(p, r, i);
                }
            }
            assert(members(p1, r1, x) =~= set![x]);
        } else {
            lemma_roots_extend(p, r, n, x);
            assert forall|i: int| #[trigger] members(p1, r1, x).contains(i) == members(p, r, x).contains(i) by {
                if 0 <= i < n {
                    lemma_roots_extend(p, r, n, i);
                }
            }
            assert(members(p1, r1, x) =~= members(p, r, x));
            assert(r1[x] == r[x]);
        }
    }
}

/// The links after joining root `b` under root `a` (by rank).
pub open spec fn linked_parents(p: Seq<usize>, a: int, b: int) -> Seq<usize> {
    p.update(b, a as usize)
}

/// The ranks after joining root `b` under root `a`: `a` grows by one when the
/// two ranks were equal.
pub open spec fn linked_ranks(r: Seq<usize>, a: int, b: int) -> Seq<usize> {
    if r[a] == r[b] {
        r.update(a, (r[a] + 1) as usize)
    } else {
        r
    }
}

pub proof fn lemma_compressed(p: Seq<usize>, r: Seq<usize>, x: int)
    requires
        forest_wf(p, r),
        0 <= x < p.len(),
    ensures
        forest_wf(compressed(p, r, x), r),
        forall|z: int| 0 <= z < p.len() ==> root(compressed(p, r, x), r, z) == root(p, r, z),
{
    let c = compressed(p, r, x);
    lemma_root(p, r, x);
    assert forall|z: int| 0 <= z < p.len() implies #[trigger] c[z] == p[z] || c[z] as int == root(
        p,
        r,
        z,
    ) by {
        if on_path(p, r, x, z) {
            lemma_on_path(p, r, x, z);
        }
    }
    assert forall|z: int| 0 <= z < c.len() implies (#[trigger] c[z] as int) < c.len() by {
        lemma_root(p, r, z);
    }
    assert forall|z: int| 0 <= z < c.len() && c[z] as int != z implies r[z] < r[
        #[trigger] c[z] as int] by {
        lemma_root(p, r, z);
    }
    assert forall|z: int| 0 <= z < p.len() implies root(c, r, z) == root(p, r, z) by {
        lemma_roots_kept(p, c, r, z);
    }
}

/// Roots of old nodes do not change when a fresh singleton node is appended.
pub proof fn lemma_roots_extend(p: Seq<usize>, r: Seq<usize>, n: usize, z: int)
    requires
        forest_wf(p, r),
        n == p.len(),
        0 <= z < p.len(),
    ensures
        root(p.push(n), r.push(0), z) == root(p, r, z),
    decreases usize::MAX - r[z],
{
    if p[z] as int != z {
        lemma_roots_extend(p, r, n, p[z] as int);
    }
}

pub proof fn lemma_link(p: Seq<usize>, r: Seq<usize>, a: int, b: int)
    requires
        forest_wf(p, r),
        ranks_witnessed(r),
        0 <= a < p.len(),
        0 <= b < p.len(),
        a != b,
        p[a] as int == a,
        p[b] as int == b,
        r[b] <= r[a],
        r[a] < usize::MAX,
    ensures
        forest_wf(linked_parents(p, a, b), linked_ranks(r, a, b)),
        ranks_witnessed(linked_ranks(r, a, b)),
        forall|z: int|
            0 <= z < p.len() ==> #[trigger] root(linked_parents(p, a, b), linked_ranks(r, a, b), z)
                == if root(p, r, z) == b {
                a
            } else {
                root(p, r, z)
            },
{
    let q = linked_parents(p, a, b);
    let r2 = linked_ranks(r, a, b);
    assert forall|i: int| 0 <= i < q.len() && q[i] as int != i implies r2[i] < r2[
        #[trigger] q[i] as int] by {
    }
    assert forall|i: int, k: int| 0 <= i < r2.len() && 0 <= k < r2[i] implies #[trigger] rank_held_elsewhere(r2, i, k) by {
        if r[a] == r[b] {
            if i == a {
                if k == r[a] {
                    assert(r2[b] == k);
                } else {
                    assert(rank_held_elsewhere(r, i, k));
                    let j = choose|j: int| 0 <= j < r.len() && j != i && #[trigger] r[j] == k;
                    assert(r2[j] == k);
                }
            } else {
                assert(rank_held_elsewhere(r, i, k));
                    let j = choose|j: int| 0 <= j < r.len() && j != i && #[trigger] r[j] == k;
                if j == a {
                    assert(r2[b] == k);
                } else {
                    assert(r2[j] == k);
                }
            }
        } else {
            assert(rank_held_elsewhere(r, i, k));
                    let j = choose|j: int| 0 <= j < r.len() && j != i && #[trigger] r[j] == k;
            assert(r2[j] == k);
        }
    }
    assert forall|z: int| 0 <= z < p.len() implies #[trigger] root(q, r2, z) == if root(p, r, z)
        == b {
        a
    } else {
        root(p, r, z)
    } by {
        lemma_link_root(p, r, a, b, z);
    }
}

/// Joining root `b` under root `a` by rank keeps the size law: `a` then
/// heads both sets, and its rank grows only when the two ranks were equal.
pub proof fn lemma_size_law_link(p: Seq<usize>, r: Seq<usize>, a: int, b: int)
    requires
        forest_wf(p, r),
        ranks_witnessed(r),
        0 <= a < p.len(),
        0 <= b < p.len(),
        a != b,
        p[a] as int == a,
        p[b] as int == b,
        r[b] <= r[a],
        r[a] < usize::MAX,
        size_law(p, r),
    ensures
        size_law(linked_parents(p, a, b), linked_ranks(r, a, b)),
{
    let q = linked_parents(p, a, b);
    let s = linked_ranks(r, a, b);
    lemma_link(p, r, a, b);
    assert(root(p, r, a) == a);
    assert(root(p, r, b) == b);
    assert forall|x: int| 0 <= x < q.len() && root(q, s, x) == x implies (#[trigger] members(
        q,
        s,
        x,
    )).len() >= vstd::arithmetic::power2::pow2(s[x] as nat) by {
        assert(root(q, s, x) == if root(p, r, x) == b { a } else { root(p, r, x) });
        if x == a {
            let ma = members(p, r, a);
            let mb = members(p, r, b);
            assert forall|i: int| #[trigger] members(q, s, a).contains(i) == (ma + mb).contains(i) by {
                if 0 <= i < p.len() {
                    assert(root(q, s, i) == if root(p, r, i) == b { a } else { root(p, r, i) });
                }
            }
            assert(members(q, s, a) =~= ma + mb);
            lemma_members_finite(p, r, a);
            lemma_members_finite(p, r, b);
            assert(ma.disjoint(mb));
            vstd::set_lib::lemma_set_disjoint_lens(ma, mb);
            assert(ma.len() >= vstd::arithmetic::power2::pow2(r[a] as nat));
            assert(mb.len() >= vstd::arithmetic::power2::pow2(r[b] as nat));
            if r[a] == r[b] {
                vstd::arithmetic::power2::lemma_pow2_unfold((r[a] + 1) as nat);
                assert(s[a] == r[a] + 1);
            }
        } else {
            assert(root(p, r, x) == x);
            assert(x != b);
            assert forall|i: int| #[trigger] members(q, s, x).contains(i) == members(p, r, x).contains(i) by {
                if 0 <= i < p.len() {
                    assert(root(q, s, i) == if root(p, r, i) == b { a } else { root(p, r, i) });
                }
            }
            assert(members(q, s, x) =~= members(p, r, x));
            assert(s[x] == r[x]);
        }
    }
}

proof fn lemma_link_root(p: Seq<usize>, r: Seq<usize>, a: int, b: int, z: int)
    requires
        forest_wf(p, r),
        forest_wf(linked_parents(p, a, b), linked_ranks(r, a, b)),
        0 <= a < p.len(),
        0 <= b < p.len(),
        a != b,
        p[a] as int == a,
        p[b] as int == b,
        0 <= z < p.len(),
    ensures
        root(linked_parents(p, a, b), linked_ranks(r, a, b), z) == if root(p, r, z) == b {
            a
        } else {
            root(p, r, z)
        },
    decreases usize::MAX - r[z],
{
    let q = linked_parents(p, a, b);
    let r2 = linked_ranks(r, a, b);
    lemma_root(p, r, z);
    if z == b {
        assert(root(q, r2, a) == a);
    } else if p[z] as int != z {
        lemma_link_root(p, r, a, b, p[z] as int);
    }
}

/// Disjoint-set union data structure, also known as Union-Find.
#[derive(Clone, Debug)]
pub struct UnionFind<PC = Vec<usize>, RC = PC> {
    /// `parents[i]` is the parent of node `i`.
    pub parents: PC,
    /// `ranks[i]` is the upper bound of tree height for node `i`.
    pub ranks: RC,
}

impl<PC, RC> UnionFind<PC, RC> {
    /// Create a new `UnionFind` from given parent and rank collections.
    pub fn from_parents_ranks(parents: PC, ranks: RC) -> (uf: Self)
        ensures
            uf.parents == parents,
            uf.ranks == ranks,
    {
        Self { parents, ranks }
    }

    /// Dissolve the union-find, returning its parent and rank collections,
    /// ceding ownership over them.
    pub fn dissolve(self) -> (res: (PC, RC))
        ensures
            res.0 == self.parents,
            res.1 == self.ranks,
    {
        (self.parents, self.ranks)
    }
}

impl UnionFind<Vec<usize>, Vec<usize>> {
    /// The structure invariant: a forest whose ranks grow towards the roots.
    pub open spec fn wf(&self) -> bool {
        &&& forest_wf(self.parents@, self.ranks@)
        &&& ranks_witnessed(self.ranks@)
    }

    /// Every root of rank `k` heads at least `2^k` elements.
    pub open spec fn size_law(&self) -> bool {
        size_law(self.parents@, self.ranks@)
    }

    /// Number of elements.
    pub open spec fn size(&self) -> nat {
        self.parents@.len()
    }

    /// The representative of the set that holds `x`.
    pub open spec fn root_of(&self, x: int) -> int {
        root(self.parents@, self.ranks@, x)
    }

    /// `x` and `y` are in the same set.
    pub open spec fn same_set(&self, x: int, y: int) -> bool {
        self.root_of(x) == self.root_of(y)
    }

    /// The root that survives when the sets of `x` and `y` are joined: the one
    /// of higher rank, or the root of `x` on a tie.
    pub open spec fn union_winner(&self, x: int, y: int) -> int {
        let rx = self.root_of(x);
        let ry = self.root_of(y);
        if self.ranks@[rx] < self.ranks@[ry] {
            ry
        } else {
            rx
        }
    }

    /// The root that is linked below the winner when the sets are joined.
    pub open spec fn union_loser(&self, x: int, y: int) -> int {
        let rx = self.root_of(x);
        let ry = self.root_of(y);
        if self.ranks@[rx] < self.ranks@[ry] {
            rx
        } else {
            ry
        }
    }

    /// The representative of `z` after the sets of `x` and `y` are joined.
    pub open spec fn united_root(&self, x: int, y: int, z: int) -> int {
        let rz = self.root_of(z);
        if self.root_of(x) != self.root_of(y) && (rz == self.root_of(x) || rz == self.root_of(y)) {
            self.union_winner(x, y)
        } else {
            rz
        }
    }

    /// Create a new `UnionFind` with `len` elements (0..len), each in a set
    /// of its own.
    pub fn with_len(len: usize) -> (uf: Self)
        ensures
            uf.wf(),
            uf.size_law(),
            uf.parents@ == Seq::new(len as nat, |i: int| i as usize),
            uf.ranks@ == Seq::new(len as nat, |i: int| 0usize),
            forall|x: int| 0 <= x < len ==> #[trigger] uf.root_of(x) == x,
    {
        let mut parents: Vec<usize> = Vec::new();
        let mut ranks: Vec<usize> = Vec::new();
        for i in 0..len
            invariant
                parents@.len() == i,
                ranks@.len() == i,
                forall|j: int| 0 <= j < i ==> #[trigger] parents@[j] == j as usize,
                forall|j: int| 0 <= j < i ==> #[trigger] ranks@[j] == 0usize,
        {
            parents.push(i);
            ranks.push(0);
        }
        let uf = Self::from_parents_ranks(parents, ranks);
        assert(uf.parents@ == Seq::new(len as nat, |i: int| i as usize));
        assert(uf.ranks@ == Seq::new(len as nat, |i: int| 0usize));
        proof {
            lemma_size_law_singletons(uf.parents@, uf.ranks@);
        }
        uf
    }

    /// Create an empty `UnionFind`.
    pub fn new() -> (uf: Self)
        ensures
            uf.wf(),
            uf.size() == 0,
            uf.size_law(),
    {
        Self::from_parents_ranks(Vec::new(), Vec::new())
    }

    /// Add a new element in a set of its own and return its index.
    pub fn new_set(&mut self) -> (res: usize)
        ensures
            res == old(self).ranks@.len(),
            final(self).parents@ == old(self).parents@.push(res),
            final(self).ranks@ == old(self).ranks@.push(0),
            old(self).wf() ==> final(self).wf() && res == old(self).size() && final(self).root_of(
                res as int,
            ) == res,
            old(self).wf() ==> forall|z: int|
                0 <= z < old(self).size() ==> !#[trigger] final(self).same_set(z, res as int),
            old(self).wf() ==> forall|z: int|
                0 <= z < old(self).size() ==> #[trigger] final(self).root_of(z) == old(self).root_of(
                    z,
                ),
            old(self).wf() && old(self).size_law() ==> final(self).size_law(),
    {
        let new_set_index = self.ranks.len();
        self.ranks.push(0);
        self.parents.push(new_set_index);
        proof {
            if old(self).wf() {
                let p = old(self).parents@;
                let r = old(self).ranks@;
                if old(self).size_law() {
                    lemma_size_law_extend(p, r, new_set_index);
                }
                assert forall|z: int| 0 <= z < p.len() implies #[trigger] root(
                    p.push(new_set_index),
                    r.push(0),
                    z,
                ) == root(p, r, z) by {
                    lemma_roots_extend(p, r, new_set_index, z);
                }
                assert(self.root_of(new_set_index as int) == new_set_index);
                assert forall|z: int| 0 <= z < p.len() implies !#[trigger] self.same_set(
                    z,
                    new_set_index as int,
                ) by {
                    lemma_root(p, r, z);
                    assert(self.root_of(z) == root(p, r, z));
                }
                assert forall|i: int, k: int|
                    0 <= i < r.push(0).len() && 0 <= k < r.push(0)[i] implies #[trigger] rank_held_elsewhere(r.push(0), i, k) by {
                    assert(rank_held_elsewhere(r, i, k));
                    let j = choose|j: int| 0 <= j < r.len() && j != i && #[trigger] r[j] == k;
                    assert(r.push(0)[j] == k);
                }
            }
        }
        new_set_index
    }

    /// Find the representative of `x`, performing path compression along the
    /// way.
    pub fn find_compress(&mut self, x: usize) -> (res: usize)
        requires
            old(self).wf(),
            x < old(self).size(),
        ensures
            final(self).wf(),
            final(self).size() == old(self).size(),
            res == old(self).root_of(x as int),
            final(self).ranks@ == old(self).ranks@,
            final(self).parents@ == compressed(old(self).parents@, old(self).ranks@, x as int),
            forall|z: int|
                0 <= z < old(self).size() ==> #[trigger] final(self).root_of(z) == old(self).root_of(
                    z,
                ),
            old(self).size_law() ==> final(self).size_law(),
        decreases usize::MAX - old(self).ranks@[x as int],
    {
        let ghost p0 = self.parents@;
        let ghost r = self.ranks@;
        proof {
            lemma_root(p0, r, x as int);
            lemma_compressed(p0, r, x as int);
        }
        if self.parents[x] != x {
            let p = self.parents[x];
            let parent = self.find_compress(p);
            self.parents[x] = parent;
            proof {
                assert forall|z: int| 0 <= z < p0.len() implies #[trigger] on_path(p0, r, x as int, z)
                    == (z == x || on_path(p0, r, p as int, z)) by {}
                assert(self.parents@ =~= compressed(p0, r, x as int));
            }
        } else {
            proof {
                assert forall|z: int| 0 <= z < p0.len() implies #[trigger] on_path(p0, r, x as int, z)
                    == (z == x) by {}
                assert(self.parents@ =~= compressed(p0, r, x as int));
            }
        }
        proof {
            if old(self).size_law() {
                lemma_size_law_same_roots(p0, self.parents@, r);
            }
        }
        self.parents[x]
    }

    /// Find the representative of `x` without path compression.
    pub fn find(&self, x: usize) -> (res: usize)
        requires
            self.wf(),
            x < self.size(),
        ensures
            res == self.root_of(x as int),
        decreases usize::MAX - self.ranks@[x as int],
    {
        proof {
            lemma_root(self.parents@, self.ranks@, x as int);
        }
        if self.parents[x] != x {
            return self.find(self.parents[x]);
        }
        self.parents[x]
    }

    /// Unionize the sets containing `x` and `y`, minimizing the rank.
    ///
    /// Returns true if merged, false if already in the same set.
    pub fn union(&mut self, x: usize, y: usize) -> (res: bool)
        requires
            old(self).wf(),
            x < old(self).size(),
            y < old(self).size(),
        ensures
            final(self).wf(),
            final(self).size() == old(self).size(),
            res == !old(self).same_set(x as int, y as int),
            forall|z: int|
                0 <= z < old(self).size() ==> #[trigger] final(self).root_of(z)
                    == old(self).united_root(x as int, y as int, z),
            final(self).parents@ == ({
                let p2 = compressed(
                    compressed(old(self).parents@, old(self).ranks@, x as int),
                    old(self).ranks@,
                    y as int,
                );
                if res {
                    linked_parents(
                        p2,
                        old(self).union_winner(x as int, y as int),
                        old(self).union_loser(x as int, y as int),
                    )
                } else {
                    p2
                }
            }),
            final(self).ranks@ == if res {
                linked_ranks(
                    old(self).ranks@,
                    old(self).union_winner(x as int, y as int),
                    old(self).union_loser(x as int, y as int),
                )
            } else {
                old(self).ranks@
            },
            old(self).size_law() ==> final(self).size_law(),
    {
        let ghost old_uf = *self;
        let mut x_representative = self.find_compress(x);
        let mut y_representative = self.find_compress(y);
        let ghost mid = *self;
        proof {
            lemma_root(old_uf.parents@, old_uf.ranks@, x as int);
            lemma_root(old_uf.parents@, old_uf.ranks@, y as int);
        }

        if x_representative == y_representative {
            return false;  // Already connected.
        }
        // Perform union by rank.

        if self.ranks[x_representative] < self.ranks[y_representative] {
            std::mem::swap(&mut x_representative, &mut y_representative);
        }
        proof {
            lemma_root(mid.parents@, mid.ranks@, x as int);
            lemma_root(mid.parents@, mid.ranks@, y as int);
            assert(mid.root_of(x as int) == old_uf.root_of(x as int));
            assert(mid.root_of(y as int) == old_uf.root_of(y as int));
            lemma_rank_bound(mid.ranks@, x_representative as int);
            assert(mid.ranks.len() == mid.ranks@.len());
            lemma_link(
                mid.parents@,
                mid.ranks@,
                x_representative as int,
                y_representative as int,
            );
            if old_uf.size_law() {
                lemma_size_law_link(
                    mid.parents@,
                    mid.ranks@,
                    x_representative as int,
                    y_representative as int,
                );
            }
        }
        self.parents[y_representative] = x_representative;

        if self.ranks[x_representative] == self.ranks[y_representative] {
            let rank = self.ranks[x_representative];
            self.ranks[x_representative] = rank + 1;
        }
        proof {
            assert(self.parents@ =~= linked_parents(
                mid.parents@,
                x_representative as int,
                y_representative as int,
            ));
            assert(self.ranks@ =~= linked_ranks(
                mid.ranks@,
                x_representative as int,
                y_representative as int,
            ));
            assert forall|z: int| 0 <= z < old_uf.size() implies #[trigger] self.root_of(z)
                == old_uf.united_root(x as int, y as int, z) by {
                assert(mid.root_of(z) == old_uf.root_of(z));
                assert(root(
                    linked_parents(mid.parents@, x_representative as int, y_representative as int),
                    linked_ranks(mid.ranks@, x_representative as int, y_representative as int),
                    z,
                ) == if mid.root_of(z) == y_representative {
                    x_representative as int
                } else {
                    mid.root_of(z)
                });
            }
        }
        true
    }

    /// Check if `x` and `y` are in the same set.
    pub fn connected(&mut self, x: usize, y: usize) -> (res: bool)
        requires
            old(self).wf(),
            x < old(self).size(),
            y < old(self).size(),
        ensures
            final(self).wf(),
            final(self).size() == old(self).size(),
            res == old(self).same_set(x as int, y as int),
            final(self).ranks@ == old(self).ranks@,
            final(self).parents@ == compressed(
                compressed(old(self).parents@, old(self).ranks@, x as int),
                old(self).ranks@,
                y as int,
            ),
            forall|z: int|
                0 <= z < old(self).size() ==> #[trigger] final(self).root_of(z) == old(self).root_of(
                    z,
                ),
            old(self).size_law() ==> final(self).size_law(),
    {
        self.find_compress(x) == self.find_compress(y)
    }
}


/// Being in the same set is an equivalence relation.
pub proof fn lemma_same_set_equivalence(uf: UnionFind, x: int, y: int, z: int)
    ensures
        uf.same_set(x, x),
        uf.same_set(x, y) ==> uf.same_set(y, x),
        uf.same_set(x, y) && uf.same_set(y, z) ==> uf.same_set(x, z),
{
}

/// After joining the sets of `x` and `y`, the two are in the same set.
pub proof fn lemma_union_connects(uf: UnionFind, x: int, y: int)
    ensures
        uf.united_root(x, y, x) == uf.united_root(x, y, y),
{
}

/// Joining the sets of `x` and `y` merges exactly those two sets: two
/// elements end up together iff they were together before, or each was with
/// `x` or with `y`.
pub proof fn lemma_union_partition(uf: UnionFind, x: int, y: int, i: int, j: int)
    requires
        uf.wf(),
        0 <= x < uf.size(),
        0 <= y < uf.size(),
        0 <= i < uf.size(),
        0 <= j < uf.size(),
    ensures
        (uf.united_root(x, y, i) == uf.united_root(x, y, j)) <==> (uf.same_set(i, j) || (
        (uf.same_set(i, x) || uf.same_set(i, y)) && (uf.same_set(j, x) || uf.same_set(j, y)))),
{
    let p = uf.parents@;
    let r = uf.ranks@;
    lemma_root(p, r, x);
    lemma_root(p, r, y);
    lemma_root(p, r, i);
    lemma_root(p, r, j);
}

/// A second union of the same two elements reports that they were already
/// connected and changes no representative.
pub proof fn lemma_union_idempotent(a: UnionFind, b: UnionFind, x: int, y: int)
    requires
        a.wf(),
        b.wf(),
        b.size() == a.size(),
        0 <= x < a.size(),
        0 <= y < a.size(),
        forall|z: int| 0 <= z < a.size() ==> #[trigger] b.root_of(z) == a.united_root(x, y, z),
    ensures
        b.same_set(x, y),
        forall|z: int| 0 <= z < b.size() ==> #[trigger] b.united_root(x, y, z) == b.root_of(z),
{
    assert(b.root_of(x) == a.united_root(x, y, x));
    assert(b.root_of(y) == a.united_root(x, y, y));
}

} // verus!
