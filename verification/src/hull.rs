//! The monotone-chain convex hull of a set of integer points.

use vstd::prelude::*;

verus! {

/// Lexicographic order on points: by x, then by y.
pub open spec fn lex_le(a: [i32; 2], b: [i32; 2]) -> bool {
    a[0] < b[0] || (a[0] == b[0] && a[1] <= b[1])
}

/// The points are in lexicographic order.
pub open spec fn lex_sorted(s: Seq<[i32; 2]>) -> bool {
    forall|i: int, j: int| 0 <= i <= j < s.len() ==> lex_le(#[trigger] s[i], #[trigger] s[j])
}

/// The points are in descending lexicographic order.
pub open spec fn lex_sorted_desc(s: Seq<[i32; 2]>) -> bool {
    forall|i: int, j: int| 0 <= i <= j < s.len() ==> lex_le(#[trigger] s[j], #[trigger] s[i])
}

/// Twice the signed area of the triangle `o`, `a`, `b`: positive when the
/// turn `o -> a -> b` is counter-clockwise.
pub open spec fn cross(o: [i32; 2], a: [i32; 2], b: [i32; 2]) -> int {
    (a[0] - o[0]) * (b[1] - o[1]) - (a[1] - o[1]) * (b[0] - o[0])
}

/// The cross product of three points and both its products fit in `i64`.
pub open spec fn cross_fits(o: [i32; 2], a: [i32; 2], b: [i32; 2]) -> bool {
    let p = (a[0] - o[0]) * (b[1] - o[1]);
    let q = (a[1] - o[1]) * (b[0] - o[0]);
    &&& i64::MIN <= p <= i64::MAX
    &&& i64::MIN <= q <= i64::MAX
    &&& i64::MIN <= p - q <= i64::MAX
}

/// Every consecutive triple turns strictly counter-clockwise.
pub open spec fn left_turns(s: Seq<[i32; 2]>) -> bool {
    forall|i: int| 0 <= i < s.len() - 2 ==> cross(#[trigger] s[i], s[i + 1], s[i + 2]) > 0
}

/// Every point of `s` is one of `points`.
pub open spec fn drawn_from(s: Seq<[i32; 2]>, points: Seq<[i32; 2]>) -> bool {
    forall|i: int| 0 <= i < s.len() ==> points.contains(#[trigger] s[i])
}

/// `p` is lexicographically no greater than any of `points`.
pub open spec fn is_lex_min(p: [i32; 2], points: Seq<[i32; 2]>) -> bool {
    points.contains(p) && forall|i: int| 0 <= i < points.len() ==> lex_le(p, #[trigger] points[i])
}

/// `p` is lexicographically no smaller than any of `points`.
pub open spec fn is_lex_max(p: [i32; 2], points: Seq<[i32; 2]>) -> bool {
    points.contains(p) && forall|i: int| 0 <= i < points.len() ==> lex_le(#[trigger] points[i], p)
}

/// `q` lies on or to the left of the edge from `s[k]` to `s[k + 1]`.
pub open spec fn left_of_edge(s: Seq<[i32; 2]>, k: int, q: [i32; 2]) -> bool {
    cross(s[k], s[k + 1], q) >= 0
}

/// `q` lies on or to the left of every edge of the chain `s`.
pub open spec fn left_of_chain(s: Seq<[i32; 2]>, q: [i32; 2]) -> bool {
    forall|k: int| 0 <= k < s.len() - 1 ==> #[trigger] left_of_edge(s, k, q)
}

/// `a` comes no later than `b` in the walking direction: ascending
/// lexicographic order when `fwd`, descending otherwise.
spec fn before(fwd: bool, a: [i32; 2], b: [i32; 2]) -> bool {
    if fwd {
        lex_le(a, b)
    } else {
        lex_le(b, a)
    }
}

/// The chain is ordered in the walking direction.
spec fn sorted_dir(fwd: bool, s: Seq<[i32; 2]>) -> bool {
    forall|i: int, j: int| 0 <= i <= j < s.len() ==> before(fwd, #[trigger] s[i], #[trigger] s[j])
}

spec fn same_point(a: [i32; 2], b: [i32; 2]) -> bool {
    a[0] == b[0] && a[1] == b[1]
}

/// Counter-clockwise order of directions is transitive among directions
/// that point into the same closed half-plane `x >= 0` (ties on `x == 0`
/// broken towards positive `y`), provided the middle one is not zero.
proof fn lemma_turn_transitive(ux: int, uy: int, vx: int, vy: int, wx: int, wy: int)
    requires
        ux > 0 || (ux == 0 && uy >= 0),
        vx > 0 || (vx == 0 && vy > 0),
        wx > 0 || (wx == 0 && wy >= 0),
        ux * vy - uy * vx >= 0,
        vx * wy - vy * wx >= 0,
    ensures
        ux * wy - uy * wx >= 0,
{
    if vx > 0 {
        assert(vx * (ux * wy - uy * wx) == ux * (vx * wy - vy * wx) + wx * (ux * vy - uy * vx))
            by (nonlinear_arith);
        assert(ux * (vx * wy - vy * wx) >= 0) by (nonlinear_arith)
            requires
                ux >= 0,
                vx * wy - vy * wx >= 0,
        ;
        assert(wx * (ux * vy - uy * vx) >= 0) by (nonlinear_arith)
            requires
                wx >= 0,
                ux * vy - uy * vx >= 0,
        ;
        assert(ux * wy - uy * wx >= 0) by (nonlinear_arith)
            requires
                vx > 0,
                vx * (ux * wy - uy * wx) >= 0,
        ;
    } else {
        assert(wx <= 0) by (nonlinear_arith)
            requires
                vy > 0,
                0 * wy - vy * wx >= 0,
        ;
        assert(ux * wy >= 0) by (nonlinear_arith)
            requires
                ux >= 0,
                wy >= 0,
        ;
    }
}

/// Negating both vectors leaves their cross product unchanged.
proof fn lemma_det_negate(ux: int, uy: int, vx: int, vy: int)
    ensures
        (-ux) * (-vy) - (-uy) * (-vx) == ux * vy - uy * vx,
{
    assert((-ux) * (-vy) == ux * vy) by (nonlinear_arith);
    assert((-uy) * (-vx) == uy * vx) by (nonlinear_arith);
}

/// Transitivity of turns for three directions out of one walking order:
/// the directions are `u = e - d`, `v = g - f`, `w = i - h`, each taken
/// with the sign of the walking direction.
proof fn lemma_turn_transitive_dir(
    fwd: bool,
    d: [i32; 2],
    e: [i32; 2],
    f: [i32; 2],
    g: [i32; 2],
    h: [i32; 2],
    i: [i32; 2],
)
    requires
        before(fwd, d, e),
        before(fwd, f, g),
        !same_point(f, g),
        before(fwd, h, i),
        (e[0] - d[0]) * (g[1] - f[1]) - (e[1] - d[1]) * (g[0] - f[0]) >= 0,
        (g[0] - f[0]) * (i[1] - h[1]) - (g[1] - f[1]) * (i[0] - h[0]) >= 0,
    ensures
        (e[0] - d[0]) * (i[1] - h[1]) - (e[1] - d[1]) * (i[0] - h[0]) >= 0,
{
    let ux = e[0] - d[0];
    let uy = e[1] - d[1];
    let vx = g[0] - f[0];
    let vy = g[1] - f[1];
    let wx = i[0] - h[0];
    let wy = i[1] - h[1];
    if fwd {
        lemma_turn_transitive(ux, uy, vx, vy, wx, wy);
    } else {
        lemma_det_negate(ux, uy, vx, vy);
        lemma_det_negate(vx, vy, wx, wy);
        lemma_det_negate(ux, uy, wx, wy);
        lemma_turn_transitive(-ux, -uy, -vx, -vy, -wx, -wy);
    }
}

fn lex_le_exec(a: [i32; 2], b: [i32; 2]) -> (res: bool)
    ensures
        res == lex_le(a, b),
{
    a[0] < b[0] || (a[0] == b[0] && a[1] <= b[1])
}

fn cross_exec(o: [i32; 2], a: [i32; 2], b: [i32; 2]) -> (res: i64)
    requires
        cross_fits(o, a, b),
    ensures
        res == cross(o, a, b),
{
    (a[0] as i64 - o[0] as i64) * (b[1] as i64 - o[1] as i64) - (a[1] as i64 - o[1] as i64) * (
    b[0] as i64 - o[0] as i64)
}

/// The points in lexicographic order.
pub fn lex_sort(points: &[[i32; 2]]) -> (res: Vec<[i32; 2]>)
    ensures
        lex_sorted(res@),
        res@.to_multiset() == points@.to_multiset(),
{
    broadcast use vstd::seq_lib::group_to_multiset_ensures;

    let mut res: Vec<[i32; 2]> = Vec::new();
    for k in 0..points.len()
        invariant
            lex_sorted(res@),
            res@.to_multiset() == points@.subrange(0, k as int).to_multiset(),
    {
        let p = points[k];
        let mut pos: usize = 0;
        while pos < res.len() && lex_le_exec(res[pos], p)
            invariant
                pos <= res@.len(),
                forall|i: int| 0 <= i < pos ==> lex_le(#[trigger] res@[i], p),
            decreases res@.len() - pos,
        {
            pos += 1;
        }
        let ghost before = res@;
        res.insert(pos, p);
        assert(points@.subrange(0, k + 1) =~= points@.subrange(0, k as int).push(p));
        assert(res@ =~= before.insert(pos as int, p));
        proof {
            vstd::seq_lib::to_multiset_insert(before, pos as int, p);
            vstd::seq_lib::to_multiset_build(points@.subrange(0, k as int), p);
            assert(points@.subrange(0, k as int).push(p).to_multiset() == points@.subrange(
                0,
                k as int,
            ).to_multiset().insert(p));
        }
        assert forall|i: int, j: int| 0 <= i <= j < res@.len() implies lex_le(
            #[trigger] res@[i],
            #[trigger] res@[j],
        ) by {
            if i < pos && j > pos {
                assert(lex_le(before[i], p));
                assert(!lex_le(before[pos as int], p));
                assert(lex_le(before[pos as int], before[j - 1]));
            } else if i == pos && j > pos {
                assert(!lex_le(before[pos as int], p));
                assert(lex_le(before[pos as int], before[j - 1]));
            } else if i < pos && j == pos {
                assert(lex_le(before[i], p));
            } else if i > pos {
                assert(lex_le(before[i - 1], before[j - 1]));
            }
        }
    }
    assert(points@.subrange(0, points@.len() as int) =~= points@);
    res
}


/// All cross products of the given points fit in `i64`.
pub open spec fn crosses_fit(points: Seq<[i32; 2]>) -> bool {
    forall|o: [i32; 2], a: [i32; 2], b: [i32; 2]|
        #![trigger points.contains(o), points.contains(a), points.contains(b)]
        points.contains(o) && points.contains(a) && points.contains(b) ==> cross_fits(o, a, b)
}

/// The cross product vanishes when its last point coincides with one of the
/// first two.
proof fn lemma_cross_degenerate(o: [i32; 2], a: [i32; 2], b: [i32; 2])
    requires
        same_point(o, b) || same_point(a, b) || same_point(o, a),
    ensures
        cross(o, a, b) == 0,
{
    let (ax, ay, bx, by) = (a[0] - o[0], a[1] - o[1], b[0] - o[0], b[1] - o[1]);
    if same_point(o, b) {
        assert(ax * by - ay * bx == 0) by (nonlinear_arith)
            requires
                bx == 0,
                by == 0,
        ;
    } else if same_point(a, b) {
        assert(ax * by - ay * bx == 0) by (nonlinear_arith)
            requires
                ax == bx,
                ay == by,
        ;
    } else {
        assert(ax * by - ay * bx == 0) by (nonlinear_arith)
            requires
                ax == 0,
                ay == 0,
        ;
    }
}

/// Popping `b` (which `p` does not pass strictly to the left of) keeps every
/// point between `a` and `b` to the left of the new edge `a -> p`.
proof fn lemma_popped_below(fwd: bool, a: [i32; 2], b: [i32; 2], q: [i32; 2], p: [i32; 2])
    requires
        before(fwd, a, q),
        before(fwd, q, b),
        before(fwd, b, p),
        cross(a, b, q) >= 0,
        cross(a, b, p) <= 0,
    ensures
        cross(a, p, q) >= 0,
{
    if same_point(a, b) {
        lemma_cross_degenerate(a, p, q);
    } else {
        let (px, py, bx, by) = (p[0] - a[0], p[1] - a[1], b[0] - a[0], b[1] - a[1]);
        assert(px * by - py * bx == -(bx * py - by * px)) by (nonlinear_arith);
        lemma_turn_transitive_dir(fwd, a, p, a, b, a, q);
    }
}

/// A point beyond the popped `b` that lies to the left of `b -> p` also lies
/// to the left of the new edge `a -> p`.
proof fn lemma_popped_above(fwd: bool, a: [i32; 2], b: [i32; 2], q: [i32; 2], p: [i32; 2])
    requires
        before(fwd, a, b),
        before(fwd, b, q),
        before(fwd, q, p),
        cross(b, p, q) >= 0,
        cross(a, b, p) <= 0,
    ensures
        cross(a, p, q) >= 0,
{
    if same_point(b, p) {
        lemma_cross_degenerate(a, p, q);
    } else {
        let (ax, ay, bx, by, qx, qy) = (
            a[0] - p[0],
            a[1] - p[1],
            b[0] - p[0],
            b[1] - p[1],
            q[0] - p[0],
            q[1] - p[1],
        );
        // cross(b, p, q), cross(a, p, b) and cross(a, p, q) in coordinates
        // relative to `p`.
        assert((-qx) * (-by) - (-qy) * (-bx) == (-bx) * (qy - by) - (-by) * (qx - bx))
            by (nonlinear_arith);
        assert((-bx) * (-ay) - (-by) * (-ax) == -((bx - ax) * (-ay) - (by - ay) * (-ax)))
            by (nonlinear_arith);
        assert((-qx) * (-ay) - (-qy) * (-ax) == (-ax) * (qy - ay) - (-ay) * (qx - ax))
            by (nonlinear_arith);
        lemma_turn_transitive_dir(fwd, q, p, b, p, a, p);
    }
}

/// A point before the corner `a` that lies to the left of the edge `c -> a`
/// also lies to the left of `a -> p` when the chain turns left at `a`.
proof fn lemma_before_corner(fwd: bool, c: [i32; 2], a: [i32; 2], q: [i32; 2], p: [i32; 2])
    requires
        before(fwd, c, a),
        !same_point(c, a),
        before(fwd, q, a),
        before(fwd, a, p),
        cross(c, a, q) >= 0,
        cross(c, a, p) > 0,
    ensures
        cross(a, p, q) >= 0,
{
    let (cx, cy, qx, qy, px, py) = (
        c[0] - a[0],
        c[1] - a[1],
        q[0] - a[0],
        q[1] - a[1],
        p[0] - a[0],
        p[1] - a[1],
    );
    assert((-qx) * (-cy) - (-qy) * (-cx) == (-cx) * (qy - cy) - (-cy) * (qx - cx))
        by (nonlinear_arith);
    assert((-cx) * py - (-cy) * px == (-cx) * (py - cy) - (-cy) * (px - cx)) by (nonlinear_arith);
    assert((-qx) * py - (-qy) * px == px * qy - py * qx) by (nonlinear_arith);
    lemma_turn_transitive_dir(fwd, q, a, c, a, a, p);
}

/// A point to the left of the edge `c1 -> c2` lies to the left of the edge
/// `c0 -> c1` before it when the chain turns left at `c1`.
proof fn lemma_left_turn_extends(fwd: bool, c0: [i32; 2], c1: [i32; 2], c2: [i32; 2], p: [i32; 2])
    requires
        before(fwd, c0, c1),
        before(fwd, c1, c2),
        before(fwd, c2, p),
        cross(c0, c1, c2) > 0,
        cross(c1, c2, p) >= 0,
    ensures
        cross(c0, c1, p) >= 0,
{
    if same_point(c1, c2) {
        lemma_cross_degenerate(c0, c1, c2);
    }
    let (ux, uy, vx, vy, wx, wy) = (
        c1[0] - c0[0],
        c1[1] - c0[1],
        c2[0] - c1[0],
        c2[1] - c1[1],
        p[0] - c1[0],
        p[1] - c1[1],
    );
    assert(ux * (vy + uy) - uy * (vx + ux) == ux * vy - uy * vx) by (nonlinear_arith);
    assert(ux * (wy + uy) - uy * (wx + ux) == ux * wy - uy * wx) by (nonlinear_arith);
    lemma_turn_transitive_dir(fwd, c0, c1, c1, c2, c1, p);
}

/// A point beyond the end of a chain that turns left everywhere, and that
/// lies to the left of its last edge, lies to the left of every edge.
proof fn lemma_left_of_convex_chain(fwd: bool, s: Seq<[i32; 2]>, p: [i32; 2], k: int)
    requires
        0 <= k <= s.len() - 2,
        left_turns(s),
        sorted_dir(fwd, s),
        before(fwd, s.last(), p),
        cross(s[s.len() - 2], s.last(), p) >= 0,
    ensures
        forall|m: int| k <= m < s.len() - 1 ==> #[trigger] left_of_edge(s, m, p),
    decreases s.len() - k,
{
    if k < s.len() - 2 {
        lemma_left_of_convex_chain(fwd, s, p, k + 1);
        assert(before(fwd, s[k + 2], s.last()));
        assert(before(fwd, s[k], s[k + 1]));
        assert(before(fwd, s[k + 1], s[k + 2]));
        assert(cross(s[k], s[k + 1], s[k + 2]) > 0);
        assert(left_of_edge(s, k + 1, p));
        lemma_left_turn_extends(fwd, s[k], s[k + 1], s[k + 2], p);
    }
}

/// Every point of `done` lies to the left of every edge of `l`.
spec fn all_left_of_chain(l: Seq<[i32; 2]>, done: Seq<[i32; 2]>) -> bool {
    forall|j: int| 0 <= j < done.len() ==> left_of_chain(l, #[trigger] done[j])
}

/// Every point of `done` that comes no earlier than the end of `l` lies to
/// the left of the segment from that end to `p`.
spec fn tail_covered(fwd: bool, l: Seq<[i32; 2]>, done: Seq<[i32; 2]>, p: [i32; 2]) -> bool {
    l.len() >= 1 ==> forall|j: int|
        0 <= j < done.len() && before(fwd, l.last(), #[trigger] done[j]) ==> cross(
            l.last(),
            p,
            done[j],
        ) >= 0
}

/// Dropping the last point of a chain, because `p` does not pass strictly to
/// its left, keeps the points covered.
proof fn lemma_pop_step(fwd: bool, l: Seq<[i32; 2]>, done: Seq<[i32; 2]>, p: [i32; 2])
    requires
        l.len() >= 2,
        drawn_from(l, done),
        sorted_dir(fwd, l),
        forall|j: int| 0 <= j < done.len() ==> before(fwd, #[trigger] done[j], p),
        all_left_of_chain(l, done),
        tail_covered(fwd, l, done, p),
        cross(l[l.len() - 2], l[l.len() - 1], p) <= 0,
    ensures
        all_left_of_chain(l.drop_last(), done),
        tail_covered(fwd, l.drop_last(), done, p),
{
    let m = l.drop_last();
    let a = l[l.len() - 2];
    let b = l[l.len() - 1];
    assert(done.contains(b));
    let bj = choose|t: int| 0 <= t < done.len() && done[t] == b;
    assert(before(fwd, done[bj], p));
    assert(before(fwd, a, b));
    assert forall|j: int| 0 <= j < done.len() implies left_of_chain(m, #[trigger] done[j]) by {
        assert(left_of_chain(l, done[j]));
        assert forall|k: int| 0 <= k < m.len() - 1 implies #[trigger] left_of_edge(
            m,
            k,
            done[j],
        ) by {
            assert(left_of_edge(l, k, done[j]));
        }
    }
    assert forall|j: int| 0 <= j < done.len() && before(fwd, m.last(), #[trigger] done[j]) implies cross(
        m.last(),
        p,
        done[j],
    ) >= 0 by {
        let q = done[j];
        assert(left_of_chain(l, q));
        assert(left_of_edge(l, l.len() - 2, q));
        if before(fwd, q, b) {
            lemma_popped_below(fwd, a, b, q, p);
        } else {
            lemma_popped_above(fwd, a, b, q, p);
        }
    }
}

/// Appending `p` to a chain after the pops keeps the chain ordered and every
/// point, `p` included, covered.
proof fn lemma_push_step(fwd: bool, l: Seq<[i32; 2]>, done: Seq<[i32; 2]>, p: [i32; 2])
    requires
        drawn_from(l, done),
        left_turns(l),
        sorted_dir(fwd, l),
        forall|j: int| 0 <= j < done.len() ==> before(fwd, #[trigger] done[j], p),
        all_left_of_chain(l, done),
        l.len() >= 1 ==> forall|j: int|
            0 <= j < done.len() ==> before(fwd, l[0], #[trigger] done[j]),
        tail_covered(fwd, l, done, p),
        l.len() >= 2 ==> cross(l[l.len() - 2], l[l.len() - 1], p) > 0,
    ensures
        sorted_dir(fwd, l.push(p)),
        drawn_from(l.push(p), done.push(p)),
        all_left_of_chain(l.push(p), done.push(p)),
{
    let n = l.len();
    let dp = done.push(p);
    let c = l.push(p);
    assert forall|i: int, j: int| 0 <= i <= j < c.len() implies before(
        fwd,
        #[trigger] c[i],
        #[trigger] c[j],
    ) by {
        if j == n && i < n {
            assert(done.contains(l[i]));
            let t = choose|t: int| 0 <= t < done.len() && done[t] == l[i];
            assert(before(fwd, done[t], p));
        } else if j < n {
            assert(before(fwd, l[i], l[j]));
        }
    }
    assert forall|i: int| 0 <= i < c.len() implies dp.contains(#[trigger] c[i]) by {
        if i < n {
            assert(done.contains(l[i]));
            let t = choose|t: int| 0 <= t < done.len() && done[t] == l[i];
            assert(dp[t] == l[i]);
        } else {
            assert(dp[done.len() as int] == p);
        }
    }
    if n >= 1 {
        assert(done.contains(l.last()));
        let t = choose|t: int| 0 <= t < done.len() && done[t] == l.last();
        assert(before(fwd, done[t], p));
    }
    if n >= 2 {
        lemma_left_of_convex_chain(fwd, l, p, 0);
    }
    assert forall|j: int| 0 <= j < dp.len() implies left_of_chain(c, #[trigger] dp[j]) by {
        let q = dp[j];
        assert forall|k: int| 0 <= k < c.len() - 1 implies #[trigger] left_of_edge(c, k, q) by {
            if j == done.len() {
                if k < n - 1 {
                    assert(left_of_edge(l, k, p));
                } else {
                    lemma_cross_degenerate(l[k], p, p);
                }
            } else {
                assert(q == done[j]);
                assert(left_of_chain(l, q));
                if k < n - 1 {
                    assert(left_of_edge(l, k, q));
                } else if before(fwd, l.last(), q) {
                } else {
                    // `q` comes before the corner `l.last()`.
                    assert(n >= 2);
                    assert(left_of_edge(l, n - 2, q));
                    assert(before(fwd, l[n - 2], l[n - 1]));
                    if same_point(l[n - 2], l[n - 1]) {
                        lemma_cross_degenerate(l[n - 2], l[n - 1], p);
                    }
                    lemma_before_corner(fwd, l[n - 2], l[n - 1], q, p);
                }
            }
        }
    }
}

/// Pops from the chain every last point at which the turn towards `p` is not
/// strictly counter-clockwise, then appends `p`.
///
/// The chain walks the points `done` seen so far in the direction `fwd`;
/// every one of them lies to the left of every edge, before and after.
fn push_on_chain(
    chain: &mut Vec<[i32; 2]>,
    p: [i32; 2],
    Ghost(pts): Ghost<Seq<[i32; 2]>>,
    Ghost(fwd): Ghost<bool>,
    Ghost(done): Ghost<Seq<[i32; 2]>>,
)
    requires
        crosses_fit(pts),
        pts.contains(p),
        drawn_from(old(chain)@, pts),
        drawn_from(old(chain)@, done),
        left_turns(old(chain)@),
        sorted_dir(fwd, old(chain)@),
        forall|j: int| 0 <= j < done.len() ==> before(fwd, #[trigger] done[j], p),
        all_left_of_chain(old(chain)@, done),
        old(chain)@.len() >= 1 ==> forall|j: int|
            0 <= j < done.len() ==> before(fwd, old(chain)@[0], #[trigger] done[j]),
        old(chain)@.len() >= 1 ==> forall|j: int|
            0 <= j < done.len() ==> before(fwd, #[trigger] done[j], old(chain)@.last()),
    ensures
        drawn_from(final(chain)@, pts),
        drawn_from(final(chain)@, done.push(p)),
        left_turns(final(chain)@),
        sorted_dir(fwd, final(chain)@),
        all_left_of_chain(final(chain)@, done.push(p)),
        final(chain)@.len() >= 1,
        final(chain)@.last() == p,
        old(chain)@.len() == 0 ==> final(chain)@.len() == 1,
        old(chain)@.len() >= 1 ==> final(chain)@.len() >= 2 && final(chain)@[0] == old(chain)@[0],
{
    proof {
        let l = chain@;
        if l.len() >= 1 {
            assert forall|j: int|
                0 <= j < done.len() && before(fwd, l.last(), #[trigger] done[j]) implies cross(
                l.last(),
                p,
                done[j],
            ) >= 0 by {
                assert(before(fwd, done[j], l.last()));
                lemma_cross_degenerate(l.last(), p, done[j]);
            }
        }
    }
    while chain.len() >= 2 && cross_exec(chain[chain.len() - 2], chain[chain.len() - 1], p) <= 0
        invariant
            crosses_fit(pts),
            pts.contains(p),
            drawn_from(chain@, pts),
            drawn_from(chain@, done),
            left_turns(chain@),
            sorted_dir(fwd, chain@),
            forall|j: int| 0 <= j < done.len() ==> before(fwd, #[trigger] done[j], p),
            all_left_of_chain(chain@, done),
            old(chain)@.len() == 0 ==> chain@.len() == 0,
            old(chain)@.len() >= 1 ==> chain@.len() >= 1 && chain@[0] == old(chain)@[0],
            old(chain)@.len() >= 1 ==> forall|j: int|
                0 <= j < done.len() ==> before(fwd, old(chain)@[0], #[trigger] done[j]),
            tail_covered(fwd, chain@, done, p),
        decreases chain@.len(),
    {
        proof {
            let l = chain@;
            assert(pts.contains(l[l.len() - 2]));
            assert(pts.contains(l[l.len() - 1]));
        }
        let ghost before_pop = chain@;
        chain.pop();
        proof {
            assert(chain@ =~= before_pop.drop_last());
            lemma_pop_step(fwd, before_pop, done, p);
        }
    }
    proof {
        let l = chain@;
        if l.len() >= 2 {
            assert(pts.contains(l[l.len() - 2]));
            assert(pts.contains(l[l.len() - 1]));
        }
    }
    let ghost kept = chain@;
    chain.push(p);
    proof {
        lemma_push_step(fwd, kept, done, p);
    }
}

/// Monotone-chain convex hull; returns vertices in counter-clockwise order.
///
/// The hull is the lower chain, from the lexicographically smallest point to
/// the largest, followed by the upper chain back; each chain is
/// lexicographically monotone and turns strictly counter-clockwise at every
/// inner vertex, the shared end points appear
/// once, and every input point lies on or to the left of every edge of both
/// chains.
#[verifier::spinoff_prover]
#[verifier::rlimit(40)]
pub fn convex_hull(points: &[[i32; 2]]) -> (hull: Vec<[i32; 2]>)
    requires
        crosses_fit(points@),
    ensures
        points@.len() < 3 ==> hull@ == points@,
        points@.len() >= 3 ==> exists|lower: Seq<[i32; 2]>, upper: Seq<[i32; 2]>|
            {
                &&& hull@ == lower.drop_last() + upper.drop_last()
                &&& lower.len() >= 2
                &&& upper.len() >= 2
                &&& left_turns(lower)
                &&& left_turns(upper)
                &&& drawn_from(lower, points@)
                &&& drawn_from(upper, points@)
                &&& is_lex_min(lower[0], points@)
                &&& is_lex_max(lower.last(), points@)
                &&& upper[0] == lower.last()
                &&& upper.last() == lower[0]
                &&& lex_sorted(lower)
                &&& lex_sorted_desc(upper)
                &&& forall|i: int|
                    0 <= i < points@.len() ==> left_of_chain(lower, #[trigger] points@[i])
                        && left_of_chain(upper, points@[i])
            },
{
    broadcast use vstd::seq_lib::group_to_multiset_ensures;

    if points.len() < 3 {
        return crate::polygon::copy_ring(points);
    }
    let pts = lex_sort(points);
    let n = pts.len();
    proof {
        assert forall|x: [i32; 2]| #[trigger] pts@.contains(x) == points@.contains(x) by {
            vstd::seq_lib::to_multiset_contains(pts@, x);
            vstd::seq_lib::to_multiset_contains(points@, x);
        }
        assert(pts@.len() == points@.len()) by {
            vstd::seq_lib::to_multiset_len(pts@);
            vstd::seq_lib::to_multiset_len(points@);
        }
    }
    proof {
        assert forall|o: [i32; 2], a: [i32; 2], b: [i32; 2]|
            #![trigger pts@.contains(o), pts@.contains(a), pts@.contains(b)]
            pts@.contains(o) && pts@.contains(a) && pts@.contains(b) implies cross_fits(o, a, b) by {
            assert(points@.contains(o) && points@.contains(a) && points@.contains(b));
        }
    }
    let mut lower: Vec<[i32; 2]> = Vec::new();
    for i in 0..n
        invariant
            n == pts@.len(),
            n >= 3,
            crosses_fit(pts@),
            lex_sorted(pts@),
            drawn_from(lower@, pts@),
            drawn_from(lower@, Seq::new(i as nat, |k: int| pts@[k])),
            left_turns(lower@),
            sorted_dir(true, lower@),
            forall|j: int| 0 <= j < i ==> left_of_chain(lower@, #[trigger] pts@[j]),
            i == 0 ==> lower@.len() == 0,
            i > 0 ==> lower@.len() >= 1 && lower@[0] == pts@[0] && lower@.last() == pts@[i - 1],
            i >= 2 ==> lower@.len() >= 2,
    {
        let ghost done = Seq::new(i as nat, |k: int| pts@[k]);
        proof {
            assert(pts@.contains(pts@[i as int]));
            assert forall|j: int| 0 <= j < done.len() implies left_of_chain(
                lower@,
                #[trigger] done[j],
            ) by {
                assert(done[j] == pts@[j]);
            }
            assert(all_left_of_chain(lower@, done));
        }
        push_on_chain(&mut lower, pts[i], Ghost(pts@), Ghost(true), Ghost(done));
        proof {
            assert(done.push(pts@[i as int]) =~= Seq::new((i + 1) as nat, |k: int| pts@[k]));
            assert forall|j: int| 0 <= j < i + 1 implies left_of_chain(
                lower@,
                #[trigger] pts@[j],
            ) by {
                assert(done.push(pts@[i as int])[j] == pts@[j]);
                assert(left_of_chain(lower@, done.push(pts@[i as int])[j]));
            }
        }
    }
    let mut upper: Vec<[i32; 2]> = Vec::new();
    for j in 0..n
        invariant
            n == pts@.len(),
            n >= 3,
            crosses_fit(pts@),
            lex_sorted(pts@),
            drawn_from(upper@, pts@),
            drawn_from(upper@, Seq::new(j as nat, |k: int| pts@[n - 1 - k])),
            left_turns(upper@),
            sorted_dir(false, upper@),
            forall|k: int| 0 <= k < j ==> left_of_chain(upper@, #[trigger] pts@[n - 1 - k]),
            j == 0 ==> upper@.len() == 0,
            j > 0 ==> upper@.len() >= 1 && upper@[0] == pts@[n - 1] && upper@.last() == pts@[n
                - j],
            j >= 2 ==> upper@.len() >= 2,
    {
        let ghost done = Seq::new(j as nat, |k: int| pts@[n - 1 - k]);
        proof {
            assert(pts@.contains(pts@[n - 1 - j]));
            assert forall|k: int| 0 <= k < done.len() implies left_of_chain(
                upper@,
                #[trigger] done[k],
            ) by {
                assert(done[k] == pts@[n - 1 - k]);
            }
            assert(all_left_of_chain(upper@, done));
        }
        push_on_chain(&mut upper, pts[n - 1 - j], Ghost(pts@), Ghost(false), Ghost(done));
        proof {
            assert(done.push(pts@[n - 1 - j]) =~= Seq::new(
                (j + 1) as nat,
                |k: int| pts@[n - 1 - k],
            ));
            assert forall|k: int| 0 <= k < j + 1 implies left_of_chain(
                upper@,
                #[trigger] pts@[n - 1 - k],
            ) by {
                assert(done.push(pts@[n - 1 - j])[k] == pts@[n - 1 - k]);
                assert(left_of_chain(upper@, done.push(pts@[n - 1 - j])[k]));
            }
        }
    }
    let ghost lower_full = lower@;
    let ghost upper_full = upper@;
    lower.pop();
    upper.pop();
    let ghost lower_part = lower@;
    for k in 0..upper.len()
        invariant
            lower@ == lower_part + upper@.subrange(0, k as int),
    {
        lower.push(upper[k]);
        assert(lower@ =~= lower_part + upper@.subrange(0, k + 1));
    }
    proof {
        assert(lower@ =~= lower_full.drop_last() + upper_full.drop_last());
        assert(lower_full.len() >= 2);
        assert(upper_full.len() >= 2);
        assert forall|i: int| 0 <= i < lower_full.len() implies points@.contains(
            #[trigger] lower_full[i],
        ) by {
            assert(pts@.contains(lower_full[i]));
        }
        assert forall|i: int| 0 <= i < upper_full.len() implies points@.contains(
            #[trigger] upper_full[i],
        ) by {
            assert(pts@.contains(upper_full[i]));
        }
        assert forall|i: int| 0 <= i < points@.len() implies lex_le(
            pts@[0],
            #[trigger] points@[i],
        ) by {
            assert(points@.contains(points@[i]));
            assert(pts@.contains(points@[i]));
            let j = choose|j: int| 0 <= j < pts@.len() && pts@[j] == points@[i];
            assert(lex_le(pts@[0], pts@[j]));
        }
        assert forall|i: int| 0 <= i < points@.len() implies lex_le(
            #[trigger] points@[i],
            pts@[n - 1],
        ) by {
            assert(points@.contains(points@[i]));
            assert(pts@.contains(points@[i]));
            let j = choose|j: int| 0 <= j < pts@.len() && pts@[j] == points@[i];
            assert(lex_le(pts@[j], pts@[n - 1]));
        }
        assert forall|i: int| 0 <= i < points@.len() implies left_of_chain(
            lower_full,
            #[trigger] points@[i],
        ) && left_of_chain(upper_full, points@[i]) by {
            assert(points@.contains(points@[i]));
            assert(pts@.contains(points@[i]));
            let j = choose|j: int| 0 <= j < pts@.len() && pts@[j] == points@[i];
            assert(left_of_chain(lower_full, pts@[j]));
            assert(left_of_chain(upper_full, pts@[n - 1 - (n - 1 - j)]));
        }
        assert(pts@.contains(pts@[0]));
        assert(pts@.contains(pts@[n - 1]));
        assert(is_lex_min(lower_full[0], points@));
        assert(is_lex_max(lower_full.last(), points@));
        assert(sorted_dir(true, lower_full));
        assert(sorted_dir(false, upper_full));
        assert forall|i: int, j: int| 0 <= i <= j < lower_full.len() implies lex_le(
            #[trigger] lower_full[i],
            #[trigger] lower_full[j],
        ) by {
            assert(before(true, lower_full[i], lower_full[j]));
        }
        assert forall|i: int, j: int| 0 <= i <= j < upper_full.len() implies lex_le(
            #[trigger] upper_full[j],
            #[trigger] upper_full[i],
        ) by {
            assert(before(false, upper_full[i], upper_full[j]));
        }
    }
    lower
}

/// The hull when it has at least three vertices; otherwise the triangle
/// with corners `center - (radius, radius)`, `center + (radius, -radius)`
/// and `center + (0, radius)`.
pub fn hull_or_triangle(hull: Vec<[i32; 2]>, center: [i32; 2], radius: i32) -> (res: Vec<[i32; 2]>)
    requires
        i32::MIN <= center[0] - radius <= i32::MAX,
        i32::MIN <= center[0] + radius <= i32::MAX,
        i32::MIN <= center[1] - radius <= i32::MAX,
        i32::MIN <= center[1] + radius <= i32::MAX,
    ensures
        hull@.len() >= 3 ==> res@ == hull@,
        hull@.len() < 3 ==> res@ == seq![
            [(center[0] - radius) as i32, (center[1] - radius) as i32],
            [(center[0] + radius) as i32, (center[1] - radius) as i32],
            [center[0], (center[1] + radius) as i32],
        ],
{
    if hull.len() >= 3 {
        hull
    } else {
        let (left, right) = (center[0] - radius, center[0] + radius);
        let (bottom, top) = (center[1] - radius, center[1] + radius);
        let res = vec![[left, bottom], [right, bottom], [center[0], top]];
        assert(res@ =~= seq![
            [(center[0] - radius) as i32, (center[1] - radius) as i32],
            [(center[0] + radius) as i32, (center[1] - radius) as i32],
            [center[0], (center[1] + radius) as i32],
        ]);
        res
    }
}

} // verus!
