use vstd::prelude::*;

verus! {

/// The clockwise tolerance, 1e-8, in determinant units (one determinant unit
/// is 10^-8 square lengths).
pub const CW_EPSILON: i128 = 1;

/// A point of the plane, in fixed-point coordinates (1/10000 of a length unit).
#[derive(Clone, Copy, Debug, PartialEq, Eq, Structural)]
pub struct Point {
    pub x: i32,
    pub y: i32,
}

/// Twice the signed area of the triangle (origin, u, v).
pub open spec fn det(u: Point, v: Point) -> int {
    u.x * v.y - u.y * v.x
}

/// The determinant of (b - a, c - b): positive when a, b, c turn counter-clockwise.
pub open spec fn turn(a: Point, b: Point, c: Point) -> int {
    (b.x - a.x) * (c.y - b.y) - (b.y - a.y) * (c.x - b.x)
}

/// The triple a, b, c turns clockwise by more than the tolerance.
pub open spec fn is_cw(a: Point, b: Point, c: Point) -> bool {
    turn(a, b, c) < -CW_EPSILON
}

/// Index of the successor of `k` on a ring of `n` elements.
pub open spec fn nx(k: int, n: int) -> int {
    if k + 1 < n {
        k + 1
    } else {
        0
    }
}

/// `x` reduced once modulo `n`, for `0 <= x < 2n`.
pub open spec fn wrap(x: int, n: int) -> int {
    if x < n {
        x
    } else {
        x - n
    }
}

/// Sum of `det` over the consecutive pairs of an open path.
pub open spec fn path(s: Seq<Point>) -> int
    decreases s.len(),
{
    if s.len() <= 1 {
        0
    } else {
        path(s.drop_last()) + det(s[s.len() - 2], s[s.len() - 1])
    }
}

/// Twice the signed area of a closed ring of points (shoelace formula).
pub open spec fn shoelace(s: Seq<Point>) -> int {
    if s.len() == 0 {
        0
    } else {
        path(s) + det(s[s.len() - 1], s[0])
    }
}

/// The points that a ring of vertex ids stands for.
pub open spec fn ring_points(pts: Seq<Point>, ring: Seq<u32>) -> Seq<Point> {
    ring.map_values(|v: u32| pts[v as int])
}

/// Twice the signed area of the polygon whose vertex ids are `ring`.
pub open spec fn polygon_double_area(pts: Seq<Point>, ring: Seq<u32>) -> int {
    shoelace(ring_points(pts, ring))
}

/// No turn of the ring is clockwise.
pub open spec fn convex(s: Seq<Point>) -> bool {
    forall|k: int|
        0 <= k < s.len() ==> !#[trigger] is_cw(s[k], s[nx(k, s.len() as int)], s[nx(nx(k, s.len() as int), s.len() as int)])
}

/// The ring `s` started at index `r`.
pub open spec fn rot(s: Seq<Point>, r: int) -> Seq<Point> {
    Seq::new(s.len(), |k: int| s[wrap(k + r, s.len() as int)])
}

pub proof fn lemma_mul_bound(a: int, b: int)
    requires
        -0x8000_0000 <= a <= 0x7fff_ffff,
        -0x8000_0000 <= b <= 0x7fff_ffff,
    ensures
        -0x4000_0000_0000_0000 <= a * b <= 0x4000_0000_0000_0000,
{
    assert(-0x4000_0000_0000_0000 <= a * b <= 0x4000_0000_0000_0000) by (nonlinear_arith)
        requires
            -0x8000_0000 <= a <= 0x7fff_ffff,
            -0x8000_0000 <= b <= 0x7fff_ffff,
    ;
}

pub proof fn lemma_det_bound(u: Point, v: Point)
    ensures
        -0x8000_0000_0000_0000 <= det(u, v) <= 0x8000_0000_0000_0000,
{
    lemma_mul_bound(u.x as int, v.y as int);
    lemma_mul_bound(u.y as int, v.x as int);
}

pub proof fn lemma_wide_mul_bound(a: int, b: int)
    requires
        -0x1_0000_0000 <= a <= 0x1_0000_0000,
        -0x1_0000_0000 <= b <= 0x1_0000_0000,
    ensures
        -0x1_0000_0000_0000_0000 <= a * b <= 0x1_0000_0000_0000_0000,
{
    assert(-0x1_0000_0000_0000_0000 <= a * b <= 0x1_0000_0000_0000_0000) by (nonlinear_arith)
        requires
            -0x1_0000_0000 <= a <= 0x1_0000_0000,
            -0x1_0000_0000 <= b <= 0x1_0000_0000,
    ;
}

pub proof fn lemma_det_antisym(u: Point, v: Point)
    ensures
        det(u, v) == -det(v, u),
{
    assert(det(u, v) == -det(v, u)) by (nonlinear_arith);
}

/// Twice the signed area of the triangle (origin, u, v).
pub fn determinant(u: &Point, v: &Point) -> (r: i128)
    ensures
        r == det(*u, *v),
{
    proof {
        lemma_mul_bound(u.x as int, v.y as int);
        lemma_mul_bound(u.y as int, v.x as int);
    }
    (u.x as i128) * (v.y as i128) - (u.y as i128) * (v.x as i128)
}

/// Whether a, b, c turn clockwise, beyond the 1e-8 tolerance.
pub fn cw(a: &Point, b: &Point, c: &Point) -> (r: bool)
    ensures
        r == is_cw(*a, *b, *c),
{
    let ux: i128 = b.x as i128 - a.x as i128;
    let uy: i128 = b.y as i128 - a.y as i128;
    let vx: i128 = c.x as i128 - b.x as i128;
    let vy: i128 = c.y as i128 - b.y as i128;
    proof {
        lemma_wide_mul_bound(ux as int, vy as int);
        lemma_wide_mul_bound(uy as int, vx as int);
    }
    ux * vy - uy * vx < -CW_EPSILON
}

pub proof fn lemma_path_bound(s: Seq<Point>)
    ensures
        s.len() >= 1 ==> -0x8000_0000_0000_0000 * (s.len() - 1) <= path(s)
            <= 0x8000_0000_0000_0000 * (s.len() - 1),
    decreases s.len(),
{
    if s.len() > 1 {
        lemma_path_bound(s.drop_last());
        lemma_det_bound(s[s.len() - 2], s[s.len() - 1]);
    }
}

pub proof fn lemma_shoelace_bound(s: Seq<Point>)
    ensures
        -0x8000_0000_0000_0000 * s.len() <= shoelace(s) <= 0x8000_0000_0000_0000 * s.len(),
{
    lemma_path_bound(s);
    if s.len() > 0 {
        lemma_det_bound(s[s.len() - 1], s[0]);
    }
}

/// The path of a concatenation is the two paths and the step between them.
pub proof fn lemma_path_concat(a: Seq<Point>, b: Seq<Point>)
    requires
        a.len() >= 1,
        b.len() >= 1,
    ensures
        path(a + b) == path(a) + det(a[a.len() - 1], b[0]) + path(b),
    decreases b.len(),
{
    if b.len() == 1 {
        assert((a + b).drop_last() =~= a);
    } else {
        lemma_path_concat(a, b.drop_last());
        assert((a + b).drop_last() =~= a + b.drop_last());
    }
}

/// Twice the area of a ring does not depend on where the ring starts.
pub proof fn lemma_shoelace_swap(a: Seq<Point>, b: Seq<Point>)
    ensures
        shoelace(a + b) == shoelace(b + a),
{
    if a.len() == 0 {
        assert(a + b =~= b);
        assert(b + a =~= b);
    } else if b.len() == 0 {
        assert(a + b =~= a);
        assert(b + a =~= a);
    } else {
        lemma_path_concat(a, b);
        lemma_path_concat(b, a);
    }
}

pub proof fn lemma_shoelace_rot(s: Seq<Point>, r: int)
    requires
        0 <= r < s.len(),
    ensures
        shoelace(rot(s, r)) == shoelace(s),
{
    let a = s.subrange(0, r);
    let b = s.subrange(r, s.len() as int);
    assert(rot(s, r) =~= b + a);
    assert(s =~= a + b);
    lemma_shoelace_swap(a, b);
}

/// Gluing two rings along an edge that one walks forwards and the other
/// backwards adds their areas.
pub proof fn lemma_shoelace_glue(x: Seq<Point>, y: Seq<Point>)
    requires
        x.len() >= 2,
        y.len() >= 2,
        x[x.len() - 1] == y[0],
        y[y.len() - 1] == x[0],
    ensures
        shoelace(x.drop_last() + y.drop_last()) == shoelace(x) + shoelace(y),
{
    let p = x.drop_last();
    let q = y.drop_last();
    lemma_path_concat(p, q);
    lemma_det_antisym(x[0], y[0]);
    assert(x =~= p.push(x[x.len() - 1]));
    assert(y =~= q.push(y[y.len() - 1]));
    assert(x.drop_last() =~= p);
    assert(y.drop_last() =~= q);
    assert((p + q)[0] == p[0]);
    assert((p + q)[(p + q).len() - 1] == q[q.len() - 1]);
}

/// Sum of the doubled areas of the fan triangles (s0, s[t-1], s[t]) for 2 <= t <= k.
pub open spec fn fan_area(s: Seq<Point>, k: int) -> int
    decreases k,
{
    if k < 2 {
        0
    } else {
        fan_area(s, k - 1) + shoelace(seq![s[0], s[k - 1], s[k]])
    }
}

pub proof fn lemma_fan_prefix(s: Seq<Point>, k: int)
    requires
        1 <= k < s.len(),
    ensures
        path(s.subrange(0, k + 1)) + det(s[k], s[0]) == fan_area(s, k),
    decreases k,
{
    lemma_det_antisym(s[k], s[0]);
    let t = s.subrange(0, k + 1);
    assert(t.drop_last() =~= s.subrange(0, k));
    assert(path(t) == path(s.subrange(0, k)) + det(s[k - 1], s[k]));
    if k == 1 {
        assert(path(s.subrange(0, 1)) == 0);
    } else {
        lemma_fan_prefix(s, k - 1);
        lemma_det_antisym(s[k - 1], s[0]);
        let tri = seq![s[0], s[k - 1], s[k]];
        assert(tri.drop_last() =~= seq![s[0], s[k - 1]]);
        assert(seq![s[0], s[k - 1]].drop_last() =~= seq![s[0]]);
        assert(path(seq![s[0]]) == 0);
        assert(path(seq![s[0], s[k - 1]]) == det(s[0], s[k - 1]));
        assert(path(tri) == det(s[0], s[k - 1]) + det(s[k - 1], s[k]));
        assert(shoelace(tri) == det(s[0], s[k - 1]) + det(s[k - 1], s[k]) + det(s[k], s[0]));
    }
}

/// A fan of triangles from the first vertex covers the ring's signed area.
pub proof fn lemma_fan_area(s: Seq<Point>)
    ensures
        fan_area(s, s.len() - 1) == shoelace(s),
{
    if s.len() >= 2 {
        lemma_fan_prefix(s, s.len() - 1);
        assert(s.subrange(0, s.len() as int) =~= s);
    } else if s.len() == 1 {
        assert(shoelace(s) == det(s[0], s[0]));
    }
}

/// A rotated convex ring is convex.
pub proof fn lemma_convex_rot(s: Seq<Point>, r: int)
    requires
        0 <= r < s.len(),
        convex(s),
    ensures
        convex(rot(s, r)),
{
    let n = s.len() as int;
    let z = rot(s, r);
    assert forall|k: int| 0 <= k < n implies !#[trigger] is_cw(z[k], z[nx(k, n)], z[nx(nx(k, n), n)]) by {
        let t = wrap(k + r, n);
        assert(!is_cw(s[t], s[nx(t, n)], s[nx(nx(t, n), n)]));
        assert(z[nx(k, n)] == s[nx(t, n)]);
        assert(z[nx(nx(k, n), n)] == s[nx(nx(t, n), n)]);
    }
}

/// Gluing two convex rings along a shared edge gives a convex ring when the
/// two new turns, at the ends of the shared edge, are not clockwise.
pub proof fn lemma_convex_glue(x: Seq<Point>, y: Seq<Point>)
    requires
        x.len() >= 3,
        y.len() >= 3,
        x[x.len() - 1] == y[0],
        y[y.len() - 1] == x[0],
        convex(x),
        convex(y),
        !is_cw(x[x.len() - 2], x[x.len() - 1], y[1]),
        !is_cw(y[y.len() - 2], y[y.len() - 1], x[1]),
    ensures
        convex(x.drop_last() + y.drop_last()),
{
    let z = x.drop_last() + y.drop_last();
    let p = x.len() - 1;
    let q = y.len() - 1;
    let l = p + q;
    assert(z.len() == l);
    assert forall|k: int| 0 <= k < l implies !#[trigger] is_cw(z[k], z[nx(k, l)], z[nx(nx(k, l), l)]) by {
        if k + 2 < p {
            assert(!is_cw(x[k], x[nx(k, x.len() as int)], x[nx(nx(k, x.len() as int), x.len() as int)]));
        } else if k == p - 2 {
            assert(!is_cw(x[k], x[nx(k, x.len() as int)], x[nx(nx(k, x.len() as int), x.len() as int)]));
        } else if k == p - 1 {
        } else if k + 2 < l {
            let t = k - p;
            assert(!is_cw(y[t], y[nx(t, y.len() as int)], y[nx(nx(t, y.len() as int), y.len() as int)]));
        } else if k == l - 2 {
            let t = q - 2;
            assert(!is_cw(y[t], y[nx(t, y.len() as int)], y[nx(nx(t, y.len() as int), y.len() as int)]));
        } else {
        }
    }
}

} // verus!
