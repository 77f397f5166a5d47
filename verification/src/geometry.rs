use vstd::prelude::*;

verus! {

/// A polygon vertex with exact integer coordinates.
#[derive(Clone, Copy, PartialEq, Eq, Structural, Debug)]
pub struct Point {
    pub x: i32,
    pub y: i32,
}

impl Point {
    /// Build a point from its two coordinates.
    pub fn new(x: i32, y: i32) -> (r: Point)
        ensures
            r.x == x,
            r.y == y,
    {
        Point { x, y }
    }
}

/// A triangle, made up of 3 points.
#[derive(Clone, Copy, PartialEq, Eq, Structural, Debug)]
pub struct Triangle(pub Point, pub Point, pub Point);

/// Cross product of the position vectors of `u` and `v` about the origin.
pub open spec fn pcross(u: Point, v: Point) -> int {
    u.x * v.y - v.x * u.y
}

/// Twice the signed area of the triangle `(a, b, c)`: the cross product of
/// the edge vectors `b - a` and `c - a`.
pub open spec fn orient2(a: Point, b: Point, c: Point) -> int {
    (b.x - a.x) * (c.y - a.y) - (c.x - a.x) * (b.y - a.y)
}

/// Twice the signed area of a triangle value.
pub open spec fn tri_area2(t: Triangle) -> int {
    orient2(t.0, t.1, t.2)
}

/// A corner turns the wrong way (or is exactly straight) under the fixed
/// winding convention: the triangle's doubled signed area is not positive.
/// Exact colinearity counts as reflex, so zero-area triangles are never
/// accepted as ears.
pub open spec fn spec_is_reflex(t: Triangle) -> bool {
    tri_area2(t) <= 0
}

/// `p` lies inside `t` or exactly on its boundary: seen from `p`, the three
/// corners wind consistently. The test is inclusive, so ears are disqualified
/// conservatively.
pub open spec fn spec_contains(t: Triangle, p: Point) -> bool {
    &&& orient2(p, t.2, t.0) >= 0
    &&& orient2(p, t.0, t.1) >= 0
    &&& orient2(p, t.1, t.2) >= 0
}

/// Rotating the three arguments of the signed area leaves it unchanged.
pub proof fn lemma_orient2_cyclic(a: Point, b: Point, c: Point)
    ensures
        orient2(a, b, c) == orient2(b, c, a),
{
    assert((b.x - a.x) * (c.y - a.y) - (c.x - a.x) * (b.y - a.y) == (c.x - b.x) * (a.y - b.y) - (
    a.x - b.x) * (c.y - b.y)) by (nonlinear_arith);
}

/// The vertex cycle `s` is in strictly convex position: every three
/// vertices, taken in cycle order, turn consistently to the left under the
/// winding convention. This is the shape of a simple convex polygon with no
/// three colinear vertices.
pub open spec fn convex_cycle(s: Seq<Point>) -> bool {
    forall|p: int, q: int, r: int|
        0 <= p < q && q < r < s.len() ==> #[trigger] orient2(s[p], s[q], s[r]) > 0
}

/// Strict convex position is recovered when a rotation of the cycle by one
/// position is known to be in strict convex position.
pub proof fn lemma_convex_rotate_back(s: Seq<Point>)
    requires
        s.len() >= 2,
        convex_cycle(s.drop_first().push(s[0])),
    ensures
        convex_cycle(s),
{
    let t = s.drop_first().push(s[0]);
    let len = s.len() as int;
    assert forall|p: int, q: int, r: int| 0 <= p < q && q < r < len implies #[trigger] orient2(s[p], s[q], s[r]) > 0 by {
        if p == 0 {
            assert(t[len - 1] == s[0] && t[q - 1] == s[q] && t[r - 1] == s[r]);
            assert(orient2(t[q - 1], t[r - 1], t[len - 1]) > 0);
            lemma_orient2_cyclic(s[0], s[q], s[r]);
        } else {
            assert(t[p - 1] == s[p] && t[q - 1] == s[q] && t[r - 1] == s[r]);
            assert(orient2(t[p - 1], t[q - 1], t[r - 1]) > 0);
        }
    }
}

/// Strict convex position survives removing the vertex at position 1.
pub proof fn lemma_convex_remove1(s: Seq<Point>)
    requires
        s.len() >= 3,
        convex_cycle(s),
    ensures
        convex_cycle(s.remove(1)),
{
    let t = s.remove(1);
    let len = t.len() as int;
    assert forall|p: int, q: int, r: int| 0 <= p < q && q < r < len implies #[trigger] orient2(t[p], t[q], t[r]) > 0 by {
        let p2: int = if p == 0 {
            0
        } else {
            p + 1
        };
        assert(t[p] == s[p2] && t[q] == s[q + 1] && t[r] == s[r + 1]);
        assert(orient2(s[p2], s[q + 1], s[r + 1]) > 0);
    }
}

/// The triangle-fan form of the signed area: anchoring the shoelace sum at
/// the origin gives the same value as anchoring it at the first corner.
pub proof fn lemma_orient2_fan(a: Point, b: Point, c: Point)
    ensures
        orient2(a, b, c) == pcross(a, b) + pcross(b, c) + pcross(c, a),
{
    assert((b.x - a.x) * (c.y - a.y) - (c.x - a.x) * (b.y - a.y) == (a.x * b.y - b.x * a.y)
        + (b.x * c.y - c.x * b.y) + (c.x * a.y - a.x * c.y)) by (nonlinear_arith);
}

/// A product of two bounded factors is bounded by the product of the bounds.
pub proof fn lemma_mul_bound(x: int, y: int, b: int)
    by (nonlinear_arith)
    requires
        0 <= b,
        -b <= x <= b,
        -b <= y <= b,
    ensures
        -(b * b) <= x * y <= b * b,
{
}

/// Swapping the arguments of the cross product flips its sign.
pub proof fn lemma_pcross_antisym(u: Point, v: Point)
    ensures
        pcross(u, v) == -pcross(v, u),
{
    assert(u.x * v.y - v.x * u.y == -(v.x * u.y - u.x * v.y)) by (nonlinear_arith);
}

impl Triangle {
    /// Check if a given point lies within the triangle (boundary included).
    pub fn contains(self, point: Point) -> (r: bool)
        ensures
            r == spec_contains(self, point),
    {
        let ax: i64 = self.0.x as i64 - point.x as i64;
        let ay: i64 = self.0.y as i64 - point.y as i64;
        let bx: i64 = self.1.x as i64 - point.x as i64;
        let by_: i64 = self.1.y as i64 - point.y as i64;
        let cx: i64 = self.2.x as i64 - point.x as i64;
        let cy: i64 = self.2.y as i64 - point.y as i64;

        proof {
            let b: int = 0x1_0000_0000;
            lemma_mul_bound(cx as int, ay as int, b);
            lemma_mul_bound(ax as int, cy as int, b);
            lemma_mul_bound(ax as int, by_ as int, b);
            lemma_mul_bound(bx as int, ay as int, b);
            lemma_mul_bound(bx as int, cy as int, b);
            lemma_mul_bound(cx as int, by_ as int, b);
        }
        let ca: bool = (cx as i128) * (ay as i128) - (ax as i128) * (cy as i128) >= 0;
        let ab: bool = (ax as i128) * (by_ as i128) - (bx as i128) * (ay as i128) >= 0;
        let bc: bool = (bx as i128) * (cy as i128) - (cx as i128) * (by_ as i128) >= 0;

        proof {
            assert(cx * ay - ax * cy == orient2(point, self.2, self.0));
            assert(ax * by_ - bx * ay == orient2(point, self.0, self.1));
            assert(bx * cy - cx * by_ == orient2(point, self.1, self.2));
        }
        ca && ab && bc
    }

    /// Check if the triangle is reflex: its corner at the middle point turns
    /// the wrong way under the fixed winding, or the three points are exactly
    /// colinear.
    pub fn is_reflex(self) -> (r: bool)
        ensures
            r == spec_is_reflex(self),
    {
        let bax: i64 = self.1.x as i64 - self.0.x as i64;
        let bay: i64 = self.1.y as i64 - self.0.y as i64;
        let cbx: i64 = self.2.x as i64 - self.1.x as i64;
        let cby: i64 = self.2.y as i64 - self.1.y as i64;

        proof {
            let bound: int = 0x1_0000_0000;
            lemma_mul_bound(bay as int, cbx as int, bound);
            lemma_mul_bound(cby as int, bax as int, bound);
        }
        let a: i128 = (bay as i128) * (cbx as i128);
        let b: i128 = (cby as i128) * (bax as i128);

        proof {
            assert(bay * cbx - cby * bax == -((self.1.x - self.0.x) * (self.2.y - self.0.y) - (
            self.2.x - self.0.x) * (self.1.y - self.0.y))) by (nonlinear_arith)
                requires
                    bax == self.1.x - self.0.x,
                    bay == self.1.y - self.0.y,
                    cbx == self.2.x - self.1.x,
                    cby == self.2.y - self.1.y,
            ;
        }
        (a - b) >= 0
    }
}

} // verus!
