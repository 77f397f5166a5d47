use vstd::prelude::*;

use crate::geometry::lemma_orient2_fan;
use crate::geometry::lemma_pcross_antisym;
use crate::geometry::orient2;
use crate::geometry::pcross;
use crate::geometry::tri_area2;
use crate::geometry::Point;
use crate::geometry::Triangle;

verus! {

/// The "open chain" part of the shoelace formula: the sum of the cross
/// products of consecutive vertices.
pub open spec fn chain2(s: Seq<Point>) -> int
    decreases s.len(),
{
    if s.len() < 2 {
        0
    } else {
        pcross(s[0], s[1]) + chain2(s.drop_first())
    }
}

/// Twice the signed area of the closed polygon with vertex cycle `s`
/// (shoelace formula): the chain sum plus the closing edge.
pub open spec fn area2(s: Seq<Point>) -> int {
    if s.len() < 2 {
        0
    } else {
        chain2(s) + pcross(s.last(), s[0])
    }
}

/// Sum of twice the signed areas of a sequence of triangles.
pub open spec fn sum_tri_area2(ts: Seq<Triangle>) -> int
    decreases ts.len(),
{
    if ts.len() == 0 {
        0
    } else {
        sum_tri_area2(ts.drop_last()) + tri_area2(ts.last())
    }
}

/// Appending a triangle adds its area to the sum.
pub proof fn lemma_sum_tri_area2_push(ts: Seq<Triangle>, t: Triangle)
    ensures
        sum_tri_area2(ts.push(t)) == sum_tri_area2(ts) + tri_area2(t),
{
    assert(ts.push(t).drop_last() =~= ts);
    assert(ts.push(t).last() == t);
}

/// Appending a vertex extends the chain sum by one edge.
proof fn lemma_chain2_push(s: Seq<Point>, x: Point)
    requires
        s.len() >= 1,
    ensures
        chain2(s.push(x)) == chain2(s) + pcross(s.last(), x),
    decreases s.len(),
{
    if s.len() == 1 {
        assert(s.push(x).drop_first() =~= seq![x]);
        assert(chain2(seq![x]) == 0);
        assert(chain2(s.push(x)) == pcross(s[0], x));
    } else {
        assert(s.push(x).drop_first() =~= s.drop_first().push(x));
        lemma_chain2_push(s.drop_first(), x);
        assert(s.drop_first().last() == s.last());
        assert(chain2(s.push(x)) == pcross(s[0], s[1]) + chain2(s.drop_first().push(x)));
    }
}

/// Law: rotating a vertex cycle by one position does not change its signed
/// area.
pub proof fn lemma_area2_rotate1(s: Seq<Point>)
    requires
        s.len() >= 2,
    ensures
        area2(s.drop_first().push(s[0])) == area2(s),
{
    let r = s.drop_first().push(s[0]);
    lemma_chain2_push(s.drop_first(), s[0]);
    assert(s.drop_first().last() == s.last());
    assert(r.last() == s[0]);
    assert(r[0] == s[1]);
    assert(chain2(s) == pcross(s[0], s[1]) + chain2(s.drop_first()));
    assert(area2(r) == chain2(s.drop_first()) + pcross(s.last(), s[0]) + pcross(s[0], s[1]));
}

/// Law: removing the vertex at position 1 from a cycle splits off exactly
/// the signed area of the triangle it forms with its two neighbours.
pub proof fn lemma_area2_remove1(s: Seq<Point>)
    requires
        s.len() >= 3,
    ensures
        area2(s) == area2(s.remove(1)) + orient2(s[0], s[1], s[2]),
{
    let r = s.remove(1);
    assert(r.drop_first() =~= s.drop_first().drop_first());
    assert(r[0] == s[0]);
    assert(r.last() == s.last());
    assert(chain2(s) == pcross(s[0], s[1]) + chain2(s.drop_first()));
    assert(s.drop_first()[0] == s[1] && s.drop_first()[1] == s[2]);
    assert(chain2(s.drop_first()) == pcross(s[1], s[2]) + chain2(s.drop_first().drop_first()));
    assert(chain2(r) == pcross(s[0], s[2]) + chain2(r.drop_first()));
    lemma_orient2_fan(s[0], s[1], s[2]);
    lemma_pcross_antisym(s[0], s[2]);
}

/// Law: a cycle of only two vertices encloses no area.
pub proof fn lemma_area2_len2(s: Seq<Point>)
    requires
        s.len() == 2,
    ensures
        area2(s) == 0,
{
    assert(s.drop_first() =~= seq![s[1]]);
    assert(chain2(seq![s[1]]) == 0);
    assert(chain2(s) == pcross(s[0], s[1]));
    lemma_pcross_antisym(s[0], s[1]);
}

} // verus!
