use vstd::prelude::*;
use vstd::arithmetic::div_mod::{lemma_div_is_ordered, lemma_fundamental_div_mod_converse};
use crate::geometry::{contains_point, overlaps, Rect};
use crate::grid::{end_index, first_index};
use crate::model::SpatialIndexView;

verus! {

/// Containment: a registered item whose box has positive area and meets the
/// grid is returned by a region query over its own box.
pub proof fn lemma_containment(v: SpatialIndexView, e: (Seq<char>, Rect))
    requires
        v.entries.contains(e),
        e.1.width > 0,
        e.1.height > 0,
        v.shape.meets(e.1),
    ensures
        v.in_region(e, e.1),
{
}

/// Exclusion: an item whose box does not overlap the region is not returned
/// by a region query over it.
pub proof fn lemma_exclusion(v: SpatialIndexView, e: (Seq<char>, Rect), region: Rect)
    requires
        !overlaps(e.1, region),
    ensures
        !v.in_region(e, region),
{
}

/// Along one axis, a coordinate inside the segment `[lo, lo + ext]` falls in
/// a cell that the segment meets, unless it is the segment's far end and
/// lies on a cell boundary.
proof fn lemma_axis_cell(p: int, lo: int, ext: int, origin: int, cs: int, count: int)
    requires
        cs > 0,
        ext >= 0,
        lo <= p <= lo + ext,
        0 <= p - origin,
        (p - origin) / cs < count,
        !(p == lo + ext && (p - origin) % cs == 0),
    ensures
        first_index(lo - origin, cs) <= (p - origin) / cs,
        (p - origin) / cs < vstd::math::min(end_index(lo + ext - origin, cs), count),
{
    let a = p - origin;
    let t0 = lo - origin;
    let t = lo + ext - origin;
    if t0 >= 0 {
        lemma_div_is_ordered(t0, a, cs);
    }
    assert(a >= 0 && a / cs >= 0) by {
        lemma_div_is_ordered(0, a, cs);
    }
    let q = a / cs;
    let r = a % cs;
    assert(a == q * cs + r && 0 <= r < cs) by {
        vstd::arithmetic::div_mod::lemma_fundamental_div_mod(a, cs);
        vstd::arithmetic::div_mod::lemma_mod_bound(a, cs);
        assert(cs * q == q * cs) by (nonlinear_arith);
    }
    if a < t {
        // t - 1 >= a, so (t - 1 + cs) / cs >= q + 1.
        assert(t + cs - 1 >= (q + 1) * cs) by (nonlinear_arith)
            requires
                a == q * cs + r,
                0 <= r < cs,
                a <= t - 1,
        ;
        lemma_div_is_ordered((q + 1) * cs, t + cs - 1, cs);
        assert((q + 1) * cs / cs == q + 1) by {
            lemma_fundamental_div_mod_converse((q + 1) * cs, cs, q + 1, 0);
        }
    } else {
        assert(r != 0);
        assert(t + cs - 1 == (q + 1) * cs + (r - 1)) by (nonlinear_arith)
            requires
                a == q * cs + r,
                t == a,
        ;
        lemma_fundamental_div_mod_converse(t + cs - 1, cs, q + 1, r - 1);
    }
}

/// Point semantics: a point query returns a registered item exactly when
/// the point lies in its box, boundary included, provided the point lies in
/// the grid and is not on the far edge of the box along a cell boundary
/// (there the box's membership stops short of the point's cell).
pub proof fn lemma_point_semantics(v: SpatialIndexView, e: (Seq<char>, Rect), x: int, y: int)
    requires
        v.shape.well_formed(),
        v.entries.contains(e),
        v.shape.cell_of(x, y) is Some,
        !(x == e.1.x + e.1.width && (x - v.shape.bounds.x) % v.shape.cell_size == 0),
        !(y == e.1.y + e.1.height && (y - v.shape.bounds.y) % v.shape.cell_size == 0),
    ensures
        v.at_point(e, x, y) <==> contains_point(e.1, x, y),
{
    if contains_point(e.1, x, y) {
        let s = v.shape;
        lemma_axis_cell(x, e.1.x as int, e.1.width as int, s.bounds.x as int, s.cell_size, s.cols);
        lemma_axis_cell(y, e.1.y as int, e.1.height as int, s.bounds.y as int, s.cell_size, s.rows);
    }
}

/// A point query returns only items whose box holds the point.
pub proof fn lemma_point_hits_hold_point(v: SpatialIndexView, e: (Seq<char>, Rect), x: int, y: int)
    ensures
        v.at_point(e, x, y) ==> contains_point(e.1, x, y),
{
}

/// Collision symmetry: for registered items `a` and `b`, a collision query
/// for `b` returns `a` exactly when one for `a` returns `b`.
pub proof fn lemma_collision_symmetry(v: SpatialIndexView, a: (Seq<char>, Rect), b: (Seq<char>, Rect))
    requires
        v.entries.contains(a),
        v.entries.contains(b),
    ensures
        v.collides(a, b) <==> v.collides(b, a),
{
}

} // verus!
