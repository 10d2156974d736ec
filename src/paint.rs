use vstd::prelude::*;
use crate::canvas::{PixelTriangle, Point, Raster, bounds, put};
use crate::raster::{
    fill_height,
    fill_row,
    fill_run,
    lemma_lerp_between,
    lemma_line_ends,
    line_effect,
    line_end,
    line_pixels,
    line_run,
    line_sample,
    line_start,
    point_le,
    sort_by_y,
    steps,
    triangle_effect,
};

verus! {

/// `r` with every pixel of `s` written in color `c` at depth `z`, where such a write
/// lands (on a depth-tested surface, where `z` is at least the stored depth).
pub open spec fn paint(r: Raster, s: Set<(int, int)>, z: i32, c: u32) -> Raster {
    let lands = |p: (int, int)| s.contains(p) && (!r.depth_test || z >= r.depth[p]);
    Raster {
        color: Map::new(
            |p: (int, int)| r.color.dom().contains(p),
            |p: (int, int)|
                if lands(p) {
                    c
                } else {
                    r.color[p]
                },
        ),
        depth: if r.depth_test {
            Map::new(
                |p: (int, int)| r.depth.dom().contains(p),
                |p: (int, int)|
                    if lands(p) {
                        z
                    } else {
                        r.depth[p]
                    },
            )
        } else {
            r.depth
        },
        ..r
    }
}

/// The pixels of the first `n` samples of the line between `a` and `b`.
pub open spec fn line_prefix(a: Point, b: Point, n: int) -> Set<(int, int)> {
    Set::new(
        |p: (int, int)|
            exists|i: int| 0 <= i < n && p == (#[trigger] line_sample(a, b, i).0, line_sample(a, b, i).1),
    )
}

/// The pixels of the first `k` rows of the fill of `t`.
pub open spec fn fill_prefix(t: PixelTriangle, k: nat) -> Set<(int, int)>
    decreases k,
{
    if k == 0 {
        Set::empty()
    } else {
        let row = fill_row(t, k - 1);
        fill_prefix(t, (k - 1) as nat).union(line_pixels(row.0, row.1))
    }
}

/// The pixels that filling `t` covers.
pub open spec fn triangle_pixels(t: PixelTriangle) -> Set<(int, int)> {
    fill_prefix(t, fill_height(t) as nat)
}

/// `t` with all three corners moved to depth `d`.
pub open spec fn at_depth(t: PixelTriangle, d: i32) -> PixelTriangle {
    PixelTriangle {
        p0: Point { z: d, ..t.p0 },
        p1: Point { z: d, ..t.p1 },
        p2: Point { z: d, ..t.p2 },
    }
}

proof fn lemma_put_is_paint(r: Raster, x: int, y: int, z: i32, c: u32)
    requires
        r.wf(),
    ensures
        put(r, x, y, z as int, c) == paint(r, set![(x, y)], z, c),
{
    let q = put(r, x, y, z as int, c);
    let p = paint(r, set![(x, y)], z, c);
    assert(q.color =~= p.color);
    assert(q.depth =~= p.depth);
}

proof fn lemma_paint_paint(r: Raster, s1: Set<(int, int)>, s2: Set<(int, int)>, z: i32, c: u32)
    requires
        r.wf(),
    ensures
        paint(r, s1, z, c).wf(),
        paint(paint(r, s1, z, c), s2, z, c) == paint(r, s1.union(s2), z, c),
{
    let a = paint(paint(r, s1, z, c), s2, z, c);
    let b = paint(r, s1.union(s2), z, c);
    assert(paint(r, s1, z, c).color.dom() =~= r.color.dom());
    assert(a.color =~= b.color);
    assert(a.depth =~= b.depth);
}

proof fn lemma_paint_empty(r: Raster, z: i32, c: u32)
    requires
        r.wf(),
    ensures
        paint(r, Set::empty(), z, c) == r,
{
    assert(paint(r, Set::empty(), z, c).color =~= r.color);
    assert(paint(r, Set::empty(), z, c).depth =~= r.depth);
}

/// Every sample of a line between two points at depth `z` is at depth `z`.
proof fn lemma_flat_line_samples(a: Point, b: Point, i: int)
    requires
        a.z == b.z,
        0 <= i <= steps(a, b),
    ensures
        line_sample(a, b, i).2 == a.z as int,
{
    if steps(a, b) > 0 {
        lemma_lerp_between(a.z as int, b.z as int, i, steps(a, b));
    }
}

/// A line between two points at one depth paints its pixels at that depth.
proof fn lemma_flat_line_run(r: Raster, a: Point, b: Point, c: u32, n: nat)
    requires
        r.wf(),
        a.z == b.z,
        n <= steps(a, b) + 1,
    ensures
        line_run(r, a, b, c, n) == paint(r, line_prefix(a, b, n as int), a.z, c),
    decreases n,
{
    if n == 0 {
        assert(line_prefix(a, b, 0) =~= Set::empty());
        lemma_paint_empty(r, a.z, c);
    } else {
        let m = (n - 1) as nat;
        lemma_flat_line_run(r, a, b, c, m);
        let s = line_sample(a, b, m as int);
        lemma_flat_line_samples(a, b, m as int);
        lemma_paint_paint(r, line_prefix(a, b, m as int), Set::empty(), a.z, c);
        lemma_put_is_paint(paint(r, line_prefix(a, b, m as int), a.z, c), s.0, s.1, a.z, c);
        lemma_paint_paint(r, line_prefix(a, b, m as int), set![(s.0, s.1)], a.z, c);
        assert(line_prefix(a, b, m as int).union(set![(s.0, s.1)]) =~= line_prefix(a, b, n as int)) by {
            assert forall|p: (int, int)| line_prefix(a, b, n as int).contains(p) implies
                line_prefix(a, b, m as int).union(set![(s.0, s.1)]).contains(p) by {
                let i = choose|i: int| 0 <= i < n && p == (#[trigger] line_sample(a, b, i).0, line_sample(a, b, i).1);
                if i < m {
                    assert(line_prefix(a, b, m as int).contains(p));
                }
            }
        }
    }
}

/// A line between two points at depth `z` paints exactly its pixels at depth `z`.
pub proof fn lemma_flat_line(r: Raster, a: Point, b: Point, c: u32)
    requires
        r.wf(),
        a.z == b.z,
    ensures
        line_effect(r, a, b, c) == paint(r, line_pixels(a, b), a.z, c),
{
    lemma_flat_line_run(r, a, b, c, (steps(a, b) + 1) as nat);
    assert(line_prefix(a, b, steps(a, b) + 1) =~= line_pixels(a, b));
}

proof fn lemma_sort_at_depth(t: PixelTriangle, d: i32)
    ensures
        sort_by_y(at_depth(t, d)) == at_depth(sort_by_y(t), d),
        fill_height(at_depth(t, d)) == fill_height(t),
{
}

/// The rows of the fill of a triangle at one depth are at that depth.
proof fn lemma_flat_rows(t: PixelTriangle, d: i32, k: int)
    requires
        0 <= k < fill_height(t),
    ensures
        fill_row(at_depth(t, d), k).0.z == d,
        fill_row(at_depth(t, d), k).1.z == d,
        fill_row(at_depth(t, d), k).0.x == fill_row(t, k).0.x,
        fill_row(at_depth(t, d), k).0.y == fill_row(t, k).0.y,
        fill_row(at_depth(t, d), k).1.x == fill_row(t, k).1.x,
        fill_row(at_depth(t, d), k).1.y == fill_row(t, k).1.y,
{
    lemma_sort_at_depth(t, d);
    let s = sort_by_y(t);
    let upper = s.p2.y - s.p1.y;
    let lower = s.p1.y - s.p0.y;
    assert(s.p0.y <= s.p1.y <= s.p2.y);
    lemma_lerp_between(d as int, d as int, k, upper + lower);
    if k < upper {
        lemma_lerp_between(d as int, d as int, k, upper);
    } else {
        lemma_lerp_between(d as int, d as int, k - upper, lower);
    }
}

/// Which pixels a line passes through depends on the columns and rows of its ends
/// alone.
proof fn lemma_line_pixels_flat_view(a: Point, b: Point, a2: Point, b2: Point)
    requires
        a.x == a2.x && a.y == a2.y,
        b.x == b2.x && b.y == b2.y,
    ensures
        line_pixels(a, b) == line_pixels(a2, b2),
{
    let n = steps(a, b);
    assert(steps(a2, b2) == n);
    if a.x == b.x && a.y == b.y {
        assert(n == 0);
        assert(line_pixels(a, b) =~= line_pixels(a2, b2)) by {
            assert forall|p: (int, int)| line_pixels(a, b).contains(p) implies line_pixels(a2, b2).contains(p) by {
                assert(line_sample(a, b, 0).0 == line_sample(a2, b2, 0).0);
                assert(line_sample(a, b, 0).1 == line_sample(a2, b2, 0).1);
            }
            assert forall|p: (int, int)| line_pixels(a2, b2).contains(p) implies line_pixels(a, b).contains(p) by {
                assert(line_sample(a, b, 0).0 == line_sample(a2, b2, 0).0);
                assert(line_sample(a, b, 0).1 == line_sample(a2, b2, 0).1);
            }
        }
    } else {
        assert(point_le(a, b) == point_le(a2, b2));
        assert forall|i: int| 0 <= i <= n implies #[trigger] line_sample(a, b, i).0 == line_sample(a2, b2, i).0
            && line_sample(a, b, i).1 == line_sample(a2, b2, i).1 by {}
        assert(line_pixels(a, b) =~= line_pixels(a2, b2)) by {
            assert forall|p: (int, int)| line_pixels(a, b).contains(p) implies line_pixels(a2, b2).contains(p) by {
                let i = choose|i: int| 0 <= i <= n && p == (#[trigger] line_sample(a, b, i).0, line_sample(a, b, i).1);
                assert(line_sample(a, b, i).0 == line_sample(a2, b2, i).0);
            }
            assert forall|p: (int, int)| line_pixels(a2, b2).contains(p) implies line_pixels(a, b).contains(p) by {
                let i = choose|i: int| 0 <= i <= n && p == (#[trigger] line_sample(a2, b2, i).0, line_sample(a2, b2, i).1);
                assert(line_sample(a, b, i).0 == line_sample(a2, b2, i).0);
            }
        }
    }
}

proof fn lemma_fill_prefix_at_depth(t: PixelTriangle, d: i32, k: nat)
    requires
        k <= fill_height(t),
    ensures
        fill_prefix(at_depth(t, d), k) == fill_prefix(t, k),
    decreases k,
{
    if k > 0 {
        lemma_fill_prefix_at_depth(t, d, (k - 1) as nat);
        lemma_flat_rows(t, d, k - 1);
        let r1 = fill_row(at_depth(t, d), k - 1);
        let r2 = fill_row(t, k - 1);
        lemma_line_pixels_flat_view(r1.0, r1.1, r2.0, r2.1);
    }
}

/// Filling a triangle whose corners are at depth `d` paints its pixels at depth `d`.
proof fn lemma_flat_fill_run(r: Raster, t: PixelTriangle, d: i32, c: u32, k: nat)
    requires
        r.wf(),
        k <= fill_height(t),
    ensures
        fill_run(r, at_depth(t, d), c, k) == paint(r, fill_prefix(at_depth(t, d), k), d, c),
    decreases k,
{
    lemma_sort_at_depth(t, d);
    if k == 0 {
        lemma_paint_empty(r, d, c);
    } else {
        let m = (k - 1) as nat;
        lemma_flat_fill_run(r, t, d, c, m);
        lemma_flat_rows(t, d, m as int);
        let row = fill_row(at_depth(t, d), m as int);
        let s = fill_prefix(at_depth(t, d), m);
        lemma_paint_paint(r, s, Set::empty(), d, c);
        lemma_flat_line(paint(r, s, d, c), row.0, row.1, c);
        lemma_paint_paint(r, s, line_pixels(row.0, row.1), d, c);
    }
}

/// Filling a triangle whose corners are all at depth `d` paints exactly the
/// triangle's pixels at depth `d`; which pixels those are does not depend on `d`.
pub proof fn lemma_flat_triangle(r: Raster, t: PixelTriangle, d: i32, c: u32)
    requires
        r.wf(),
    ensures
        triangle_effect(r, at_depth(t, d), c) == paint(r, triangle_pixels(t), d, c),
        triangle_pixels(at_depth(t, d)) == triangle_pixels(t),
{
    lemma_sort_at_depth(t, d);
    lemma_flat_fill_run(r, t, d, c, fill_height(t) as nat);
    lemma_fill_prefix_at_depth(t, d, fill_height(t) as nat);
}

/// Depth compositing: of two fills of the same triangle at two depths on a
/// depth-tested surface, the nearer one (greater depth) wins wherever it is drawn,
/// whichever comes first. Drawn after the farther one, it leaves its color and
/// depth on every covered pixel that was not already nearer; drawn before it, the
/// farther fill changes nothing.
pub proof fn lemma_nearer_fill_wins(r: Raster, t: PixelTriangle, near: i32, far: i32, c_near: u32, c_far: u32)
    requires
        r.wf(),
        r.depth_test,
        far < near,
    ensures
        forall|p: (int, int)|
            #![trigger triangle_effect(triangle_effect(r, at_depth(t, far), c_far), at_depth(t, near), c_near).color[p]]
            bounds(r.width, r.height).contains(p) && triangle_pixels(t).contains(p) && r.depth[p] <= near ==> {
                &&& triangle_effect(triangle_effect(r, at_depth(t, far), c_far), at_depth(t, near), c_near).color[p] == c_near
                &&& triangle_effect(triangle_effect(r, at_depth(t, far), c_far), at_depth(t, near), c_near).depth[p] == near
            },
        triangle_effect(triangle_effect(r, at_depth(t, near), c_near), at_depth(t, far), c_far)
            == triangle_effect(r, at_depth(t, near), c_near),
{
    let s = triangle_pixels(t);
    lemma_flat_triangle(r, t, far, c_far);
    lemma_flat_triangle(r, t, near, c_near);
    let after_far = paint(r, s, far, c_far);
    let after_near = paint(r, s, near, c_near);
    assert(after_far.color.dom() =~= r.color.dom());
    assert(after_far.depth.dom() =~= r.depth.dom());
    assert(after_near.color.dom() =~= r.color.dom());
    assert(after_near.depth.dom() =~= r.depth.dom());
    lemma_flat_triangle(after_far, t, near, c_near);
    lemma_flat_triangle(after_near, t, far, c_far);
    let again = paint(after_near, s, far, c_far);
    assert(again.color =~= after_near.color);
    assert(again.depth =~= after_near.depth);
}

/// Filling a triangle whose three corners lie on one row draws nothing.
pub proof fn lemma_flat_row_triangle_draws_nothing(r: Raster, t: PixelTriangle, c: u32)
    requires
        t.p0.y == t.p1.y,
        t.p1.y == t.p2.y,
    ensures
        triangle_effect(r, t, c) == r,
        triangle_pixels(t) == Set::<(int, int)>::empty(),
{
}

proof fn lemma_line_run_symmetric(r: Raster, a: Point, b: Point, c: u32, n: nat)
    ensures
        line_run(r, a, b, c, n) == line_run(r, b, a, c, n),
    decreases n,
{
    if n > 0 {
        lemma_line_run_symmetric(r, a, b, c, (n - 1) as nat);
        assert(line_sample(a, b, n - 1) == line_sample(b, a, n - 1));
    }
}

/// A line is drawn the same whichever end is given first: the same pixels, and the
/// same result on any surface.
pub proof fn lemma_line_symmetric(r: Raster, a: Point, b: Point, c: u32)
    ensures
        line_pixels(a, b) == line_pixels(b, a),
        line_effect(r, a, b, c) == line_effect(r, b, a, c),
{
    assert(line_start(a, b) == line_start(b, a));
    assert(line_end(a, b) == line_end(b, a));
    assert(steps(a, b) == steps(b, a));
    assert forall|i: int| #[trigger] line_sample(a, b, i) == line_sample(b, a, i) by {}
    assert(line_pixels(a, b) =~= line_pixels(b, a)) by {
        assert forall|p: (int, int)| line_pixels(a, b).contains(p) implies line_pixels(b, a).contains(p) by {
            let i = choose|i: int| 0 <= i <= steps(a, b) && p == (#[trigger] line_sample(a, b, i).0, line_sample(a, b, i).1);
            assert(line_sample(a, b, i) == line_sample(b, a, i));
        }
        assert forall|p: (int, int)| line_pixels(b, a).contains(p) implies line_pixels(a, b).contains(p) by {
            let i = choose|i: int| 0 <= i <= steps(b, a) && p == (#[trigger] line_sample(b, a, i).0, line_sample(b, a, i).1);
            assert(line_sample(a, b, i) == line_sample(b, a, i));
        }
    }
    lemma_line_run_symmetric(r, a, b, c, (steps(a, b) + 1) as nat);
}

/// A line from a point to itself draws that one pixel.
pub proof fn lemma_line_single_point(r: Raster, a: Point, c: u32)
    ensures
        line_pixels(a, a) == set![(a.x as int, a.y as int)],
        line_effect(r, a, a, c) == put(r, a.x as int, a.y as int, a.z as int, c),
{
    assert(steps(a, a) == 0);
    assert(line_sample(a, a, 0) == (a.x as int, a.y as int, a.z as int));
    assert(line_pixels(a, a) =~= set![(a.x as int, a.y as int)]) by {
        assert forall|p: (int, int)| line_pixels(a, a).contains(p) implies p == (a.x as int, a.y as int) by {
            let i = choose|i: int| 0 <= i <= steps(a, a) && p == (#[trigger] line_sample(a, a, i).0, line_sample(a, a, i).1);
            assert(i == 0);
        }
        lemma_line_ends(a, a);
    }
    reveal_with_fuel(line_run, 2);
}

proof fn lemma_line_run_frame(r: Raster, a: Point, b: Point, c: u32, n: nat)
    requires
        r.wf(),
        n <= steps(a, b) + 1,
    ensures
        line_run(r, a, b, c, n).wf(),
        line_run(r, a, b, c, n).width == r.width,
        line_run(r, a, b, c, n).height == r.height,
        line_run(r, a, b, c, n).depth_test == r.depth_test,
        forall|p: (int, int)|
            r.color.dom().contains(p) && !line_prefix(a, b, n as int).contains(p) ==> {
                &&& #[trigger] line_run(r, a, b, c, n).color[p] == r.color[p]
                &&& line_run(r, a, b, c, n).depth[p] == r.depth[p]
            },
        !r.depth_test ==> line_run(r, a, b, c, n) == paint(r, line_prefix(a, b, n as int), 0, c),
    decreases n,
{
    if n == 0 {
        assert(line_prefix(a, b, 0) =~= Set::empty());
        lemma_paint_empty(r, 0, c);
    } else {
        let m = (n - 1) as nat;
        lemma_line_run_frame(r, a, b, c, m);
        let q = line_run(r, a, b, c, m);
        let s = line_sample(a, b, m as int);
        assert forall|p: (int, int)| line_prefix(a, b, m as int).contains(p) implies
            line_prefix(a, b, n as int).contains(p) by {
            let i = choose|i: int| 0 <= i < m && p == (#[trigger] line_sample(a, b, i).0, line_sample(a, b, i).1);
        }
        assert(line_prefix(a, b, n as int).contains((s.0, s.1)));
        let after = line_run(r, a, b, c, n);
        assert(after.color.dom() =~= r.color.dom());
        if !r.depth_test {
            lemma_paint_paint(r, line_prefix(a, b, m as int), Set::empty(), 0, c);
            let painted = paint(r, line_prefix(a, b, m as int), 0, c);
            assert(put(painted, s.0, s.1, s.2, c) == paint(painted, set![(s.0, s.1)], 0, c)) by {
                assert(put(painted, s.0, s.1, s.2, c).color =~= paint(painted, set![(s.0, s.1)], 0, c).color);
            }
            lemma_paint_paint(r, line_prefix(a, b, m as int), set![(s.0, s.1)], 0, c);
            assert(line_prefix(a, b, m as int).union(set![(s.0, s.1)]) =~= line_prefix(a, b, n as int)) by {
                assert forall|p: (int, int)| line_prefix(a, b, n as int).contains(p) implies
                    line_prefix(a, b, m as int).union(set![(s.0, s.1)]).contains(p) by {
                    let i = choose|i: int| 0 <= i < n && p == (#[trigger] line_sample(a, b, i).0, line_sample(a, b, i).1);
                    if i < m {
                        assert(line_prefix(a, b, m as int).contains(p));
                    }
                }
            }
        } else {
            assert(after.depth.dom() =~= r.depth.dom());
        }
    }
}

/// Drawing a line changes only the pixels of the surface that the line passes
/// through, whatever its ends: samples off the surface are dropped, and a line
/// that misses the surface leaves it as it was. On a surface without depth test,
/// exactly the line's pixels on the surface take the color.
pub proof fn lemma_line_stays_on_surface(r: Raster, a: Point, b: Point, c: u32)
    requires
        r.wf(),
    ensures
        line_effect(r, a, b, c).wf(),
        line_effect(r, a, b, c).width == r.width,
        line_effect(r, a, b, c).height == r.height,
        forall|p: (int, int)|
            bounds(r.width, r.height).contains(p) && !line_pixels(a, b).contains(p) ==> {
                &&& #[trigger] line_effect(r, a, b, c).color[p] == r.color[p]
                &&& line_effect(r, a, b, c).depth[p] == r.depth[p]
            },
        line_pixels(a, b).disjoint(bounds(r.width, r.height)) ==> line_effect(r, a, b, c) == r,
        !r.depth_test ==> line_effect(r, a, b, c) == paint(r, line_pixels(a, b), 0, c),
{
    let n = (steps(a, b) + 1) as nat;
    lemma_line_run_frame(r, a, b, c, n);
    assert(line_prefix(a, b, n as int) =~= line_pixels(a, b));
    let after = line_effect(r, a, b, c);
    assert forall|p: (int, int)|
        bounds(r.width, r.height).contains(p) && !line_pixels(a, b).contains(p) implies {
            &&& #[trigger] line_effect(r, a, b, c).color[p] == r.color[p]
            &&& line_effect(r, a, b, c).depth[p] == r.depth[p]
        } by {
        assert(r.color.dom().contains(p));
        assert(!line_prefix(a, b, n as int).contains(p));
        assert(line_run(r, a, b, c, n).color[p] == r.color[p]);
    }
    if line_pixels(a, b).disjoint(bounds(r.width, r.height)) {
        assert(after.color =~= r.color);
        if r.depth_test {
            assert forall|p: (int, int)| after.depth.dom().contains(p) implies after.depth[p] == r.depth[p] by {
                assert(bounds(r.width, r.height).contains(p));
                assert(!line_pixels(a, b).contains(p));
                assert(after.color[p] == r.color[p]);
            }
            assert(after.depth =~= r.depth);
        } else {
            assert(after.depth =~= paint(r, line_pixels(a, b), 0, c).depth);
        }
    }
}

} // verus!
