//! Properties that relate the operations of the library, proved.
use vstd::prelude::*;
use vstd::arithmetic::div_mod::{lemma_div_is_ordered, lemma_fundamental_div_mod};
use crate::arith::{is_floor_sqrt, lemma_floor_sqrt_exists};
use crate::circle::{
    lemma_crossing_in_range,
    crossing, crossing_num_x, crossing_num_y, discriminant, intersections, kept, norm_sq, offset, root,
    Circle, lemma_intersections_in_box,
};
use crate::control::{claimed_before, grabs, hovered, InteractiveDot};
use crate::dot::{dist_sq, Dot, SCREEN_LIMIT, WIDE_LIMIT};
use crate::line::{in_box, Line};
use crate::scene::{path_of, RayPath};

verus! {

/// The line through two points satisfies its own equation at both points,
/// and has a direction exactly when the points differ.
pub proof fn lemma_line_through_both_points(p: Dot, q: Dot)
    requires
        p.within(WIDE_LIMIT as int),
        q.within(WIDE_LIMIT as int),
    ensures
        Line::through(p, q).on_line(p),
        Line::through(p, q).on_line(q),
        Line::through(p, q).is_degenerate() <==> p == q,
{
    Line::lemma_through(p, q, WIDE_LIMIT as int);
}

/// Inverting a line twice gives the line back; one inversion negates all
/// three coefficients, so the ratio `a : b : c` is kept up to sign.
pub proof fn lemma_invert_twice(l: Line)
    requires
        l.wf(),
    ensures
        Line::through(l.to, l.from).a == -l.a,
        Line::through(l.to, l.from).b == -l.b,
        Line::through(l.to, l.from).c == -l.c,
        Line::through(Line::through(l.to, l.from).to, Line::through(l.to, l.from).from) == l,
{
    Line::lemma_through_reversed(l.from, l.to);
}

/// The closed disc holds its centre, and no point at a distance of at least
/// `r + 1`.
pub proof fn lemma_disc_membership(circle: Circle, p: Dot)
    requires
        circle.wf(),
    ensures
        circle.contains(circle.center),
        dist_sq(p, circle.center) >= (circle.r + 1) * (circle.r + 1) ==> !circle.contains(p),
{
    assert(circle.r * circle.r < (circle.r + 1) * (circle.r + 1)) by (nonlinear_arith)
        requires circle.r >= 0;
}

/// A line farther from the centre than the radius (`offset² > r²·(a² + b²)`,
/// that is a distance `|offset| / sqrt(a² + b²)` above `r`) meets the circle
/// nowhere.
pub proof fn lemma_no_crossing_when_far(l: Line, circle: Circle)
    requires
        offset(l, circle) * offset(l, circle) > circle.r * circle.r * norm_sq(l),
    ensures
        intersections(l, circle).len() == 0,
{
}

/// A line at a distance of exactly the radius from the centre touches the
/// circle in one point, the foot of the perpendicular from the centre
/// (rounded down): an exact point on the line whose offset from the centre
/// is along the normal. It is returned when it lies in the box of the
/// line's two points.
pub proof fn lemma_tangency_single_point(l: Line, circle: Circle)
    requires
        !l.is_degenerate(),
        offset(l, circle) * offset(l, circle) == circle.r * circle.r * norm_sq(l),
        in_box(l.from, l.to, crossing(l, circle, 0)),
    ensures
        intersections(l, circle) == seq![crossing(l, circle, 0)],
        l.a * crossing_num_x(l, circle, 0) + l.b * crossing_num_y(l, circle, 0) + l.c * norm_sq(l) == 0,
        (crossing_num_x(l, circle, 0) - circle.center.x * norm_sq(l)) * l.b
            == (crossing_num_y(l, circle, 0) - circle.center.y * norm_sq(l)) * l.a,
{
    let n = norm_sq(l);
    let d = offset(l, circle);
    lemma_exact_crossing(l, circle, 0);
    assert((l.a * d) * l.b == (l.b * d) * l.a) by (nonlinear_arith);
    assert(crossing_num_x(l, circle, 0) - circle.center.x * n == -(l.a * d));
    assert(crossing_num_y(l, circle, 0) - circle.center.y * n == -(l.b * d));
    assert((-(l.a * d)) * l.b == (-(l.b * d)) * l.a) by (nonlinear_arith);
}

/// The unrounded crossing point for a shift `s` lies exactly on the line,
/// and its squared distance from the centre, times `(a² + b²)²`, is
/// `(a² + b²)·(offset² + s²)`.
pub proof fn lemma_exact_crossing(l: Line, circle: Circle, s: int)
    ensures
        l.a * crossing_num_x(l, circle, s) + l.b * crossing_num_y(l, circle, s) + l.c * norm_sq(l) == 0,
        ({
            let ex = crossing_num_x(l, circle, s) - circle.center.x * norm_sq(l);
            let ey = crossing_num_y(l, circle, s) - circle.center.y * norm_sq(l);
            ex * ex + ey * ey == norm_sq(l) * (offset(l, circle) * offset(l, circle) + s * s)
        }),
{
    let a = l.a as int;
    let b = l.b as int;
    let c = l.c as int;
    let cx = circle.center.x as int;
    let cy = circle.center.y as int;
    let n = norm_sq(l);
    let d = offset(l, circle);
    let ex = -(a * d) - b * s;
    let ey = -(b * d) + a * s;
    assert(crossing_num_x(l, circle, s) == cx * n + ex);
    assert(crossing_num_y(l, circle, s) == cy * n + ey);
    assert(a * ex + b * ey == -(n * d)) by (nonlinear_arith)
        requires ex == -(a * d) - b * s, ey == -(b * d) + a * s, n == a * a + b * b;
    assert(a * (cx * n) + b * (cy * n) + c * n == n * d) by (nonlinear_arith)
        requires d == a * cx + b * cy + c;
    assert(a * (cx * n + ex) + b * (cy * n + ey) + c * n == 0) by (nonlinear_arith)
        requires a * ex + b * ey == -(n * d), a * (cx * n) + b * (cy * n) + c * n == n * d;
    let u = a * d;
    let v = b * s;
    let w = b * d;
    let z = a * s;
    assert(ex * ex == u * u + 2 * (u * v) + v * v) by (nonlinear_arith)
        requires ex == -u - v;
    assert(ey * ey == w * w - 2 * (w * z) + z * z) by (nonlinear_arith)
        requires ey == -w + z;
    assert(u * v == w * z) by (nonlinear_arith)
        requires u == a * d, v == b * s, w == b * d, z == a * s;
    assert(u * u + w * w == n * (d * d)) by (nonlinear_arith)
        requires u == a * d, w == b * d, n == a * a + b * b;
    assert(v * v + z * z == n * (s * s)) by (nonlinear_arith)
        requires v == b * s, z == a * s, n == a * a + b * b;
    assert(n * (d * d + s * s) == n * (d * d) + n * (s * s)) by (nonlinear_arith);
}

/// Each returned crossing `p` is rounded down from an exact point
/// `(X / n, Y / n)`, `n = a² + b²`, that lies on the line and inside the
/// circle, short of it by at most `2·s·n` in `n²`-scaled squared distance
/// (`s` the floor square root of the discriminant); `p` itself misses the
/// line's equation by less than `|a| + |b|`, and lies in the box of the
/// line's two points. There are at most two crossings.
pub proof fn lemma_crossings_near_line_and_circle(l: Line, circle: Circle, i: int)
    requires
        l.wf(),
        l.ends_within(SCREEN_LIMIT as int),
        circle.wf(),
        !l.is_degenerate(),
        0 <= i < intersections(l, circle).len(),
    ensures
        intersections(l, circle).len() <= 2,
        in_box(l.from, l.to, intersections(l, circle)[i]),
        ({
            let p = intersections(l, circle)[i];
            let res = l.a * p.x + l.b * p.y + l.c;
            let abs_a = if l.a < 0 { -l.a } else { l.a as int };
            let abs_b = if l.b < 0 { -l.b } else { l.b as int };
            -(abs_a + abs_b) < res < abs_a + abs_b
        }),
        exists|sh: int|
            (sh == root(l, circle) || sh == -root(l, circle))
            && #[trigger] crossing(l, circle, sh) == intersections(l, circle)[i]
            && crossing_facts(l, circle, sh, root(l, circle)),
{
    lemma_intersections_in_box(l, circle, i);
    let disc = discriminant(l, circle);
    let n = norm_sq(l);
    lemma_crossing_in_range(l, circle, 0);
    let s0 = root(l, circle);
    if disc > 0 {
        lemma_floor_sqrt_exists(disc);
        assert(is_floor_sqrt(disc, s0));
        assert(s0 <= 0x8_0000_0000) by (nonlinear_arith)
            requires s0 * s0 <= disc, disc <= 0x1_0000_0000 * 0x8_0000_0000, s0 >= 0;
    } else {
        assert(disc == 0);
        assert((0int + 1) * (0int + 1) == 1 && 0int * 0 == 0) by (nonlinear_arith);
    }
    assert(is_floor_sqrt(disc, s0));
    let p = intersections(l, circle)[i];
    let sh = if disc > 0 && !(kept(l, crossing(l, circle, s0)).len() > 0 && i == 0) {
        -s0
    } else {
        s0
    };
    assert(p == crossing(l, circle, sh));
    lemma_crossing_in_range(l, circle, sh);
    let xn = crossing_num_x(l, circle, sh);
    let yn = crossing_num_y(l, circle, sh);
    lemma_exact_crossing(l, circle, sh);
    lemma_fundamental_div_mod(xn, n);
    lemma_fundamental_div_mod(yn, n);
    let rx = xn % n;
    let ry = yn % n;
    let res = l.a * p.x + l.b * p.y + l.c;
    let a = l.a as int;
    let b = l.b as int;
    assert(n * res == a * (n * p.x) + b * (n * p.y) + l.c * n) by (nonlinear_arith)
        requires res == a * p.x + b * p.y + l.c;
    assert(a * (n * p.x) == a * xn - a * rx) by (nonlinear_arith)
        requires xn == n * p.x + rx;
    assert(b * (n * p.y) == b * yn - b * ry) by (nonlinear_arith)
        requires yn == n * p.y + ry;
    assert(n * res == -(a * rx + b * ry));
    let abs_a = if a < 0 { -a } else { a };
    let abs_b = if b < 0 { -b } else { b };
    assert(-(abs_a * (n - 1)) <= a * rx <= abs_a * (n - 1) && -(abs_b * (n - 1)) <= b * ry <= abs_b * (n - 1))
        by (nonlinear_arith)
        requires
            0 <= rx < n,
            0 <= ry < n,
            abs_a == if a < 0 { -a } else { a },
            abs_b == if b < 0 { -b } else { b };
    let k = abs_a + abs_b;
    assert(abs_a * (n - 1) + abs_b * (n - 1) == k * n - k) by (nonlinear_arith)
        requires k == abs_a + abs_b;
    assert(-(k * n) < n * res < k * n);
    assert(-k < res < k) by (nonlinear_arith)
        requires -(k * n) < n * res < k * n, n > 0;
    let d = offset(l, circle);
    let r = circle.r as int;
    assert(sh * sh == s0 * s0) by (nonlinear_arith)
        requires sh == s0 || sh == -s0;
    assert(0 <= n * n * (r * r) - n * (d * d + sh * sh) <= 2 * s0 * n) by (nonlinear_arith)
        requires
            disc == r * r * n - d * d,
            s0 * s0 <= disc < (s0 + 1) * (s0 + 1),
            sh * sh == s0 * s0,
            n > 0;
    assert(crossing_facts(l, circle, sh, s0));
}

/// The crossing point for the shift `sh` is the floor of the exact point
/// `(X / n, Y / n)`, which lies on the line and inside the circle, short of
/// it by at most `2·s·n` in `n²`-scaled squared distance.
pub open spec fn crossing_facts(l: Line, circle: Circle, sh: int, s: int) -> bool {
    let n = norm_sq(l);
    let p = crossing(l, circle, sh);
    let xn = crossing_num_x(l, circle, sh);
    let yn = crossing_num_y(l, circle, sh);
    let ex = xn - circle.center.x * n;
    let ey = yn - circle.center.y * n;
    &&& n * p.x <= xn < n * p.x + n
    &&& n * p.y <= yn < n * p.y + n
    &&& l.a * xn + l.b * yn + l.c * n == 0
    &&& 0 <= n * n * (circle.r * circle.r) - (ex * ex + ey * ey) <= 2 * s * n
}

/// One coordinate of a point between two points of a line, rounded down,
/// stays between their coordinates: the line runs as `n·p(σ) = n·po + k·(σ - so)`.
proof fn lemma_floor_between(po: int, pt: int, k: int, so: int, st: int, sg: int, n: int)
    requires
        n > 0,
        (so <= sg <= st) || (st <= sg <= so),
        n * pt == n * po + k * (st - so),
    ensures
        (po <= (n * po + k * (sg - so)) / n <= pt) || (pt <= (n * po + k * (sg - so)) / n <= po),
{
    let e = k * (sg - so);
    let f = k * (st - so);
    assert((0 <= e <= f) || (f <= e <= 0)) by (nonlinear_arith)
        requires e == k * (sg - so), f == k * (st - so), (so <= sg <= st) || (st <= sg <= so);
    crate::arith::lemma_exact_div(n * po, n, po);
    crate::arith::lemma_exact_div(n * pt, n, pt);
    if 0 <= f {
        lemma_div_is_ordered(n * po, n * po + e, n);
        lemma_div_is_ordered(n * po + e, n * pt, n);
    } else {
        lemma_div_is_ordered(n * po + e, n * po, n);
        lemma_div_is_ordered(n * pt, n * po + e, n);
    }
}

/// A point of the line, seen from the centre: with `u = p - center`,
/// `s_p = -b·ux + a·uy` is its shift along the line, `n·|u|² = offset² + s_p²`,
/// and the crossing numerators at the shift `s_p` are `n·p`.
proof fn lemma_point_shift(l: Line, circle: Circle, p: Dot)
    requires
        l.on_line(p),
    ensures
        ({
            let (ux, uy) = (p.x - circle.center.x, p.y - circle.center.y);
            let sp = -l.b * ux + l.a * uy;
            &&& norm_sq(l) * dist_sq(p, circle.center) == offset(l, circle) * offset(l, circle) + sp * sp
            &&& crossing_num_x(l, circle, sp) == norm_sq(l) * p.x
            &&& crossing_num_y(l, circle, sp) == norm_sq(l) * p.y
        }),
{
    let (a, b) = (l.a as int, l.b as int);
    let (ux, uy) = (p.x - circle.center.x, p.y - circle.center.y);
    let sp = -b * ux + a * uy;
    let d = offset(l, circle);
    let n = norm_sq(l);
    assert(a * ux + b * uy == -d) by (nonlinear_arith)
        requires
            a * p.x + b * p.y + l.c == 0,
            d == a * circle.center.x + b * circle.center.y + l.c,
            ux == p.x - circle.center.x,
            uy == p.y - circle.center.y;
    let aa = a * ux + b * uy;
    let (p1, p2, p3, p4) = (a * ux, b * uy, b * ux, a * uy);
    assert(aa * aa == p1 * p1 + 2 * (p1 * p2) + p2 * p2) by (nonlinear_arith)
        requires aa == p1 + p2;
    assert(sp == -p3 + p4) by (nonlinear_arith)
        requires sp == -b * ux + a * uy, p3 == b * ux, p4 == a * uy;
    assert(sp * sp == p3 * p3 - 2 * (p3 * p4) + p4 * p4) by (nonlinear_arith)
        requires sp == -p3 + p4;
    assert(aa * aa == d * d) by (nonlinear_arith)
        requires aa == -d;
    assert(p1 * p2 == p3 * p4) by (nonlinear_arith)
        requires p1 == a * ux, p2 == b * uy, p3 == b * ux, p4 == a * uy;
    assert(p1 * p1 + p3 * p3 == n * (ux * ux)) by (nonlinear_arith)
        requires p1 == a * ux, p3 == b * ux, n == a * a + b * b;
    assert(p2 * p2 + p4 * p4 == n * (uy * uy)) by (nonlinear_arith)
        requires p2 == b * uy, p4 == a * uy, n == a * a + b * b;
    assert(n * (ux * ux) + n * (uy * uy) == n * (ux * ux + uy * uy)) by (nonlinear_arith);
    assert(dist_sq(p, circle.center) == ux * ux + uy * uy);
    assert(-(a * d) - b * sp == n * ux) by (nonlinear_arith)
        requires a * ux + b * uy == -d, sp == -b * ux + a * uy, n == a * a + b * b;
    assert(-(b * d) + a * sp == n * uy) by (nonlinear_arith)
        requires a * ux + b * uy == -d, sp == -b * ux + a * uy, n == a * a + b * b;
    assert(circle.center.x * n + n * ux == n * p.x) by (nonlinear_arith)
        requires ux == p.x - circle.center.x;
    assert(circle.center.y * n + n * uy == n * p.y) by (nonlinear_arith)
        requires uy == p.y - circle.center.y;
}

/// A ray from an origin strictly inside the disc to a target outside it
/// meets the circle: the solver returns at least one crossing.
pub proof fn lemma_inner_origin_meets_circle(circle: Circle, o: Dot, t: Dot)
    requires
        circle.wf(),
        o.within(SCREEN_LIMIT as int),
        t.within(SCREEN_LIMIT as int),
        dist_sq(o, circle.center) < circle.r * circle.r,
        dist_sq(t, circle.center) > circle.r * circle.r,
    ensures
        intersections(Line::through(o, t), circle).len() >= 1,
{
    let l = Line::through(o, t);
    Line::lemma_through(o, t, SCREEN_LIMIT as int);
    assert(o != t);
    let n = norm_sq(l);
    let d = offset(l, circle);
    let r = circle.r as int;
    lemma_crossing_in_range(l, circle, 0);
    lemma_point_shift(l, circle, o);
    lemma_point_shift(l, circle, t);
    let so = -l.b * (o.x - circle.center.x) + l.a * (o.y - circle.center.y);
    let st = -l.b * (t.x - circle.center.x) + l.a * (t.y - circle.center.y);
    let disc = discriminant(l, circle);
    assert(so * so < disc) by (nonlinear_arith)
        requires
            n * dist_sq(o, circle.center) == d * d + so * so,
            dist_sq(o, circle.center) < r * r,
            disc == r * r * n - d * d,
            n > 0;
    assert(st * st > disc) by (nonlinear_arith)
        requires
            n * dist_sq(t, circle.center) == d * d + st * st,
            dist_sq(t, circle.center) > r * r,
            disc == r * r * n - d * d,
            n > 0;
    assert(so * so >= 0) by (nonlinear_arith);
    lemma_floor_sqrt_exists(disc);
    let s = root(l, circle);
    assert(is_floor_sqrt(disc, s));
    assert(s <= 0x8_0000_0000) by (nonlinear_arith)
        requires s * s <= disc, disc <= 0x1_0000_0000 * 0x8_0000_0000, s >= 0;
    assert(-s <= so <= s) by (nonlinear_arith)
        requires so * so < disc, disc < (s + 1) * (s + 1), s >= 0;
    assert(st > s || st < -s) by (nonlinear_arith)
        requires st * st > disc, s * s <= disc, s >= 0;
    let sg = if st > s { s } else { -s };
    lemma_crossing_in_range(l, circle, sg);
    let p = crossing(l, circle, sg);
    // along the line, the numerators move by (-b, a) per unit of shift
    assert(crossing_num_x(l, circle, sg) == n * o.x + (-l.b) * (sg - so)) by (nonlinear_arith)
        requires crossing_num_x(l, circle, so) == n * o.x,
            crossing_num_x(l, circle, sg) == circle.center.x * n - l.a * d - l.b * sg,
            crossing_num_x(l, circle, so) == circle.center.x * n - l.a * d - l.b * so;
    assert(crossing_num_y(l, circle, sg) == n * o.y + l.a * (sg - so)) by (nonlinear_arith)
        requires crossing_num_y(l, circle, so) == n * o.y,
            crossing_num_y(l, circle, sg) == circle.center.y * n - l.b * d + l.a * sg,
            crossing_num_y(l, circle, so) == circle.center.y * n - l.b * d + l.a * so;
    assert(n * t.x == n * o.x + (-l.b) * (st - so)) by (nonlinear_arith)
        requires crossing_num_x(l, circle, so) == n * o.x, crossing_num_x(l, circle, st) == n * t.x,
            crossing_num_x(l, circle, st) == circle.center.x * n - l.a * d - l.b * st,
            crossing_num_x(l, circle, so) == circle.center.x * n - l.a * d - l.b * so;
    assert(n * t.y == n * o.y + l.a * (st - so)) by (nonlinear_arith)
        requires crossing_num_y(l, circle, so) == n * o.y, crossing_num_y(l, circle, st) == n * t.y,
            crossing_num_y(l, circle, st) == circle.center.y * n - l.b * d + l.a * st,
            crossing_num_y(l, circle, so) == circle.center.y * n - l.b * d + l.a * so;
    lemma_floor_between(o.x as int, t.x as int, -l.b, so, st, sg, n);
    lemma_floor_between(o.y as int, t.y as int, l.a as int, so, st, sg, n);
    assert(in_box(o, t, p));
    if sg == s {
        assert(intersections(l, circle) == kept(l, p) + kept(l, crossing(l, circle, -s)));
        assert(kept(l, p).len() == 1);
    } else {
        assert(intersections(l, circle) == kept(l, crossing(l, circle, s)) + kept(l, p));
        assert(kept(l, p).len() == 1);
    }
}

/// A ray whose origin lies in the disc has no valid reflection: it is drawn
/// straight from its origin to its target.
pub proof fn lemma_origin_inside_is_straight(circle: Circle, origin: Dot, target: Dot, width: int, height: int)
    requires
        circle.contains(origin),
    ensures
        path_of(circle, origin, target, width, height) == (RayPath::Straight { from: origin, to: target }),
{
}

/// In one frame at most one control point takes hold of the pointer.
pub proof fn lemma_single_grab(ds: Seq<InteractiveDot>, p: Dot, pressed: bool, i: int, j: int)
    requires
        0 <= i < j < ds.len(),
    ensures
        !(grabs(ds[i], p, pressed, claimed_before(ds, p, pressed, i))
            && grabs(ds[j], p, pressed, claimed_before(ds, p, pressed, j))),
{
    if grabs(ds[i], p, pressed, claimed_before(ds, p, pressed, i)) {
        assert(hovered(ds[i], p));
        assert(claimed_before(ds, p, pressed, j));
    }
}

} // verus!
