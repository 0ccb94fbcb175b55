//! Circles, their intersections with lines, tangents and reflection.
use vstd::prelude::*;
use crate::GeomError;
use crate::arith::{div_floor_pos, floor_sqrt, is_floor_sqrt, lemma_floor_sqrt_unique, lemma_mul_abs_bound, lemma_quotient_bound};
use crate::dot::{dist_sq, nearest_of, Angle, Dot, SCREEN_LIMIT, WIDE_LIMIT};
use crate::line::{in_box, reflected, Line};

verus! {

/// A circle with its centre and radius.
#[derive(Clone, Copy, Debug, PartialEq, Eq, Structural)]
pub struct Circle {
    pub center: Dot,
    pub r: i128,
}

impl Circle {
    /// The radius is not negative, and centre and radius are screen-sized.
    pub open spec fn wf(self) -> bool {
        &&& self.center.within(SCREEN_LIMIT as int)
        &&& 0 <= self.r <= SCREEN_LIMIT
    }

    /// `p` lies in the closed disc.
    pub open spec fn contains(self, p: Dot) -> bool {
        dist_sq(p, self.center) <= self.r * self.r
    }

    pub fn new(center: Dot, r: i128) -> (res: Circle)
        requires
            center.within(SCREEN_LIMIT as int),
            0 <= r <= SCREEN_LIMIT,
        ensures
            res.center == center && res.r == r,
            res.wf(),
    {
        Circle { center, r }
    }

    /// `dot` lies in the closed disc: `|dot - center|² <= r²`.
    pub fn is_in_circle(&self, dot: Dot) -> (res: bool)
        requires
            self.wf(),
            dot.within(WIDE_LIMIT as int / 2),
        ensures
            res == self.contains(dot),
    {
        let d = crate::dot::distance_sq_between_dots(&dot, &self.center);
        proof {
            lemma_mul_abs_bound(self.r as int, self.r as int, SCREEN_LIMIT as int, SCREEN_LIMIT as int);
        }
        d <= self.r * self.r
    }

    /// The tangent at `dot`: the line from `dot` whose direction is the
    /// radius from `dot` to the centre turned by `-π/2`. Nothing checks that
    /// `dot` lies on the circle.
    pub fn get_tangent_line(&self, dot: Dot) -> (res: Line)
        requires
            self.wf(),
            dot.within(SCREEN_LIMIT as int),
        ensures
            res == tangent_at(*self, dot),
            res.wf(),
            res.ends_within(0x4_0000),
            res.normal_within(0x2_0000),
            (res.to.x - res.from.x) * (self.center.x - dot.x) + (res.to.y - res.from.y) * (self.center.y - dot.y) == 0,
            res.is_degenerate() <==> dot == self.center,
    {
        let radius_line = Line::new(&self.center, &dot);
        let tangent = radius_line.get_invert_line().get_rotated_line_by_angle(Angle::right());
        proof {
            let dx = self.center.x - dot.x;
            let dy = self.center.y - dot.y;
            assert(0i128 * 0i128 + (-1i128) * (-1i128) == 1) by (nonlinear_arith);
            assert(is_floor_sqrt(1, 1)) by (nonlinear_arith);
            crate::arith::lemma_isqrt_is(1, 1);
            assert(dx * 0 == 0 && dy * 0 == 0 && dy * -1 == -dy && dx * -1 == -dx) by (nonlinear_arith);
            crate::arith::lemma_div_sqrt_unit(dy);
            crate::arith::lemma_div_sqrt_unit(-dx);
            assert(dx * 0 - dy * -1 == dy && dx * -1 + dy * 0 == -dx);
            assert(tangent.to.x == dot.x + dy);
            assert(tangent.to.y == dot.y - dx);
            assert(dy * dx + (-dx) * dy == 0) by (nonlinear_arith);
            Line::lemma_through(dot, tangent.to, 0x4_0000);
        }
        tangent
    }

    /// The reflection of `line` off the circle at `intersection_dot`: the
    /// tangent there, used as a mirror for `line`.
    pub fn get_reflected_line_by_intersection_dot(&self, line: &Line, intersection_dot: Dot) -> (res: Result<Line, GeomError>)
        requires
            self.wf(),
            intersection_dot.within(SCREEN_LIMIT as int),
            line.normal_within(0x2_0000),
        ensures
            intersection_dot == self.center || line.is_degenerate()
                <==> res == Err::<Line, GeomError>(GeomError::DegenerateLine),
            res matches Err(e) ==> e == GeomError::DegenerateLine,
            !(intersection_dot == self.center || line.is_degenerate()) ==> res == Ok::<Line, GeomError>(
                reflected(tangent_at(*self, intersection_dot), *line),
            ),
            res matches Ok(l) ==> l.wf(),
    {
        let tangent = self.get_tangent_line(intersection_dot);
        tangent.get_reflected_line(line)
    }

    /// The ray `line` reflected off the circle: nothing when the line is
    /// degenerate, meets the circle nowhere in the box of its two points, or
    /// meets it first at the centre (a circle of radius zero); else the
    /// reflection at the crossing nearest to the line's `from`.
    pub fn get_reflected_line(&self, line: &Line) -> (res: Option<Line>)
        requires
            self.wf(),
            line.wf(),
            line.ends_within(SCREEN_LIMIT as int),
        ensures
            res == reflection_of(*self, *line),
            res matches Some(l) ==> l.wf(),
    {
        let dots = match line_circle_intersection(line, self) {
            Ok(v) => v,
            Err(_) => {
                return None;
            },
        };
        if dots.len() == 0 {
            return None;
        }
        proof {
            assert forall|i: int| 0 <= i < dots@.len() implies (#[trigger] dots@[i]).within(SCREEN_LIMIT as int) by {
                lemma_intersections_in_box(*line, *self, i);
            }
        }
        proof {
            Line::lemma_through(line.from, line.to, SCREEN_LIMIT as int);
        }
        let (from_line_dot, _) = line.get_from_to();
        let near_dot = match from_line_dot.nearest_dot(&dots) {
            Ok(d) => d,
            Err(_) => {
                return None;
            },
        };
        proof {
            let i = choose|i: int| 0 <= i < dots@.len() && dots@[i] == near_dot;
            assert(dots@[i] == near_dot);
        }
        match self.get_reflected_line_by_intersection_dot(line, near_dot) {
            Ok(l) => Some(l),
            Err(_) => None,
        }
    }
}

/// The tangent line at `p`: from `p` to `p + (cy - py, -(cx - px))`.
pub open spec fn tangent_at(circle: Circle, p: Dot) -> Line {
    Line::through(
        p,
        Dot {
            x: (p.x + (circle.center.y - p.y)) as i128,
            y: (p.y - (circle.center.x - p.x)) as i128,
        },
    )
}

/// What `Circle::get_reflected_line` returns.
pub open spec fn reflection_of(circle: Circle, l: Line) -> Option<Line> {
    let pts = intersections(l, circle);
    if l.is_degenerate() || pts.len() == 0 {
        None
    } else {
        let p = nearest_of(l.from, pts);
        if p == circle.center {
            None
        } else {
            Some(reflected(tangent_at(circle, p), l))
        }
    }
}

/// Every crossing point lies in the box of the line's two points.
pub proof fn lemma_intersections_in_box(l: Line, circle: Circle, i: int)
    requires
        0 <= i < intersections(l, circle).len(),
    ensures
        in_box(l.from, l.to, intersections(l, circle)[i]),
        intersections(l, circle).len() <= 2,
{
    let disc = discriminant(l, circle);
    if disc > 0 {
        let s = root(l, circle);
        let k1 = kept(l, crossing(l, circle, s));
        let k2 = kept(l, crossing(l, circle, -s));
        if i < k1.len() {
            assert(intersections(l, circle)[i] == k1[i]);
        } else {
            assert(intersections(l, circle)[i] == k2[i - k1.len()]);
        }
    }
}

/// `a² + b²`, the squared length of the line's normal.
pub open spec fn norm_sq(l: Line) -> int {
    l.a * l.a + l.b * l.b
}

/// `a·cx + b·cy + c`: the signed distance from the centre to the line,
/// times the length of the normal.
pub open spec fn offset(l: Line, circle: Circle) -> int {
    l.a * circle.center.x + l.b * circle.center.y + l.c
}

/// `r²·(a² + b²) - offset²`: negative when the line misses the circle, zero
/// when it touches it, positive when it cuts it.
pub open spec fn discriminant(l: Line, circle: Circle) -> int {
    circle.r * circle.r * norm_sq(l) - offset(l, circle) * offset(l, circle)
}

/// The numerator of the `x` coordinate of a crossing point over the
/// denominator `a² + b²`: the foot of the perpendicular from the centre,
/// moved by `s / (a² + b²)` along the line's direction `(-b, a)`.
pub open spec fn crossing_num_x(l: Line, circle: Circle, s: int) -> int {
    circle.center.x * norm_sq(l) - l.a * offset(l, circle) - l.b * s
}

/// The numerator of the `y` coordinate; see `crossing_num_x`.
pub open spec fn crossing_num_y(l: Line, circle: Circle, s: int) -> int {
    circle.center.y * norm_sq(l) - l.b * offset(l, circle) + l.a * s
}

/// The crossing point for the shift `s`, both coordinates rounded down.
pub open spec fn crossing(l: Line, circle: Circle, s: int) -> Dot {
    Dot {
        x: (crossing_num_x(l, circle, s) / norm_sq(l)) as i128,
        y: (crossing_num_y(l, circle, s) / norm_sq(l)) as i128,
    }
}

/// `p` alone if it lies in the box of the line's two points, else nothing.
pub open spec fn kept(l: Line, p: Dot) -> Seq<Dot> {
    if in_box(l.from, l.to, p) {
        seq![p]
    } else {
        seq![]
    }
}

/// The points where `l` meets `circle`, among those in the box of the
/// line's two points: none when the discriminant is negative; the foot of
/// the perpendicular when it is zero; else the two points at the shift
/// `±s`, `s` the floor of the discriminant's square root, `+s` first.
pub open spec fn intersections(l: Line, circle: Circle) -> Seq<Dot> {
    let disc = discriminant(l, circle);
    if disc < 0 {
        seq![]
    } else if disc == 0 {
        kept(l, crossing(l, circle, 0))
    } else {
        let s = root(l, circle);
        kept(l, crossing(l, circle, s)) + kept(l, crossing(l, circle, -s))
    }
}

/// The floor square root of a positive discriminant (else 0).
pub open spec fn root(l: Line, circle: Circle) -> int {
    let disc = discriminant(l, circle);
    if disc > 0 {
        choose|s: int| #[trigger] is_floor_sqrt(disc, s)
    } else {
        0
    }
}

/// For a line and a circle of screen size, the quantities of the crossing
/// computation stay small, and the crossing points are the exact floors of
/// their numerators over `a² + b²`.
pub proof fn lemma_crossing_in_range(l: Line, circle: Circle, s: int)
    requires
        l.wf(),
        l.ends_within(SCREEN_LIMIT as int),
        circle.wf(),
        !l.is_degenerate(),
        -0x8_0000_0000 <= s <= 0x8_0000_0000,
    ensures
        norm_sq(l) > 0,
        discriminant(l, circle) <= 0x1_0000_0000 * 0x8_0000_0000,
        crossing(l, circle, s).x == crossing_num_x(l, circle, s) / norm_sq(l),
        crossing(l, circle, s).y == crossing_num_y(l, circle, s) / norm_sq(l),
{
    let m = SCREEN_LIMIT as int;
    let a = l.a as int;
    let b = l.b as int;
    Line::lemma_through(l.from, l.to, m);
    lemma_mul_abs_bound(l.from.x as int, l.to.y as int, m, m);
    lemma_mul_abs_bound(l.to.x as int, l.from.y as int, m, m);
    lemma_mul_abs_bound(a, a, 2 * m, 2 * m);
    lemma_mul_abs_bound(b, b, 2 * m, 2 * m);
    lemma_mul_abs_bound(a, circle.center.x as int, 2 * m, m);
    lemma_mul_abs_bound(b, circle.center.y as int, 2 * m, m);
    lemma_mul_abs_bound(circle.r as int, circle.r as int, m, m);
    let n = norm_sq(l);
    let d = offset(l, circle);
    assert(n > 0) by (nonlinear_arith)
        requires n == a * a + b * b, !(a == 0 && b == 0);
    assert(a * a >= 0 && b * b >= 0 && d * d >= 0 && circle.r * circle.r >= 0) by (nonlinear_arith);
    assert(discriminant(l, circle) <= 0x1_0000_0000 * 0x8_0000_0000) by (nonlinear_arith)
        requires
            discriminant(l, circle) == circle.r * circle.r * n - d * d,
            d * d >= 0,
            0 <= circle.r * circle.r <= 0x1_0000_0000,
            0 < n <= 0x8_0000_0000;
    lemma_mul_abs_bound(circle.center.x as int, n, m, 0x8_0000_0000);
    lemma_mul_abs_bound(circle.center.y as int, n, m, 0x8_0000_0000);
    lemma_mul_abs_bound(a, d, 2 * m, 0x10_0000_0000);
    lemma_mul_abs_bound(b, d, 2 * m, 0x10_0000_0000);
    lemma_mul_abs_bound(a, s, 2 * m, 0x8_0000_0000);
    lemma_mul_abs_bound(b, s, 2 * m, 0x8_0000_0000);
    let xn = crossing_num_x(l, circle, s);
    let yn = crossing_num_y(l, circle, s);
    lemma_quotient_bound(xn, n);
    lemma_quotient_bound(yn, n);
}

/// The crossing point for the shift `s`, computed.
fn crossing_dot(line: &Line, circle: &Circle, n: i128, d: i128, s: i128) -> (r: Dot)
    requires
        line.normal_within(0x2_0000),
        circle.wf(),
        n == norm_sq(*line),
        n > 0,
        n <= 0x8_0000_0000,
        d == offset(*line, *circle),
        -0x10_0000_0000 <= d <= 0x10_0000_0000,
        -0x8_0000_0000 <= s <= 0x8_0000_0000,
    ensures
        r == crossing(*line, *circle, s as int),
{
    proof {
        lemma_mul_abs_bound(circle.center.x as int, n as int, 0x1_0000, 0x8_0000_0000);
        lemma_mul_abs_bound(circle.center.y as int, n as int, 0x1_0000, 0x8_0000_0000);
        lemma_mul_abs_bound(line.a as int, d as int, 0x2_0000, 0x10_0000_0000);
        lemma_mul_abs_bound(line.b as int, d as int, 0x2_0000, 0x10_0000_0000);
        lemma_mul_abs_bound(line.a as int, s as int, 0x2_0000, 0x8_0000_0000);
        lemma_mul_abs_bound(line.b as int, s as int, 0x2_0000, 0x8_0000_0000);
    }
    let x = div_floor_pos(circle.center.x * n - line.a * d - line.b * s, n);
    let y = div_floor_pos(circle.center.y * n - line.b * d + line.a * s, n);
    Dot { x, y }
}

/// The points where `line` meets `circle`, inside the box of the line's two
/// points (see `intersections`). The discriminant is exact, so a line that
/// touches the circle gives one point and a line that misses it none.
pub fn line_circle_intersection(line: &Line, circle: &Circle) -> (r: Result<Vec<Dot>, GeomError>)
    requires
        line.wf(),
        line.ends_within(SCREEN_LIMIT as int),
        circle.wf(),
    ensures
        line.is_degenerate() <==> r == Err::<Vec<Dot>, GeomError>(GeomError::DegenerateLine),
        r matches Err(e) ==> e == GeomError::DegenerateLine,
        r matches Ok(v) ==> v@ == intersections(*line, *circle),
{
    if line.a == 0 && line.b == 0 {
        return Err(GeomError::DegenerateLine);
    }
    let mut out: Vec<Dot> = Vec::new();
    let (a, b, c) = line.get_abc();
    let (x, y, r) = (circle.center.x, circle.center.y, circle.r);
    proof {
        let m = SCREEN_LIMIT as int;
        Line::lemma_through(line.from, line.to, m);
        lemma_mul_abs_bound(line.from.x as int, line.to.y as int, m, m);
        lemma_mul_abs_bound(line.to.x as int, line.from.y as int, m, m);
        lemma_mul_abs_bound(a as int, a as int, 2 * m, 2 * m);
        lemma_mul_abs_bound(b as int, b as int, 2 * m, 2 * m);
        lemma_mul_abs_bound(a as int, x as int, 2 * m, m);
        lemma_mul_abs_bound(b as int, y as int, 2 * m, m);
        lemma_mul_abs_bound(r as int, r as int, m, m);
        assert(a * a + b * b > 0) by (nonlinear_arith)
            requires !(a == 0 && b == 0);
        assert(a * a >= 0 && b * b >= 0 && r * r >= 0) by (nonlinear_arith);
    }
    let n = a * a + b * b;
    let d = a * x + b * y + c;
    proof {
        lemma_mul_abs_bound(d as int, d as int, 0x10_0000_0000, 0x10_0000_0000);
        lemma_mul_abs_bound((r * r) as int, n as int, 0x1_0000_0000, 0x8_0000_0000);
        assert(r * r * n >= 0) by (nonlinear_arith)
            requires r * r >= 0, n > 0;
    }
    let discr = r * r * n - d * d;
    if discr < 0 {
        proof {
            assert(out@ =~= intersections(*line, *circle));
        }
        return Ok(out);
    }
    if discr == 0 {
        let p = crossing_dot(line, circle, n, d, 0);
        if line.is_dot_have_same_range(p) {
            out.push(p);
        }
        proof {
            assert(out@ =~= intersections(*line, *circle));
        }
        return Ok(out);
    }
    proof {
        assert(d * d >= 0) by (nonlinear_arith);
        assert(discr <= 0x1_0000_0000 * 0x8_0000_0000) by (nonlinear_arith)
            requires discr == r * r * n - d * d, d * d >= 0, r * r <= 0x1_0000_0000, 0 < n <= 0x8_0000_0000;
    }
    let su = floor_sqrt(discr as u128);
    proof {
        assert(su <= 0x8_0000_0000) by (nonlinear_arith)
            requires su * su <= discr, discr <= 0x1_0000_0000 * 0x8_0000_0000, su >= 0;
    }
    let s = su as i128;
    proof {
        assert(is_floor_sqrt(discr as int, s as int));
        lemma_floor_sqrt_unique(discr as int, s as int, root(*line, *circle));
    }
    let p1 = crossing_dot(line, circle, n, d, s);
    let p2 = crossing_dot(line, circle, n, d, -s);
    if line.is_dot_have_same_range(p1) {
        out.push(p1);
    }
    let ghost first = out@;
    if line.is_dot_have_same_range(p2) {
        out.push(p2);
    }
    proof {
        assert(first =~= kept(*line, p1));
        assert(out@ =~= first + kept(*line, p2));
    }
    Ok(out)
}

} // verus!
