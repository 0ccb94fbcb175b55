//! Lines in general form `a·x + b·y + c = 0`, each carrying the two points
//! that define it.
use vstd::prelude::*;
use crate::GeomError;
use crate::arith::{
    abs, div_floor, div_floor_pos, floor_div, gcd3, gcd_u128, lemma_exact_div, lemma_gcd3_divides, lemma_mul_abs_bound,
};
use crate::dot::{Angle, Dot, SCREEN_LIMIT, WIDE_LIMIT};

verus! {

/// The coefficient `a` of the line through `p` and `q`.
pub open spec fn coef_a(p: Dot, q: Dot) -> int {
    p.y - q.y
}

/// The coefficient `b` of the line through `p` and `q`.
pub open spec fn coef_b(p: Dot, q: Dot) -> int {
    q.x - p.x
}

/// The coefficient `c` of the line through `p` and `q`.
pub open spec fn coef_c(p: Dot, q: Dot) -> int {
    p.x * q.y - q.x * p.y
}

/// `p` lies inside the axis-aligned box with opposite corners `from` and `to`
/// (the box's edges included).
pub open spec fn in_box(from: Dot, to: Dot, p: Dot) -> bool {
    &&& (from.x <= p.x <= to.x || to.x <= p.x <= from.x)
    &&& (from.y <= p.y <= to.y || to.y <= p.y <= from.y)
}

/// The positive common factor divided out of the coefficients of the line
/// through `p` and `q` (zero when `p == q`).
pub open spec fn line_gcd(p: Dot, q: Dot) -> nat {
    gcd3(abs(coef_a(p, q)) as nat, abs(coef_b(p, q)) as nat, abs(coef_c(p, q)) as nat)
}

/// A coefficient divided by the common factor `g` (left as it is when
/// `g == 0`, where every coefficient is zero).
pub open spec fn reduced(raw: int, g: nat) -> int {
    if g == 0 {
        raw
    } else {
        raw / (g as int)
    }
}

/// A line `a·x + b·y + c = 0` through the points `from` and `to`. The
/// coefficients are `(y1 - y2, x2 - x1, x1·y2 - x2·y1)` divided by their
/// greatest common divisor, a positive number, so every sign is kept and
/// the triple is the canonical primitive one: `(1, 2, -900)` for the line
/// from `(100, 400)` to `(300, 300)`, and `a` is `0` or `±1` whenever `|a|`
/// divides `b` and `c`. The direction of the line is from `from` to `to`;
/// its normal `(a, b)` is that direction turned by a right angle.
#[derive(Clone, Copy, Debug, PartialEq, Eq, Structural)]
pub struct Line {
    pub a: i128,
    pub b: i128,
    pub c: i128,
    pub from: Dot,
    pub to: Dot,
}

impl Line {
    /// The coefficients are those of the line through `from` and `to`, and
    /// both points lie in the range where that is computable.
    pub open spec fn wf(self) -> bool {
        &&& self.from.within(WIDE_LIMIT as int)
        &&& self.to.within(WIDE_LIMIT as int)
        &&& self == Line::through(self.from, self.to)
    }

    /// `p` satisfies the line's equation.
    pub open spec fn on_line(self, p: Dot) -> bool {
        self.a * p.x + self.b * p.y + self.c == 0
    }

    /// `a == 0 && b == 0`: no direction, no angle.
    pub open spec fn is_degenerate(self) -> bool {
        self.a == 0 && self.b == 0
    }

    /// Both defining points lie in `[-m, m]²`.
    pub open spec fn ends_within(self, m: int) -> bool {
        self.from.within(m) && self.to.within(m)
    }

    /// `a` and `b` lie in `[-m, m]`.
    pub open spec fn normal_within(self, m: int) -> bool {
        -m <= self.a <= m && -m <= self.b <= m
    }

    /// The line through `from` and `to`.
    pub open spec fn through(from: Dot, to: Dot) -> Line {
        let g = line_gcd(from, to);
        Line {
            a: reduced(coef_a(from, to), g) as i128,
            b: reduced(coef_b(from, to), g) as i128,
            c: reduced(coef_c(from, to), g) as i128,
            from,
            to,
        }
    }

    /// What the line through two points in `[-m, m]²` is made of: the raw
    /// coefficients are the reduced ones times the common factor, both
    /// points satisfy the equation, the reduced coefficients are no larger
    /// than the raw ones, and the line is degenerate exactly when the points
    /// coincide.
    pub proof fn lemma_through(p: Dot, q: Dot, m: int)
        requires
            0 <= m <= WIDE_LIMIT,
            p.within(m),
            q.within(m),
        ensures
            ({
                let l = Line::through(p, q);
                let g = line_gcd(p, q) as int;
                &&& g == 0 <==> p == q
                &&& g == 0 ==> l.a == 0 && l.b == 0 && l.c == 0
                &&& coef_a(p, q) == g * l.a
                &&& coef_b(p, q) == g * l.b
                &&& coef_c(p, q) == g * l.c
                &&& abs(l.a as int) <= abs(coef_a(p, q))
                &&& abs(l.b as int) <= abs(coef_b(p, q))
                &&& abs(l.c as int) <= abs(coef_c(p, q))
                &&& -2 * m <= l.a <= 2 * m
                &&& -2 * m <= l.b <= 2 * m
                &&& -2 * (m * m) <= l.c <= 2 * (m * m)
                &&& l.on_line(p)
                &&& l.on_line(q)
                &&& l.is_degenerate() <==> p == q
            }),
    {
        lemma_mul_abs_bound(p.x as int, q.y as int, m, m);
        lemma_mul_abs_bound(q.x as int, p.y as int, m, m);
        assert(m * m <= WIDE_LIMIT * WIDE_LIMIT) by (nonlinear_arith)
            requires 0 <= m <= WIDE_LIMIT;
        let ra = coef_a(p, q);
        let rb = coef_b(p, q);
        let rc = coef_c(p, q);
        let (ka, kb, kc) = lemma_gcd3_divides(abs(ra) as nat, abs(rb) as nat, abs(rc) as nat);
        let g = line_gcd(p, q) as int;
        assert(ra * p.x + rb * p.y + rc == 0 && ra * q.x + rb * q.y + rc == 0) by (nonlinear_arith)
            requires ra == p.y - q.y, rb == q.x - p.x, rc == p.x * q.y - q.x * p.y;
        if g == 0 {
            assert(ra == 0 && rb == 0 && rc == 0);
            assert(p == q);
        } else {
            let sa = if ra < 0 { -ka } else { ka };
            let sb = if rb < 0 { -kb } else { kb };
            let sc = if rc < 0 { -kc } else { kc };
            assert(ra == g * sa && rb == g * sb && rc == g * sc) by (nonlinear_arith)
                requires
                    abs(ra) == g * ka, abs(rb) == g * kb, abs(rc) == g * kc,
                    sa == if ra < 0 { -ka } else { ka },
                    sb == if rb < 0 { -kb } else { kb },
                    sc == if rc < 0 { -kc } else { kc },
                    abs(ra) == if ra < 0 { -ra } else { ra },
                    abs(rb) == if rb < 0 { -rb } else { rb },
                    abs(rc) == if rc < 0 { -rc } else { rc };
            lemma_exact_div(ra, g, sa);
            lemma_exact_div(rb, g, sb);
            lemma_exact_div(rc, g, sc);
            let l = Line::through(p, q);
            assert(g == line_gcd(p, q) as int);
            assert(reduced(ra, line_gcd(p, q)) == sa);
            assert(reduced(rb, line_gcd(p, q)) == sb);
            assert(reduced(rc, line_gcd(p, q)) == sc);
            assert(l.a == sa && l.b == sb && l.c == sc);
            assert(sa * p.x + sb * p.y + sc == 0) by (nonlinear_arith)
                requires ra * p.x + rb * p.y + rc == 0, ra == g * sa, rb == g * sb, rc == g * sc, g > 0;
            assert(sa * q.x + sb * q.y + sc == 0) by (nonlinear_arith)
                requires ra * q.x + rb * q.y + rc == 0, ra == g * sa, rb == g * sb, rc == g * sc, g > 0;
            assert(sa == 0 <==> ra == 0) by (nonlinear_arith)
                requires ra == g * sa, g > 0;
            assert(sb == 0 <==> rb == 0) by (nonlinear_arith)
                requires rb == g * sb, g > 0;
            if p == q {
                assert(ra == 0 && rb == 0 && rc == 0);
            }
        }
    }

    /// The line through the same points taken the other way round has the
    /// negated coefficients.
    pub proof fn lemma_through_reversed(p: Dot, q: Dot)
        requires
            p.within(WIDE_LIMIT as int),
            q.within(WIDE_LIMIT as int),
        ensures
            Line::through(q, p).a == -Line::through(p, q).a,
            Line::through(q, p).b == -Line::through(p, q).b,
            Line::through(q, p).c == -Line::through(p, q).c,
    {
        Line::lemma_through(p, q, WIDE_LIMIT as int);
        Line::lemma_through(q, p, WIDE_LIMIT as int);
        assert(coef_c(q, p) == -coef_c(p, q)) by (nonlinear_arith);
        assert(line_gcd(q, p) == line_gcd(p, q));
        let g = line_gcd(p, q) as int;
        let l = Line::through(p, q);
        let r = Line::through(q, p);
        if g > 0 {
            assert(r.a == -l.a) by (nonlinear_arith)
                requires g * r.a == -(g * l.a), g > 0;
            assert(r.b == -l.b) by (nonlinear_arith)
                requires g * r.b == -(g * l.b), g > 0;
            assert(r.c == -l.c) by (nonlinear_arith)
                requires g * r.c == -(g * l.c), g > 0;
        }
    }

    /// The coefficients `(a, b, c)` of the line through `from` and `to`,
    /// reduced by their greatest common divisor.
    pub fn get_abc_from_dots(from: &Dot, to: &Dot) -> (r: (i128, i128, i128))
        requires
            from.within(WIDE_LIMIT as int),
            to.within(WIDE_LIMIT as int),
        ensures
            r.0 == Line::through(*from, *to).a,
            r.1 == Line::through(*from, *to).b,
            r.2 == Line::through(*from, *to).c,
    {
        proof {
            lemma_mul_abs_bound(from.x as int, to.y as int, WIDE_LIMIT as int, WIDE_LIMIT as int);
            lemma_mul_abs_bound(to.x as int, from.y as int, WIDE_LIMIT as int, WIDE_LIMIT as int);
            Line::lemma_through(*from, *to, WIDE_LIMIT as int);
        }
        let a = from.y - to.y;
        let b = to.x - from.x;
        let c = from.x * to.y - to.x * from.y;
        let ua = (if a < 0 { -a } else { a }) as u128;
        let ub = (if b < 0 { -b } else { b }) as u128;
        let uc = (if c < 0 { -c } else { c }) as u128;
        let g = gcd_u128(gcd_u128(ua, ub), uc);
        if g == 0 {
            return (a, b, c);
        }
        proof {
            let (ka, kb, kc) = crate::arith::lemma_gcd3_divides(ua as nat, ub as nat, uc as nat);
            assert(ua == 0 || g <= ua) by (nonlinear_arith)
                requires ua == g * ka, g > 0, ua >= 0;
            assert(ub == 0 || g <= ub) by (nonlinear_arith)
                requires ub == g * kb, g > 0, ub >= 0;
            assert(uc == 0 || g <= uc) by (nonlinear_arith)
                requires uc == g * kc, g > 0, uc >= 0;
        }
        let gi = g as i128;
        (div_floor_pos(a, gi), div_floor_pos(b, gi), div_floor_pos(c, gi))
    }

    /// The line through `from` and `to`.
    pub fn new(from: &Dot, to: &Dot) -> (r: Line)
        requires
            from.within(WIDE_LIMIT as int),
            to.within(WIDE_LIMIT as int),
        ensures
            r == Line::through(*from, *to),
            r.wf(),
    {
        let (a, b, c) = Line::get_abc_from_dots(from, to);
        Line { a, b, c, from: *from, to: *to }
    }

    pub fn get_abc(&self) -> (r: (i128, i128, i128))
        ensures
            r == (self.a, self.b, self.c),
    {
        (self.a, self.b, self.c)
    }

    /// The two points that define the line, `(from, to)`.
    pub fn get_from_to(&self) -> (r: (Dot, Dot))
        ensures
            r == (self.from, self.to),
    {
        (self.from, self.to)
    }

    /// The line's angle `acos(b / sqrt(a² + b²))`, in `[0, π]`: the angle
    /// whose direction vector is `(b, |a|)`.
    pub fn get_angle(&self) -> (r: Result<Angle, GeomError>)
        requires
            self.wf(),
        ensures
            self.is_degenerate() <==> r == Err::<Angle, GeomError>(GeomError::DegenerateLine),
            r matches Err(e) ==> e == GeomError::DegenerateLine,
            !self.is_degenerate() ==> r == Ok::<Angle, GeomError>(
                Angle { cos: self.b, sin: (if self.a < 0 { -self.a } else { self.a as int }) as i128 },
            ),
    {
        if self.a == 0 && self.b == 0 {
            return Err(GeomError::DegenerateLine);
        }
        proof {
            Line::lemma_through(self.from, self.to, WIDE_LIMIT as int);
        }
        let sin = if self.a < 0 { -self.a } else { self.a };
        Ok(Angle { cos: self.b, sin })
    }

    /// The angle between the normals of `self` and `line`, in `[0, π]`: the
    /// angle whose direction vector is `(a1·a2 + b1·b2, |a1·b2 - a2·b1|)`.
    pub fn get_angle_with_line(&self, line: &Line) -> (r: Result<Angle, GeomError>)
        requires
            self.normal_within(0x4000_0000_0000_0000),
            line.normal_within(0x4000_0000_0000_0000),
        ensures
            self.is_degenerate() || line.is_degenerate()
                <==> r == Err::<Angle, GeomError>(GeomError::DegenerateLine),
            r matches Err(e) ==> e == GeomError::DegenerateLine,
            !(self.is_degenerate() || line.is_degenerate()) ==> r == Ok::<Angle, GeomError>(
                angle_between(*self, *line),
            ),
    {
        if (self.a == 0 && self.b == 0) || (line.a == 0 && line.b == 0) {
            return Err(GeomError::DegenerateLine);
        }
        proof {
            let m = 0x4000_0000_0000_0000int;
            lemma_mul_abs_bound(self.a as int, line.a as int, m, m);
            lemma_mul_abs_bound(self.b as int, line.b as int, m, m);
            lemma_mul_abs_bound(self.a as int, line.b as int, m, m);
            lemma_mul_abs_bound(line.a as int, self.b as int, m, m);
        }
        let cos = self.a * line.a + self.b * line.b;
        let cross = self.a * line.b - line.a * self.b;
        let sin = if cross < 0 { -cross } else { cross };
        Ok(Angle { cos, sin })
    }

    /// The line from the same `from` whose `to` is the old `to` turned about
    /// `from` by `-angle` (see `Dot::rotated_about`: the distance from `from`
    /// is kept up to rounding).
    pub fn get_rotated_line_by_angle(&self, angle: Angle) -> (r: Line)
        requires
            self.ends_within(0x10_0000),
            angle.valid(),
        ensures
            r == Line::through(self.from, self.to.rotated_about(self.from, angle.neg_spec())),
            r.wf(),
    {
        let neg = angle.neg();
        let new_to = self.to.get_rotated_relative_dot(&self.from, neg);
        proof {
            let dx = self.to.x - self.from.x;
            let dy = self.to.y - self.from.y;
            let m = 0x80_0000_0000int;
            lemma_mul_abs_bound(dx, neg.cos as int, 0x20_0000, m);
            lemma_mul_abs_bound(dy, neg.sin as int, 0x20_0000, m);
            lemma_mul_abs_bound(dx, neg.sin as int, 0x20_0000, m);
            lemma_mul_abs_bound(dy, neg.cos as int, 0x20_0000, m);
            assert(new_to.within(WIDE_LIMIT as int));
        }
        Line::new(&self.from, &new_to)
    }

    /// The point of the line at height `y`: `x = floor((-b·y - c) / a)`.
    pub fn get_dot_from_y(&self, y: i128) -> (r: Dot)
        requires
            self.wf(),
            self.a != 0,
            -SCREEN_LIMIT <= y <= SCREEN_LIMIT,
        ensures
            r == dot_at_y(*self, y as int),
    {
        proof {
            Line::lemma_through(self.from, self.to, WIDE_LIMIT as int);
            lemma_mul_abs_bound(self.from.x as int, self.to.y as int, WIDE_LIMIT as int, WIDE_LIMIT as int);
            lemma_mul_abs_bound(self.to.x as int, self.from.y as int, WIDE_LIMIT as int, WIDE_LIMIT as int);
        }
        let nb = -self.b;
        proof {
            lemma_mul_abs_bound(nb as int, y as int, 2 * WIDE_LIMIT as int, SCREEN_LIMIT as int);
        }
        let x = div_floor(nb * y - self.c, self.a);
        Dot { x, y }
    }

    /// The two points where the unbounded line meets the edges of a viewport
    /// `[0, width] × [0, height]`. A horizontal line (`a == 0`) meets the
    /// edges `x = 0` and `x = width`; any other line meets `y = 0` and
    /// `y = height`, and `from` is the point at `y = 0` when `a < 0`, the one
    /// at `y = height` when `a > 0`.
    pub fn get_default_from_to(&self, width: i128, height: i128) -> (r: Result<(Dot, Dot), GeomError>)
        requires
            self.wf(),
            0 <= width <= SCREEN_LIMIT,
            0 <= height <= SCREEN_LIMIT,
        ensures
            self.is_degenerate() <==> r == Err::<(Dot, Dot), GeomError>(GeomError::DegenerateLine),
            r matches Err(e) ==> e == GeomError::DegenerateLine,
            !self.is_degenerate() ==> r == Ok::<(Dot, Dot), GeomError>(
                viewport_ends(*self, width as int, height as int),
            ),
    {
        if self.a == 0 && self.b == 0 {
            return Err(GeomError::DegenerateLine);
        }
        if self.a == 0 {
            proof {
                Line::lemma_through(self.from, self.to, WIDE_LIMIT as int);
                lemma_mul_abs_bound(self.from.x as int, self.to.y as int, WIDE_LIMIT as int, WIDE_LIMIT as int);
                lemma_mul_abs_bound(self.to.x as int, self.from.y as int, WIDE_LIMIT as int, WIDE_LIMIT as int);
            }
            let y = div_floor(-self.c, self.b);
            Ok((Dot { x: 0, y }, Dot { x: width, y }))
        } else if self.a < 0 {
            Ok((self.get_dot_from_y(0), self.get_dot_from_y(height)))
        } else {
            Ok((self.get_dot_from_y(height), self.get_dot_from_y(0)))
        }
    }

    /// The same points in the opposite direction: the line from `to` to
    /// `from`, whose coefficients are the negated ones.
    pub fn get_invert_line(&self) -> (r: Line)
        requires
            self.wf(),
        ensures
            r == Line::through(self.to, self.from),
            r.wf(),
            r.a == -self.a && r.b == -self.b && r.c == -self.c,
    {
        proof {
            Line::lemma_through_reversed(self.from, self.to);
        }
        Line::new(&self.to, &self.from)
    }

    /// `dot` lies in the box spanned by `from` and `to`, whatever their
    /// relative position.
    pub fn is_dot_have_same_range(&self, dot: Dot) -> (r: bool)
        ensures
            r == in_box(self.from, self.to, dot),
    {
        let from = self.from;
        let to = self.to;
        (from.x <= dot.x && from.y >= dot.y && to.x >= dot.x && to.y <= dot.y)
            || (from.x >= dot.x && from.y >= dot.y && to.x <= dot.x && to.y <= dot.y)
            || (from.x <= dot.x && from.y <= dot.y && to.x >= dot.x && to.y >= dot.y)
            || (from.x >= dot.x && from.y <= dot.y && to.x <= dot.x && to.y >= dot.y)
    }

    /// The line through `dot` parallel to `self` and directed as it: from
    /// `dot` to `dot + (b, -a)`. Its coefficients are proportional to
    /// `(a, b, -a·x - b·y)`.
    pub fn get_moved_to_dot_line(&self, dot: Dot) -> (r: Line)
        requires
            self.wf(),
            self.normal_within(0x10_0000),
            dot.within(0x10_0000),
        ensures
            r.wf(),
            r == Line::through(dot, Dot { x: (dot.x + self.b) as i128, y: (dot.y - self.a) as i128 }),
            r.on_line(dot),
            r.a * self.b == r.b * self.a,
            r.a * (-self.a * dot.x - self.b * dot.y) == r.c * self.a,
            r.b * (-self.a * dot.x - self.b * dot.y) == r.c * self.b,
    {
        let to = Dot { x: dot.x + self.b, y: dot.y - self.a };
        let r = Line::new(&dot, &to);
        proof {
            Line::lemma_through(dot, to, 0x20_0000);
            let g = line_gcd(dot, to) as int;
            let (a, b) = (self.a as int, self.b as int);
            let c2 = -a * dot.x - b * dot.y;
            assert(coef_c(dot, to) == c2) by (nonlinear_arith)
                requires
                    to.x == dot.x + b,
                    to.y == dot.y - a,
                    coef_c(dot, to) == dot.x * to.y - to.x * dot.y,
                    c2 == -a * dot.x - b * dot.y;
            assert(r.a * b == r.b * a && r.a * c2 == r.c * a && r.b * c2 == r.c * b) by (nonlinear_arith)
                requires a == g * r.a, b == g * r.b, c2 == g * r.c;
        }
        r
    }

    /// `self` taken as a mirror: turned about its `from` by the angle between
    /// the normals of `line` and `self`. When `self` is the tangent at the
    /// point where `line` meets a circle, the result runs along the reflected
    /// ray.
    pub fn get_reflected_line(&self, line: &Line) -> (r: Result<Line, GeomError>)
        requires
            self.ends_within(0x10_0000),
            self.normal_within(0x4_0000),
            line.normal_within(0x4_0000),
        ensures
            self.is_degenerate() || line.is_degenerate()
                <==> r == Err::<Line, GeomError>(GeomError::DegenerateLine),
            r matches Err(e) ==> e == GeomError::DegenerateLine,
            !(self.is_degenerate() || line.is_degenerate()) ==> r == Ok::<Line, GeomError>(
                reflected(*self, *line),
            ),
            r matches Ok(l) ==> l.wf(),
    {
        let target_angle = line.get_angle_with_line(self)?;
        proof {
            let (a1, b1, a2, b2) = (line.a as int, line.b as int, self.a as int, self.b as int);
            let dt = a1 * a2 + b1 * b2;
            let cr = a1 * b2 - a2 * b1;
            assert(a1 * dt - b1 * cr == a2 * (a1 * a1 + b1 * b1)) by (nonlinear_arith)
                requires dt == a1 * a2 + b1 * b2, cr == a1 * b2 - a2 * b1;
            assert(b1 * dt + a1 * cr == b2 * (a1 * a1 + b1 * b1)) by (nonlinear_arith)
                requires dt == a1 * a2 + b1 * b2, cr == a1 * b2 - a2 * b1;
            assert(a1 * a1 + b1 * b1 > 0) by (nonlinear_arith)
                requires !(a1 == 0 && b1 == 0);
            if dt == 0 && cr == 0 {
                assert(a2 == 0) by (nonlinear_arith)
                    requires 0 == a2 * (a1 * a1 + b1 * b1), a1 * a1 + b1 * b1 > 0;
                assert(b2 == 0) by (nonlinear_arith)
                    requires 0 == b2 * (a1 * a1 + b1 * b1), a1 * a1 + b1 * b1 > 0;
            }
            let m = 0x4_0000int;
            lemma_mul_abs_bound(self.a as int, line.a as int, m, m);
            lemma_mul_abs_bound(self.b as int, line.b as int, m, m);
            lemma_mul_abs_bound(self.a as int, line.b as int, m, m);
            lemma_mul_abs_bound(line.a as int, self.b as int, m, m);
        }
        Ok(self.get_rotated_line_by_angle(target_angle))
    }
}

impl Angle {
    pub open spec fn neg_spec(self) -> Angle {
        Angle { cos: self.cos, sin: (-self.sin) as i128 }
    }
}

/// The angle between the normals of `l` and `m`, as a direction vector
/// `(a1·a2 + b1·b2, |a1·b2 - a2·b1|)`.
pub open spec fn angle_between(l: Line, m: Line) -> Angle {
    let cross = l.a * m.b - m.a * l.b;
    Angle {
        cos: (l.a * m.a + l.b * m.b) as i128,
        sin: (if cross < 0 { -cross } else { cross }) as i128,
    }
}

/// The mirror `mirror` turned about its `from` by the angle between the
/// normals of `incoming` and `mirror`.
pub open spec fn reflected(mirror: Line, incoming: Line) -> Line {
    Line::through(
        mirror.from,
        mirror.to.rotated_about(mirror.from, angle_between(incoming, mirror).neg_spec()),
    )
}

/// The point of a non-horizontal line at height `y`, its `x` rounded down.
pub open spec fn dot_at_y(l: Line, y: int) -> Dot {
    Dot { x: floor_div(-l.b * y - l.c, l.a as int) as i128, y: y as i128 }
}

/// Where the unbounded line `l` meets the viewport's edges; see
/// `Line::get_default_from_to`.
pub open spec fn viewport_ends(l: Line, width: int, height: int) -> (Dot, Dot) {
    if l.a == 0 {
        let y = floor_div(-l.c, l.b as int) as i128;
        (Dot { x: 0, y }, Dot { x: width as i128, y })
    } else if l.a < 0 {
        (dot_at_y(l, 0), dot_at_y(l, height))
    } else {
        (dot_at_y(l, height), dot_at_y(l, 0))
    }
}

} // verus!
