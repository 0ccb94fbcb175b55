//! Points of the integer plane, and angles given by direction vectors.
use vstd::prelude::*;
use crate::GeomError;
use crate::arith::{abs, div_sqrt, div_sqrt_floor};

verus! {

/// Bound on the coordinates of points that come from the screen: pointer
/// positions, viewport sizes, control points, circle centres and radii.
pub const SCREEN_LIMIT: i128 = 65536;

/// Bound on the coordinates of any point handed to the line constructors;
/// it keeps every coefficient and product inside `i128`.
pub const WIDE_LIMIT: i128 = 0x4000_0000_0000_0000;

/// A point with integer coordinates.
#[derive(Clone, Copy, Debug, PartialEq, Eq, Structural)]
pub struct Dot {
    pub x: i128,
    pub y: i128,
}

/// An angle, given by a direction vector `(cos, sin)` of any positive length:
/// the angle `t` with `cos t = cos / ρ` and `sin t = sin / ρ`, where
/// `ρ = sqrt(cos² + sin²)`.
#[derive(Clone, Copy, Debug, PartialEq, Eq, Structural)]
pub struct Angle {
    pub cos: i128,
    pub sin: i128,
}

impl Angle {
    /// The right angle, `π / 2`.
    pub fn right() -> (r: Angle)
        ensures
            r.cos == 0 && r.sin == 1,
    {
        Angle { cos: 0, sin: 1 }
    }

    /// The vector's components are bounded and not both zero.
    pub open spec fn valid(self) -> bool {
        &&& -0x80_0000_0000 <= self.cos <= 0x80_0000_0000
        &&& -0x80_0000_0000 <= self.sin <= 0x80_0000_0000
        &&& !(self.cos == 0 && self.sin == 0)
    }

    /// The opposite angle, `-t`.
    pub fn neg(&self) -> (r: Angle)
        requires
            self.sin > i128::MIN,
        ensures
            r.cos == self.cos && r.sin == -self.sin,
    {
        Angle { cos: self.cos, sin: -self.sin }
    }
}

impl Dot {
    /// Both coordinates lie in `[-m, m]`.
    pub open spec fn within(self, m: int) -> bool {
        -m <= self.x <= m && -m <= self.y <= m
    }

    pub fn new(x: i128, y: i128) -> (r: Dot)
        ensures
            r.x == x && r.y == y,
    {
        Dot { x, y }
    }

    /// Exact equality of the coordinates.
    pub fn is_equal(&self, dot: Dot) -> (r: bool)
        ensures
            r == (self.x == dot.x && self.y == dot.y),
    {
        dot.x == self.x && dot.y == self.y
    }

    /// `self` turned about `pivot` by `angle`: the offset
    /// `(dx, dy) = self - pivot` becomes
    /// `(dx·cos - dy·sin, dx·sin + dy·cos) / ρ`, `ρ` the angle vector's length
    /// `sqrt(cos² + sin²)`, each coordinate rounded down. That is a rotation:
    /// the distance to the pivot is kept, exactly for a unit vector
    /// (`cos² + sin² == 1`), up to less than a unit in each coordinate
    /// otherwise.
    pub open spec fn rotated_about(self, pivot: Dot, angle: Angle) -> Dot {
        let dx = self.x - pivot.x;
        let dy = self.y - pivot.y;
        let v = angle.cos * angle.cos + angle.sin * angle.sin;
        Dot {
            x: (pivot.x + div_sqrt(dx * angle.cos - dy * angle.sin, v)) as i128,
            y: (pivot.y + div_sqrt(dx * angle.sin + dy * angle.cos, v)) as i128,
        }
    }

    /// See `rotated_about`.
    pub fn get_rotated_relative_dot(&self, pivot: &Dot, angle: Angle) -> (r: Dot)
        requires
            self.within(0x10_0000),
            pivot.within(0x10_0000),
            angle.valid(),
        ensures
            r == self.rotated_about(*pivot, angle),
            abs(r.x - pivot.x) <= abs((self.x - pivot.x) * angle.cos - (self.y - pivot.y) * angle.sin) + 1,
            abs(r.y - pivot.y) <= abs((self.x - pivot.x) * angle.sin + (self.y - pivot.y) * angle.cos) + 1,
            angle.cos * angle.cos + angle.sin * angle.sin == 1 ==> dist_sq(r, *pivot) == dist_sq(*self, *pivot),
    {
        let dx = self.x - pivot.x;
        let dy = self.y - pivot.y;
        proof {
            let m = 0x80_0000_0000int;
            crate::arith::lemma_mul_abs_bound(dx as int, angle.cos as int, 0x20_0000, m);
            crate::arith::lemma_mul_abs_bound(dy as int, angle.sin as int, 0x20_0000, m);
            crate::arith::lemma_mul_abs_bound(dx as int, angle.sin as int, 0x20_0000, m);
            crate::arith::lemma_mul_abs_bound(dy as int, angle.cos as int, 0x20_0000, m);
            crate::arith::lemma_mul_abs_bound(angle.cos as int, angle.cos as int, m, m);
            crate::arith::lemma_mul_abs_bound(angle.sin as int, angle.sin as int, m, m);
            assert(angle.cos * angle.cos >= 0 && angle.sin * angle.sin >= 0) by (nonlinear_arith);
            assert(angle.cos * angle.cos + angle.sin * angle.sin > 0) by (nonlinear_arith)
                requires !(angle.cos == 0 && angle.sin == 0);
        }
        let v = angle.cos * angle.cos + angle.sin * angle.sin;
        let nx = dx * angle.cos - dy * angle.sin;
        let ny = dx * angle.sin + dy * angle.cos;
        let qx = div_sqrt_floor(nx, v);
        let qy = div_sqrt_floor(ny, v);
        proof {
            if v == 1 {
                let (c, s) = (angle.cos as int, angle.sin as int);
                let (pp, qq, rr, tt) = (dx * c, dy * s, dx * s, dy * c);
                assert(nx * nx == pp * pp - 2 * (pp * qq) + qq * qq) by (nonlinear_arith)
                    requires nx == pp - qq;
                assert(ny * ny == rr * rr + 2 * (rr * tt) + tt * tt) by (nonlinear_arith)
                    requires ny == rr + tt;
                assert(pp * qq == rr * tt) by (nonlinear_arith)
                    requires pp == dx * c, qq == dy * s, rr == dx * s, tt == dy * c;
                assert(pp * pp + rr * rr == dx * dx) by (nonlinear_arith)
                    requires pp == dx * c, rr == dx * s, c * c + s * s == 1;
                assert(qq * qq + tt * tt == dy * dy) by (nonlinear_arith)
                    requires qq == dy * s, tt == dy * c, c * c + s * s == 1;
            }
        }
        Dot { x: pivot.x + qx, y: pivot.y + qy }
    }

    /// The nearest of `dots` to `self` by Euclidean distance; among equally
    /// near ones, the first.
    pub fn nearest_dot(&self, dots: &Vec<Dot>) -> (r: Result<Dot, GeomError>)
        requires
            self.within(WIDE_LIMIT as int / 2),
            forall|i: int| 0 <= i < dots@.len() ==> (#[trigger] dots@[i]).within(WIDE_LIMIT as int / 2),
        ensures
            dots@.len() == 0 <==> r == Err::<Dot, GeomError>(GeomError::EmptyNearestSearch),
            r matches Err(e) ==> e == GeomError::EmptyNearestSearch,
            r matches Ok(d) ==> is_nearest_in(*self, dots@, d) && d == nearest_of(*self, dots@),
    {
        if dots.len() == 0 {
            return Err(GeomError::EmptyNearestSearch);
        }
        let mut min_distance = distance_sq_between_dots(self, &dots[0]);
        let mut best: usize = 0;
        let mut i: usize = 1;
        while i < dots.len()
            invariant
                0 <= best < i <= dots@.len(),
                self.within(WIDE_LIMIT as int / 2),
                forall|k: int| 0 <= k < dots@.len() ==> (#[trigger] dots@[k]).within(WIDE_LIMIT as int / 2),
                min_distance == dist_sq(*self, dots@[best as int]),
                forall|k: int| 0 <= k < i ==> dist_sq(*self, dots@[best as int]) <= dist_sq(*self, #[trigger] dots@[k]),
                forall|k: int| 0 <= k < best ==> dist_sq(*self, dots@[best as int]) < dist_sq(*self, #[trigger] dots@[k]),
            decreases dots@.len() - i,
        {
            let current_distance = distance_sq_between_dots(self, &dots[i]);
            if current_distance < min_distance {
                min_distance = current_distance;
                best = i;
            }
            i = i + 1;
        }
        proof {
            assert(is_nearest_in(*self, dots@, dots@[best as int]));
            lemma_nearest_unique(*self, dots@, dots@[best as int], nearest_of(*self, dots@));
        }
        Ok(dots[best])
    }
}

/// The squared Euclidean distance between two points.
pub open spec fn dist_sq(p: Dot, q: Dot) -> int {
    (p.x - q.x) * (p.x - q.x) + (p.y - q.y) * (p.y - q.y)
}

/// `d` is the first of `dots` at the least distance from `p`.
pub open spec fn is_nearest_in(p: Dot, dots: Seq<Dot>, d: Dot) -> bool {
    exists|i: int|
        0 <= i < dots.len() && dots[i] == d
        && (forall|k: int| 0 <= k < dots.len() ==> dist_sq(p, dots[i]) <= dist_sq(p, #[trigger] dots[k]))
        && (forall|k: int| 0 <= k < i ==> dist_sq(p, dots[i]) < dist_sq(p, #[trigger] dots[k]))
}

/// The first of `dots` at the least distance from `p` (meaningful when
/// `dots` is not empty).
pub open spec fn nearest_of(p: Dot, dots: Seq<Dot>) -> Dot {
    choose|d: Dot| is_nearest_in(p, dots, d)
}

/// Only one point is the first nearest.
pub proof fn lemma_nearest_unique(p: Dot, dots: Seq<Dot>, d1: Dot, d2: Dot)
    requires
        is_nearest_in(p, dots, d1),
        is_nearest_in(p, dots, d2),
    ensures
        d1 == d2,
{
    let i1 = choose|i: int|
        0 <= i < dots.len() && dots[i] == d1
        && (forall|k: int| 0 <= k < dots.len() ==> dist_sq(p, dots[i]) <= dist_sq(p, #[trigger] dots[k]))
        && (forall|k: int| 0 <= k < i ==> dist_sq(p, dots[i]) < dist_sq(p, #[trigger] dots[k]));
    let i2 = choose|i: int|
        0 <= i < dots.len() && dots[i] == d2
        && (forall|k: int| 0 <= k < dots.len() ==> dist_sq(p, dots[i]) <= dist_sq(p, #[trigger] dots[k]))
        && (forall|k: int| 0 <= k < i ==> dist_sq(p, dots[i]) < dist_sq(p, #[trigger] dots[k]));
    if i1 < i2 {
        assert(dist_sq(p, dots[i2]) < dist_sq(p, dots[i1]));
    } else if i2 < i1 {
        assert(dist_sq(p, dots[i1]) < dist_sq(p, dots[i2]));
    }
}

/// The squared distance between two points; comparing squared distances
/// orders points exactly as comparing distances does.
pub fn distance_sq_between_dots(d1: &Dot, d2: &Dot) -> (r: i128)
    requires
        d1.within(WIDE_LIMIT as int / 2),
        d2.within(WIDE_LIMIT as int / 2),
    ensures
        r == dist_sq(*d1, *d2),
{
    let dx = d1.x - d2.x;
    let dy = d1.y - d2.y;
    proof {
        crate::arith::lemma_mul_abs_bound(dx as int, dx as int, WIDE_LIMIT as int, WIDE_LIMIT as int);
        crate::arith::lemma_mul_abs_bound(dy as int, dy as int, WIDE_LIMIT as int, WIDE_LIMIT as int);
        assert(dx * dx >= 0 && dy * dy >= 0) by (nonlinear_arith);
    }
    dx * dx + dy * dy
}

} // verus!
