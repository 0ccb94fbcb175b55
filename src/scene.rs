//! What one frame shows: the crossings of the ray with the circle, and the
//! ray itself, either straight or bounced off the circle.
use vstd::prelude::*;
use crate::circle::{intersections, line_circle_intersection, reflection_of, Circle};
use crate::dot::{Dot, SCREEN_LIMIT};
use crate::line::{viewport_ends, Line};

verus! {

/// How the ray is drawn.
#[derive(Clone, Copy, Debug, PartialEq, Eq, Structural)]
pub enum RayPath {
    /// The segment from the ray's origin to its target, as it is.
    Straight { from: Dot, to: Dot },
    /// The segment from the origin to the point where the ray hits the
    /// circle, then the reflected ray from there to the viewport's edge.
    Reflected { origin: Dot, hit: Dot, end: Dot },
}

/// The plan of one frame.
#[derive(Debug)]
pub struct FramePlan {
    /// The crossings of the ray's segment with the circle.
    pub intersections: Vec<Dot>,
    pub path: RayPath,
}

/// The path drawn for a ray from `origin` through `target` beside `circle`
/// in a viewport of `width × height`. A ray whose origin lies in the disc
/// has no valid reflection and is drawn straight.
pub open spec fn path_of(circle: Circle, origin: Dot, target: Dot, width: int, height: int) -> RayPath {
    let line = Line::through(origin, target);
    match reflection_of(circle, line) {
        Some(out) => {
            if !circle.contains(origin) && !out.is_degenerate() {
                RayPath::Reflected { origin, hit: out.from, end: viewport_ends(out, width, height).1 }
            } else {
                RayPath::Straight { from: origin, to: target }
            }
        },
        None => RayPath::Straight { from: origin, to: target },
    }
}

/// The crossings shown for a ray from `origin` through `target`: none when
/// the two points coincide.
pub open spec fn shown_intersections(circle: Circle, origin: Dot, target: Dot) -> Seq<Dot> {
    if origin == target {
        seq![]
    } else {
        intersections(Line::through(origin, target), circle)
    }
}

/// Plans a frame: the ray runs from `origin` through `target`.
pub fn plan_frame(circle: &Circle, origin: Dot, target: Dot, width: i128, height: i128) -> (r: FramePlan)
    requires
        circle.wf(),
        origin.within(SCREEN_LIMIT as int),
        target.within(SCREEN_LIMIT as int),
        0 <= width <= SCREEN_LIMIT,
        0 <= height <= SCREEN_LIMIT,
    ensures
        r.intersections@ == shown_intersections(*circle, origin, target),
        r.path == path_of(*circle, origin, target, width as int, height as int),
{
    let line = Line::new(&origin, &target);
    let dots = match line_circle_intersection(&line, circle) {
        Ok(v) => v,
        Err(_) => Vec::new(),
    };
    proof {
        if origin == target {
            assert(dots@ =~= Seq::<Dot>::empty());
        } else {
            Line::lemma_through(origin, target, SCREEN_LIMIT as int);
            assert(!line.is_degenerate());
        }
    }
    let straight = RayPath::Straight { from: origin, to: target };
    let path = match circle.get_reflected_line(&line) {
        Some(out) => {
            if !circle.is_in_circle(origin) {
                match out.get_default_from_to(width, height) {
                    Ok((_, end)) => RayPath::Reflected { origin, hit: out.from, end },
                    Err(_) => straight,
                }
            } else {
                straight
            }
        },
        None => straight,
    };
    FramePlan { intersections: dots, path }
}

} // verus!
