//! Draggable control points: the pointer grabs a point by its hit circle
//! and moves it until the button is released.
use vstd::prelude::*;
use crate::dot::{dist_sq, Dot, SCREEN_LIMIT};

verus! {

/// The radius of the hit circle round a control point.
pub const HIT_RADIUS: i128 = 15;

/// A point that the pointer can drag. The hit circle is the disc of radius
/// `HIT_RADIUS` round the current position.
#[derive(Clone, Copy, Debug, PartialEq, Eq, Structural)]
pub struct InteractiveDot {
    pub dot: Dot,
    /// The point is being dragged.
    pub is_move: bool,
    /// The pointer lies on the point's hit circle.
    pub is_mouse_on: bool,
}

/// The pointer `p` lies on the hit circle of `d`.
pub open spec fn hovered(d: InteractiveDot, p: Dot) -> bool {
    dist_sq(p, d.dot) <= HIT_RADIUS * HIT_RADIUS
}

/// `d` takes hold of the pointer in this frame: the button went down over
/// it and no earlier point took hold.
pub open spec fn grabs(d: InteractiveDot, p: Dot, pressed: bool, claimed: bool) -> bool {
    pressed && hovered(d, p) && !claimed
}

/// `d` after one frame with the pointer at `p`, given whether an earlier
/// point of the list took hold of the pointer in this frame.
pub open spec fn stepped(d: InteractiveDot, p: Dot, pressed: bool, released: bool, claimed: bool) -> InteractiveDot {
    let moving = !released && (d.is_move || grabs(d, p, pressed, claimed));
    InteractiveDot { dot: if moving { p } else { d.dot }, is_move: moving, is_mouse_on: hovered(d, p) }
}

/// Some point before index `i` took hold of the pointer in this frame.
pub open spec fn claimed_before(ds: Seq<InteractiveDot>, p: Dot, pressed: bool, i: int) -> bool {
    pressed && exists|j: int| 0 <= j < i && #[trigger] hovered(ds[j], p)
}

impl InteractiveDot {
    pub fn new(dot: Dot) -> (r: InteractiveDot)
        ensures
            r.dot == dot && !r.is_move && !r.is_mouse_on,
    {
        InteractiveDot { dot, is_move: false, is_mouse_on: false }
    }

    pub fn set_x(&mut self, x: i128)
        ensures
            final(self).dot.x == x,
            final(self).dot.y == old(self).dot.y,
            final(self).is_move == old(self).is_move,
            final(self).is_mouse_on == old(self).is_mouse_on,
    {
        self.dot.x = x;
    }

    pub fn set_y(&mut self, y: i128)
        ensures
            final(self).dot.y == y,
            final(self).dot.x == old(self).dot.x,
            final(self).is_move == old(self).is_move,
            final(self).is_mouse_on == old(self).is_mouse_on,
    {
        self.dot.y = y;
    }

    pub fn set_is_move(&mut self, is_move: bool)
        ensures
            *final(self) == (InteractiveDot { is_move, ..*old(self) }),
    {
        self.is_move = is_move;
    }

    pub fn get_x(&self) -> (r: i128)
        ensures
            r == self.dot.x,
    {
        self.dot.x
    }

    pub fn get_y(&self) -> (r: i128)
        ensures
            r == self.dot.y,
    {
        self.dot.y
    }

    pub fn get_is_move(&self) -> (r: bool)
        ensures
            r == self.is_move,
    {
        self.is_move
    }

    /// The pointer at `dot` lies on the hit circle.
    pub fn is_dot_on(&self, dot: Dot) -> (r: bool)
        requires
            self.dot.within(SCREEN_LIMIT as int),
            dot.within(SCREEN_LIMIT as int),
        ensures
            r == hovered(*self, dot),
    {
        let d = crate::dot::distance_sq_between_dots(&dot, &self.dot);
        d <= HIT_RADIUS * HIT_RADIUS
    }

    /// One frame for this point: the hover flag follows the pointer; the
    /// point takes hold of the pointer when the button goes down over it and
    /// `claimed` is false; a release lets go; a point held follows the
    /// pointer. Returns whether this or an earlier point took hold.
    pub fn update(&mut self, pointer: Dot, pressed: bool, released: bool, claimed: bool) -> (r: bool)
        requires
            old(self).dot.within(SCREEN_LIMIT as int),
            pointer.within(SCREEN_LIMIT as int),
        ensures
            *final(self) == stepped(*old(self), pointer, pressed, released, claimed),
            r == (claimed || (pressed && hovered(*old(self), pointer))),
    {
        let hovered_now = self.is_dot_on(pointer);
        self.is_mouse_on = hovered_now;
        let grab = pressed && hovered_now && !claimed;
        if grab {
            self.is_move = true;
        }
        if released {
            self.is_move = false;
        }
        if self.is_move {
            self.dot = pointer;
        }
        claimed || (pressed && hovered_now)
    }
}

/// One frame for all control points, in list order: at most one point takes
/// hold of the pointer, the first whose hit circle the pointer is on when
/// the button goes down.
pub fn update_control_dots(dots: &mut Vec<InteractiveDot>, pointer: Dot, pressed: bool, released: bool)
    requires
        forall|i: int| 0 <= i < old(dots)@.len() ==> (#[trigger] old(dots)@[i]).dot.within(SCREEN_LIMIT as int),
        pointer.within(SCREEN_LIMIT as int),
    ensures
        final(dots)@.len() == old(dots)@.len(),
        forall|i: int| 0 <= i < old(dots)@.len() ==> #[trigger] final(dots)@[i] == stepped(
            old(dots)@[i],
            pointer,
            pressed,
            released,
            claimed_before(old(dots)@, pointer, pressed, i),
        ),
{
    let ghost start = dots@;
    let mut claimed = false;
    let mut i: usize = 0;
    while i < dots.len()
        invariant
            dots@.len() == start.len(),
            0 <= i <= dots@.len(),
            pointer.within(SCREEN_LIMIT as int),
            forall|k: int| 0 <= k < start.len() ==> (#[trigger] start[k]).dot.within(SCREEN_LIMIT as int),
            forall|k: int| i <= k < dots@.len() ==> #[trigger] dots@[k] == start[k],
            forall|k: int| 0 <= k < i ==> #[trigger] dots@[k] == stepped(
                start[k],
                pointer,
                pressed,
                released,
                claimed_before(start, pointer, pressed, k),
            ),
            claimed == claimed_before(start, pointer, pressed, i as int),
        decreases dots@.len() - i,
    {
        let mut d = dots[i];
        let now = d.update(pointer, pressed, released, claimed);
        proof {
            if pressed && hovered(start[i as int], pointer) {
                assert(hovered(start[i as int], pointer));
            }
            if claimed_before(start, pointer, pressed, i as int + 1) && !claimed {
                let j = choose|j: int| 0 <= j < i + 1 && #[trigger] hovered(start[j], pointer);
                assert(j == i);
            }
        }
        dots.set(i, d);
        claimed = now;
        i = i + 1;
    }
}

} // verus!
