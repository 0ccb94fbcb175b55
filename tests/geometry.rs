use reflect2d::arith::{div_floor, floor_sqrt};
use reflect2d::circle::{line_circle_intersection, Circle};
use reflect2d::control::{update_control_dots, InteractiveDot};
use reflect2d::dot::{distance_sq_between_dots, Angle, Dot};
use reflect2d::line::Line;
use reflect2d::scene::{plan_frame, RayPath};
use reflect2d::GeomError;

fn d(x: i128, y: i128) -> Dot {
    Dot::new(x, y)
}

#[test]
fn line_through_two_points_satisfies_equation() {
    let p = d(1, 2);
    let q = d(4, 7);
    let line = Line::new(&p, &q);
    let (a, b, c) = line.get_abc();
    assert_eq!((a, b, c), (-5, 3, -1));
    assert_eq!(a * p.x + b * p.y + c, 0);
    assert_eq!(a * q.x + b * q.y + c, 0);
}

#[test]
fn abc_from_dots_matches_line() {
    assert_eq!(Line::get_abc_from_dots(&d(100, 400), &d(300, 300)), (1, 2, -900));
    assert_eq!(Line::get_abc_from_dots(&d(0, 0), &d(4, 6)), (-3, 2, 0));
    assert_eq!(Line::get_abc_from_dots(&d(2, 2), &d(2, 2)), (0, 0, 0));
}

#[test]
fn secant_gives_two_points() {
    let circle = Circle::new(d(0, 0), 5);
    let line = Line::new(&d(-10, 0), &d(10, 0));
    let pts = line_circle_intersection(&line, &circle).unwrap();
    assert_eq!(pts, vec![d(-5, 0), d(5, 0)]);
    for p in &pts {
        let (a, b, c) = line.get_abc();
        assert_eq!(a * p.x + b * p.y + c, 0);
        assert_eq!(distance_sq_between_dots(p, &circle.center), 25);
        assert!(line.is_dot_have_same_range(*p));
    }
}

#[test]
fn secant_points_outside_segment_are_dropped() {
    let circle = Circle::new(d(0, 0), 5);
    let line = Line::new(&d(-10, 0), &d(0, 0));
    let pts = line_circle_intersection(&line, &circle).unwrap();
    assert_eq!(pts, vec![d(-5, 0)]);
}

#[test]
fn tangent_line_gives_foot_of_perpendicular() {
    let circle = Circle::new(d(0, 0), 5);
    let line = Line::new(&d(-10, 5), &d(10, 5));
    let pts = line_circle_intersection(&line, &circle).unwrap();
    assert_eq!(pts, vec![d(0, 5)]);
}

#[test]
fn far_line_gives_no_points() {
    let circle = Circle::new(d(0, 0), 5);
    let line = Line::new(&d(-10, 6), &d(10, 6));
    assert_eq!(line_circle_intersection(&line, &circle).unwrap(), vec![]);
}

#[test]
fn oblique_secant_is_rounded_down() {
    let circle = Circle::new(d(0, 0), 10);
    let line = Line::new(&d(-20, -19), &d(20, 21));
    let pts = line_circle_intersection(&line, &circle).unwrap();
    assert_eq!(pts.len(), 2);
    for p in &pts {
        let (a, b, c) = line.get_abc();
        let residual = a * p.x + b * p.y + c;
        assert!(residual.abs() < a.abs() + b.abs());
        let r2 = distance_sq_between_dots(p, &circle.center);
        assert!((r2 - 100).abs() <= 60, "{:?} at {}", p, r2);
    }
}

#[test]
fn degenerate_line_is_an_error() {
    let circle = Circle::new(d(0, 0), 5);
    let line = Line::new(&d(3, 3), &d(3, 3));
    assert_eq!(line_circle_intersection(&line, &circle), Err(GeomError::DegenerateLine));
    assert_eq!(line.get_angle(), Err(GeomError::DegenerateLine));
    assert_eq!(line.get_default_from_to(800, 600), Err(GeomError::DegenerateLine));
}

#[test]
fn disc_contains_center_not_beyond_radius() {
    let circle = Circle::new(d(400, 300), 100);
    assert!(circle.is_in_circle(d(400, 300)));
    assert!(circle.is_in_circle(d(500, 300)));
    assert!(!circle.is_in_circle(d(501, 300)));
    assert!(!circle.is_in_circle(d(471, 371)));
    let point = Circle::new(d(7, 7), 0);
    assert!(point.is_in_circle(d(7, 7)));
    assert!(!point.is_in_circle(d(8, 7)));
}

#[test]
fn invert_twice_is_identity() {
    let line = Line::new(&d(3, -4), &d(10, 12));
    let once = line.get_invert_line();
    assert_eq!(line.get_abc(), (-16, 7, 76));
    let reduced = Line::new(&d(100, 400), &d(300, 300));
    assert_eq!(reduced.get_invert_line().get_abc(), (-1, -2, 900));
    assert_eq!(reduced.get_invert_line().get_invert_line(), reduced);
    assert_eq!(once.get_abc(), (16, -7, -76));
    assert_eq!(once.get_from_to(), (d(10, 12), d(3, -4)));
    assert_eq!(once.get_invert_line(), line);
}

#[test]
fn end_to_end_reflection_scenario() {
    let circle = Circle::new(d(400, 300), 100);
    let origin = d(100, 400);
    let target = d(300, 300);
    let line = Line::new(&origin, &target);
    // The segment ends on the circle: the second crossing, (460, 220), lies
    // beyond the target and outside the segment's box.
    let pts = line_circle_intersection(&line, &circle).unwrap();
    assert_eq!(pts, vec![d(300, 300)]);
    assert!(!line.is_dot_have_same_range(d(460, 220)));

    let tangent = circle.get_tangent_line(d(300, 300));
    assert_eq!(tangent.get_from_to(), (d(300, 300), d(300, 200)));

    let out = circle.get_reflected_line(&line).unwrap();
    let (from, to) = out.get_from_to();
    assert_eq!(from, d(300, 300));
    assert_eq!(to, d(210, 255));
    // the outgoing segment keeps the tangent's length, 100, up to rounding
    assert_eq!(distance_sq_between_dots(&from, &to), 10125);
    assert_eq!(line.get_abc(), (1, 2, -900));
    assert_eq!(out.get_abc(), (1, -2, 300));

    // Mirror image of the incoming direction in the tangent.
    let (ux, uy) = ((target.x - origin.x) as f64, (target.y - origin.y) as f64);
    let (tx, ty) = (0.0f64, -1.0f64);
    let k = ux * tx + uy * ty;
    let (mx, my) = (2.0 * k * tx - ux, 2.0 * k * ty - uy);
    let (ox, oy) = ((to.x - from.x) as f64, (to.y - from.y) as f64);
    let diff = (my.atan2(mx) - oy.atan2(ox)).abs();
    assert!(diff < 1e-3, "angle difference {}", diff);

    let plan = plan_frame(&circle, origin, target, 800, 600);
    assert_eq!(plan.intersections, vec![d(300, 300)]);
    assert_eq!(plan.path, RayPath::Reflected { origin, hit: d(300, 300), end: d(-300, 0) });
}

#[test]
fn origin_inside_circle_draws_plain_ray() {
    let circle = Circle::new(d(400, 300), 100);
    let origin = d(420, 310);
    let target = d(600, 300);
    let line = Line::new(&origin, &target);
    let pts = line_circle_intersection(&line, &circle).unwrap();
    assert_eq!(pts.len(), 1);
    assert!(circle.get_reflected_line(&line).is_some());
    let plan = plan_frame(&circle, origin, target, 800, 600);
    assert_eq!(plan.intersections, pts);
    assert_eq!(plan.path, RayPath::Straight { from: origin, to: target });
}

#[test]
fn missing_ray_draws_plain_ray() {
    let circle = Circle::new(d(400, 300), 100);
    let plan = plan_frame(&circle, d(0, 0), d(100, 0), 800, 600);
    assert!(plan.intersections.is_empty());
    assert_eq!(plan.path, RayPath::Straight { from: d(0, 0), to: d(100, 0) });
    let same = plan_frame(&circle, d(50, 50), d(50, 50), 800, 600);
    assert!(same.intersections.is_empty());
    assert_eq!(same.path, RayPath::Straight { from: d(50, 50), to: d(50, 50) });
}

#[test]
fn nearest_dot_picks_first_closest() {
    let me = d(0, 0);
    assert_eq!(me.nearest_dot(&vec![]), Err(GeomError::EmptyNearestSearch));
    let dots = vec![d(5, 5), d(3, 4), d(-4, 3), d(1, 9)];
    assert_eq!(me.nearest_dot(&dots), Ok(d(3, 4)));
    assert_eq!(me.nearest_dot(&vec![d(7, 1)]), Ok(d(7, 1)));
}

#[test]
fn rotation_about_pivot() {
    let p = d(11, 10);
    let pivot = d(10, 10);
    assert_eq!(p.get_rotated_relative_dot(&pivot, Angle::right()), d(10, 11));
    assert_eq!(p.get_rotated_relative_dot(&pivot, Angle::right().neg()), d(10, 9));
    // any length of the angle vector gives the same turn
    assert_eq!(p.get_rotated_relative_dot(&pivot, Angle { cos: 0, sin: 2 }), d(10, 11));
    // a 3-4-5 angle keeps the distance 10 exactly
    assert_eq!(d(20, 10).get_rotated_relative_dot(&pivot, Angle { cos: 3, sin: 4 }), d(16, 18));
    // otherwise each coordinate is rounded down
    assert_eq!(p.get_rotated_relative_dot(&pivot, Angle { cos: 3, sin: 4 }), d(10, 10));
}

#[test]
fn dot_equality() {
    assert!(d(1, 2).is_equal(d(1, 2)));
    assert!(!d(1, 2).is_equal(d(2, 1)));
}

#[test]
fn angles_of_lines() {
    let diag = Line::new(&d(0, 0), &d(1, 1));
    assert_eq!(diag.get_angle(), Ok(Angle { cos: 1, sin: 1 }));
    let horizontal = Line::new(&d(0, 0), &d(5, 0));
    assert_eq!(horizontal.get_abc(), (0, 1, 0));
    assert_eq!(horizontal.get_angle(), Ok(Angle { cos: 1, sin: 0 }));
    assert_eq!(diag.get_angle_with_line(&horizontal), Ok(Angle { cos: 1, sin: 1 }));
    let point = Line::new(&d(2, 2), &d(2, 2));
    assert_eq!(diag.get_angle_with_line(&point), Err(GeomError::DegenerateLine));
}

#[test]
fn rotated_line_by_right_angle() {
    let line = Line::new(&d(0, 0), &d(4, 0));
    let turned = line.get_rotated_line_by_angle(Angle::right());
    assert_eq!(turned.get_from_to(), (d(0, 0), d(0, -4)));
}

#[test]
fn dot_from_y_rounds_down() {
    let line = Line::new(&d(0, 0), &d(2, 3));
    assert_eq!(line.get_dot_from_y(1), d(0, 1));
    assert_eq!(line.get_dot_from_y(-1), d(-1, -1));
    assert_eq!(line.get_dot_from_y(3), d(2, 3));
}

#[test]
fn default_endpoints_on_viewport_edges() {
    let horizontal = Line::new(&d(0, 5), &d(10, 5));
    assert_eq!(horizontal.get_default_from_to(800, 600), Ok((d(0, 5), d(800, 5))));
    let falling = Line::new(&d(0, 0), &d(10, 10));
    assert_eq!(falling.get_default_from_to(800, 600), Ok((d(0, 0), d(600, 600))));
    let rising = Line::new(&d(10, 10), &d(0, 0));
    assert_eq!(rising.get_default_from_to(800, 600), Ok((d(600, 600), d(0, 0))));
    let vertical = Line::new(&d(7, 0), &d(7, 9));
    assert_eq!(vertical.get_default_from_to(800, 600), Ok((d(7, 0), d(7, 600))));
}

#[test]
fn same_range_any_orientation() {
    let line = Line::new(&d(10, 0), &d(0, 10));
    assert!(line.is_dot_have_same_range(d(5, 5)));
    assert!(line.is_dot_have_same_range(d(0, 0)));
    assert!(line.is_dot_have_same_range(d(10, 10)));
    assert!(!line.is_dot_have_same_range(d(11, 5)));
    assert!(!line.is_dot_have_same_range(d(5, -1)));
}

#[test]
fn moved_line_keeps_direction() {
    let line = Line::new(&d(0, 0), &d(2, 0));
    let moved = line.get_moved_to_dot_line(d(1, 3));
    assert_eq!(moved.get_abc(), (0, 1, -3));
    assert_eq!(moved.get_from_to(), (d(1, 3), d(2, 3)));
}

#[test]
fn tangent_is_perpendicular_to_radius() {
    let circle = Circle::new(d(0, 0), 5);
    let tangent = circle.get_tangent_line(d(5, 0));
    assert_eq!(tangent.get_from_to(), (d(5, 0), d(5, 5)));
    let at_center = circle.get_reflected_line_by_intersection_dot(&Line::new(&d(-9, 0), &d(9, 0)), d(0, 0));
    assert_eq!(at_center, Err(GeomError::DegenerateLine));
}

#[test]
fn reflection_off_vertical_mirror() {
    // oriented as the tangent of a circle whose centre lies to the right
    let mirror = Line::new(&d(0, 0), &d(0, -10));
    let incoming = Line::new(&d(-5, -5), &d(0, 0));
    let out = mirror.get_reflected_line(&incoming).unwrap();
    // direction (-1, 1), the mirror image of (1, 1) in the y axis, at the
    // mirror's length 10, rounded down
    assert_eq!(out.get_from_to(), (d(0, 0), d(-8, 7)));
}

#[test]
fn control_dots_single_grab_and_release() {
    let mut dots = vec![
        InteractiveDot::new(d(100, 100)),
        InteractiveDot::new(d(105, 100)),
        InteractiveDot::new(d(300, 300)),
    ];
    update_control_dots(&mut dots, d(102, 101), true, false);
    assert!(dots[0].get_is_move());
    assert!(!dots[1].get_is_move());
    assert!(dots[1].is_mouse_on);
    assert!(!dots[2].is_mouse_on);
    assert_eq!((dots[0].get_x(), dots[0].get_y()), (102, 101));
    assert_eq!((dots[1].get_x(), dots[1].get_y()), (105, 100));

    update_control_dots(&mut dots, d(200, 250), false, false);
    assert_eq!((dots[0].get_x(), dots[0].get_y()), (200, 250));
    assert!(!dots[0].is_mouse_on);

    update_control_dots(&mut dots, d(210, 250), false, true);
    assert!(!dots[0].get_is_move());
    assert_eq!((dots[0].get_x(), dots[0].get_y()), (200, 250));
}

#[test]
fn control_dot_hit_circle_radius() {
    let dot = InteractiveDot::new(d(0, 0));
    assert!(dot.is_dot_on(d(9, 12)));
    assert!(dot.is_dot_on(d(15, 0)));
    assert!(!dot.is_dot_on(d(11, 11)));
}

#[test]
fn control_dot_setters() {
    let mut dot = InteractiveDot::new(d(0, 0));
    dot.set_x(4);
    dot.set_y(-2);
    dot.set_is_move(true);
    assert_eq!((dot.get_x(), dot.get_y(), dot.get_is_move()), (4, -2, true));
}

#[test]
fn integer_helpers() {
    assert_eq!(div_floor(-7, 2), -4);
    assert_eq!(div_floor(7, -2), -4);
    assert_eq!(div_floor(-7, -2), 3);
    assert_eq!(div_floor(6, 3), 2);
    assert_eq!(floor_sqrt(0), 0);
    assert_eq!(floor_sqrt(15), 3);
    assert_eq!(floor_sqrt(16), 4);
    assert_eq!(floor_sqrt(4_000_000_000_000_000_000_000), 63_245_553_203);
}
