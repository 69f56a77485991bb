use envelope::{BezierPoint, Envelope};

fn pt(x: i32, y: i32) -> BezierPoint {
    BezierPoint::new(x, y, 0)
}

fn ramp() -> Envelope<BezierPoint> {
    Envelope::from_points(vec![pt(0, 0), pt(10, 1000)])
}

#[test]
fn value_at_scenario() {
    let env = ramp();
    assert_eq!(env.y(5), Some(500));
    assert_eq!(env.y(0), Some(0));
    assert_eq!(env.y(10), Some(1000));
    assert_eq!(env.y(11), None);
}

#[test]
fn bracket_search_scenario() {
    let env = ramp();
    assert_eq!(*env.point_before(5).unwrap(), pt(0, 0));
    assert_eq!(*env.point_after(5).unwrap(), pt(10, 1000));
    assert_eq!(*env.point_on_or_before(10).unwrap(), pt(10, 1000));
    assert_eq!(*env.point_on_or_after(0).unwrap(), pt(0, 0));
}

#[test]
fn stepper_scenario() {
    let env = ramp();
    let mut steps = env.steps(0, 2).unwrap();
    let mut got = Vec::new();
    while let Some(v) = steps.next() {
        got.push(v);
    }
    assert_eq!(got, vec![0, 200, 400, 600, 800, 1000]);
    assert_eq!(steps.next(), None);
}

#[test]
fn xi32_yi32() {
    fn sine(x: i32) -> i32 {
        (((x as f64).sin() * 20.0) + 10.0) as i32
    }

    // Values exactly on points.
    let points_a = Envelope::from_points((0..1_000).map(|x| pt(x, sine(x))).collect());
    for x in 0..1_000 {
        assert_eq!(points_a.y(x), Some(sine(x)), "cannot interpolate x {}", x);
    }

    // Interpolation between points.
    let points_b = Envelope::from_points(vec![pt(0, 0), pt(10, 100)]);
    for x in 0..=10 {
        assert_eq!(points_b.y(x), Some(x * 10));
    }
    assert_eq!(points_b.y(11), None);

    // Finding points.
    assert_eq!(points_b.point_idx_before(5), Some(0));
    assert_eq!(points_b.point_idx_before(0), None);
    assert_eq!(points_b.point_idx_on_or_before(5), Some(0));
    assert_eq!(points_b.point_idx_on_or_before(0), Some(0));
    assert_eq!(points_b.point_idx_on_or_before(10), Some(1));

    assert_eq!(points_b.point_idx_after(5), Some(1));
    assert_eq!(points_b.point_idx_after(10), None);
    assert_eq!(points_b.point_idx_on_or_after(5), Some(1));
    assert_eq!(points_b.point_idx_on_or_after(10), Some(1));
    assert_eq!(points_b.point_idx_on_or_after(0), Some(0));

    let pts = points_b.points();
    assert_eq!(*points_b.point_before(5).unwrap(), pts[0]);
    assert_eq!(*points_b.point_on_or_before(5).unwrap(), pts[0]);
    assert_eq!(*points_b.point_on_or_before(0).unwrap(), pts[0]);
    assert_eq!(*points_b.point_on_or_before(10).unwrap(), pts[1]);

    assert_eq!(*points_b.point_after(5).unwrap(), pts[1]);
    assert_eq!(*points_b.point_on_or_after(5).unwrap(), pts[1]);
    assert_eq!(*points_b.point_on_or_after(0).unwrap(), pts[0]);
    assert_eq!(*points_b.point_on_or_after(10).unwrap(), pts[1]);
}

#[test]
fn exact_hits_on_every_point() {
    let env = Envelope::from_points(vec![pt(-7, 3), pt(2, -40), pt(9, 12), pt(30, 12), pt(31, 900)]);
    for p in env.points() {
        assert_eq!(env.y(p.x), Some(p.y));
    }
}

#[test]
fn first_point_wins_at_a_shared_position() {
    let env = Envelope::from_points(vec![pt(0, 0), pt(5, 7), pt(5, 9), pt(10, 0)]);
    assert_eq!(env.y(5), Some(7));
    let env = Envelope::from_points(vec![pt(5, 7), pt(5, 9), pt(10, 0)]);
    assert_eq!(env.y(5), Some(7));
}

#[test]
fn outside_the_points_there_is_no_value() {
    let env = Envelope::from_points(vec![pt(-3, 1), pt(4, 2), pt(8, 3)]);
    assert_eq!(env.y(-4), None);
    assert_eq!(env.y(9), None);
    assert_eq!(env.y(i32::MIN), None);
    assert_eq!(env.y(i32::MAX), None);
}

#[test]
fn empty_envelope_has_no_value() {
    let env: Envelope<BezierPoint> = Envelope::new();
    assert_eq!(env.y(0), None);
    assert!(env.steps(0, 1).is_none());
    assert_eq!(env.point_before(0), None);
    assert_eq!(env.closest_point(0), None);
    assert_eq!(env.bracket(0), None);
}

#[test]
fn single_point_has_value_only_at_its_position() {
    let env = Envelope::from_points(vec![pt(4, 77)]);
    assert_eq!(env.y(4), Some(77));
    assert_eq!(env.y(3), None);
    assert_eq!(env.y(5), None);
    assert_eq!(env.bracket(4), Some((0, 0)));
}

#[test]
fn linear_segment_is_monotonic() {
    let env = Envelope::from_points(vec![pt(0, 1000), pt(7, -13)]);
    let values: Vec<i32> = (0..=7).map(|x| env.y(x).unwrap()).collect();
    for w in values.windows(2) {
        assert!(w[0] >= w[1]);
    }
    assert_eq!(values[0], 1000);
    assert_eq!(values[7], -13);
    // Rounded toward negative infinity: 1000 + (-1013 * 3) / 7 = 1000 - 435.
    assert_eq!(values[3], 565);
}

#[test]
fn adding_sorted_points_keeps_their_order() {
    let mut env = Envelope::new();
    let pts = vec![pt(0, 1), pt(2, 2), pt(2, 3), pt(5, 4)];
    for p in &pts {
        env.add_point(*p);
    }
    assert_eq!(*env.points(), pts);
}

#[test]
fn adding_points_out_of_order_sorts_them() {
    let mut env = Envelope::new();
    for p in [pt(9, 1), pt(-2, 2), pt(4, 3), pt(4, 4), pt(0, 5)] {
        env.add_point(p);
    }
    assert_eq!(*env.points(), vec![pt(-2, 2), pt(0, 5), pt(4, 3), pt(4, 4), pt(9, 1)]);
    let sorted = Envelope::from_points(vec![pt(9, 1), pt(-2, 2), pt(4, 3), pt(4, 4), pt(0, 5)]);
    assert_eq!(sorted.points(), env.points());
}

#[test]
fn index_searches_with_points() {
    let env = Envelope::from_points(vec![pt(0, 0), pt(3, 30), pt(3, 31), pt(8, 80)]);
    assert_eq!(env.point_before_with_idx(3).map(|(i, p)| (i, *p)), Some((0, pt(0, 0))));
    assert_eq!(env.point_on_or_before_with_idx(3).map(|(i, p)| (i, *p)), Some((2, pt(3, 31))));
    assert_eq!(env.point_after_with_idx(3).map(|(i, p)| (i, *p)), Some((3, pt(8, 80))));
    assert_eq!(env.point_on_or_after_with_idx(3).map(|(i, p)| (i, *p)), Some((1, pt(3, 30))));
    assert_eq!(env.point_at_with_idx(3).map(|(i, p)| (i, *p)), Some((1, pt(3, 30))));
    assert_eq!(env.point_at(4), None);
    assert_eq!(*env.point_at(8).unwrap(), pt(8, 80));
    assert_eq!(env.point_after(8), None);
    assert_eq!(env.point_before(0), None);
}

#[test]
fn surrounding_and_closest_points() {
    let env = Envelope::from_points(vec![pt(0, 0), pt(10, 100)]);
    let (before, after) = env.surrounding_points(4);
    assert_eq!(*before.unwrap(), pt(0, 0));
    assert_eq!(*after.unwrap(), pt(10, 100));
    assert_eq!(*env.closest_point(4).unwrap(), pt(0, 0));
    assert_eq!(*env.closest_point(6).unwrap(), pt(10, 100));
    // Equally near: the point after wins.
    assert_eq!(*env.closest_point(5).unwrap(), pt(10, 100));
    assert_eq!(*env.closest_point(-50).unwrap(), pt(0, 0));
    assert_eq!(*env.closest_point(50).unwrap(), pt(10, 100));
    // On a point: that point.
    assert_eq!(*env.closest_point(10).unwrap(), pt(10, 100));
    let wide = Envelope::from_points(vec![pt(i32::MIN, 0), pt(i32::MAX, 1)]);
    assert_eq!(*wide.closest_point(-1).unwrap(), pt(i32::MIN, 0));
    assert_eq!(*wide.closest_point(1).unwrap(), pt(i32::MAX, 1));
}

#[test]
fn bracket_pairs() {
    let env = Envelope::from_points(vec![pt(0, 0), pt(3, 30), pt(8, 80)]);
    assert_eq!(env.bracket(0), Some((0, 1)));
    assert_eq!(env.bracket(2), Some((0, 1)));
    assert_eq!(env.bracket(3), Some((0, 1)));
    assert_eq!(env.bracket(4), Some((1, 2)));
    assert_eq!(env.bracket(8), Some((1, 2)));
    assert_eq!(env.bracket(9), None);
    assert_eq!(env.bracket(-1), None);
}

#[test]
fn stepper_matches_value_at() {
    let env = Envelope::from_points(vec![
        BezierPoint::new(-5, 10, 300),
        BezierPoint::new(4, -90, -700),
        BezierPoint::new(4, 50, 0),
        BezierPoint::new(20, 2000, 1000),
    ]);
    let mut steps = env.steps(-5, 3).unwrap();
    let mut x = -5;
    while let Some((sx, v)) = steps.next_xy() {
        assert_eq!(sx, x);
        assert_eq!(Some(v), env.y(x));
        x += 3;
    }
    assert!(x > 20);
    assert_eq!(steps.next_xy(), None);
}

#[test]
fn stepper_with_changing_step() {
    let env = ramp();
    let mut steps = env.steps(1, 1).unwrap();
    assert_eq!(steps.next_xy(), Some((1, 100)));
    steps.set_step(4);
    assert_eq!(steps.next_xy(), Some((2, 200)));
    assert_eq!(steps.next_xy(), Some((6, 600)));
    assert_eq!(steps.next_xy(), Some((10, 1000)));
    assert_eq!(steps.next_xy(), None);
    steps.set_step(0);
    assert_eq!(steps.next_xy(), None);
}

#[test]
fn stepper_start_outside_points() {
    let env = ramp();
    assert!(env.steps(-1, 1).is_none());
    assert!(env.steps(11, 1).is_none());
    assert!(env.steps(10, 1).is_some());
}

#[test]
fn stepper_on_a_single_point() {
    let env = Envelope::from_points(vec![pt(3, 9)]);
    let mut steps = env.steps(3, 5).unwrap();
    assert_eq!(steps.next(), Some(9));
    assert_eq!(steps.next(), None);
    let mut steps = env.steps(3, 0).unwrap();
    assert_eq!(steps.next(), Some(9));
    assert_eq!(steps.next(), Some(9));
}

#[test]
fn stepper_near_the_end_of_the_range() {
    let env = Envelope::from_points(vec![pt(i32::MAX - 4, 0), pt(i32::MAX, 400)]);
    let mut steps = env.steps(i32::MAX - 4, u32::MAX).unwrap();
    assert_eq!(steps.next(), Some(0));
    assert_eq!(steps.next(), None);
}
