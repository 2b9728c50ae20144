use fog_of_war::angles::{normalize_angle, sample_deltas, HALF_TURN, TURN};
use fog_of_war::fog::{fog_look, update_fog, Fog, FogLook, TrackedObject};
use fog_of_war::geometry::Point;
use fog_of_war::visibility::{calculate_visibility_polygon, cast_ray, corner_offsets, hit_point, Obstacle};
use fog_of_war::geometry::RayHit;

fn p(x: i64, y: i64) -> Point {
    Point::new(x, y)
}

fn to_units(radians: f64) -> i64 {
    (radians * TURN as f64 / std::f64::consts::TAU).round() as i64
}

fn to_radians(units: i64) -> f64 {
    units as f64 * std::f64::consts::TAU / TURN as f64
}

/// The whole per-tick sampling: corners, offsets, rays, boundary.
fn boundary(observer: Point, facing: (f64, f64), aperture: f64, range: i64, obstacles: &Vec<Obstacle>) -> Vec<Point> {
    let center = to_units(facing.1.atan2(facing.0));
    let half = to_units(aperture / 2.0);
    let corners: Vec<i64> = corner_offsets(observer, range, obstacles)
        .iter()
        .map(|c| normalize_angle(to_units((c.y as f64).atan2(c.x as f64)) - center))
        .collect();
    let ends: Vec<Point> = sample_deltas(&corners, half)
        .iter()
        .map(|d| {
            let a = to_radians(center + d);
            p((a.cos() * range as f64).trunc() as i64, (a.sin() * range as f64).trunc() as i64)
        })
        .collect();
    calculate_visibility_polygon(observer, &ends, obstacles)
}

fn wall() -> Obstacle {
    Obstacle { anchor: p(0, 500), vertices: vec![p(-50, -10), p(50, -10), p(50, 10), p(-50, 10)] }
}

fn object_at(x: i64, y: i64) -> TrackedObject {
    TrackedObject { position: p(x, y), fog: Fog::new() }
}

#[test]
fn open_cone_boundary_lies_on_the_range_circle() {
    let poly = boundary(p(0, 0), (0.0, 1.0), std::f64::consts::FRAC_PI_2, 1000, &vec![]);
    assert_eq!(poly.len(), 16);
    for q in &poly {
        let r = ((q.x * q.x + q.y * q.y) as f64).sqrt();
        assert!((r - 1000.0).abs() <= 1.5, "{:?} is off the circle", q);
        assert!(q.y > 0 && q.x.abs() <= q.y + 1);
    }
    // The ray straight ahead ends at (0, 1000).
    let ahead = calculate_visibility_polygon(p(0, 0), &vec![p(0, 1000)], &vec![]);
    assert_eq!(ahead, vec![p(0, 1000)]);
    // Both bounds lie at 45 degrees either side of +y.
    assert_eq!(poly[0], p(707, 707));
    assert_eq!(poly[15], p(-707, 707));
}

#[test]
fn wall_hides_what_is_behind_it() {
    let obstacles = vec![wall()];
    let poly = boundary(p(0, 0), (0.0, 1.0), std::f64::consts::PI, 1000, &obstacles);
    let mut objects = vec![object_at(0, 600), object_at(0, 400)];
    update_fog(p(0, 0), &poly, &mut objects);
    assert!(!objects[0].fog.visible);
    assert!(!objects[0].fog.discovered);
    assert!(objects[1].fog.visible);
    assert!(objects[1].fog.discovered);
}

#[test]
fn wall_stops_rays_at_its_near_face() {
    let obstacles = vec![wall()];
    let h = cast_ray(p(0, 0), p(0, 1000), &obstacles);
    assert_eq!(hit_point(p(0, 0), p(0, 1000), h), p(0, 490));
    let poly = boundary(p(0, 0), (0.0, 1.0), std::f64::consts::PI, 1000, &obstacles);
    assert!(poly.iter().any(|q| q.y == 490));
    assert!(poly.iter().all(|q| q.x * q.x + q.y * q.y <= 1000 * 1000));
}

#[test]
fn discovery_outlives_visibility() {
    let mut objects = vec![object_at(0, 300)];
    let away = boundary(p(0, 0), (0.0, -1.0), std::f64::consts::FRAC_PI_2, 1000, &vec![]);
    let toward = boundary(p(0, 0), (0.0, 1.0), std::f64::consts::FRAC_PI_2, 1000, &vec![]);
    update_fog(p(0, 0), &away, &mut objects);
    assert_eq!(objects[0].fog, Fog { visible: false, discovered: false });
    assert_eq!(fog_look(&objects[0].fog), FogLook::Hidden);
    update_fog(p(0, 0), &toward, &mut objects);
    assert_eq!(objects[0].fog, Fog { visible: true, discovered: true });
    assert_eq!(fog_look(&objects[0].fog), FogLook::Original);
    update_fog(p(0, 0), &away, &mut objects);
    assert_eq!(objects[0].fog, Fog { visible: false, discovered: true });
    assert_eq!(fog_look(&objects[0].fog), FogLook::Dimmed);
    assert_eq!(objects[0].position, p(0, 300));
}

#[test]
fn two_vertex_obstacle_blocks_nothing() {
    let segment = Obstacle { anchor: p(0, 500), vertices: vec![p(-50, 0), p(50, 0)] };
    let obstacles = vec![segment];
    for end in [p(100, 995), p(-100, 995), p(0, 1000)] {
        let h = cast_ray(p(0, 0), end, &obstacles);
        assert_eq!(h.num, h.den);
        assert_eq!(calculate_visibility_polygon(p(0, 0), &vec![end], &obstacles), vec![end]);
    }
    // The same segment as one edge of a triangle does block.
    let triangle = Obstacle { anchor: p(0, 500), vertices: vec![p(-50, 0), p(50, 0), p(0, 10)] };
    let h = cast_ray(p(0, 0), p(0, 1000), &vec![triangle]);
    assert!(h.num < h.den);
}

#[test]
fn boundary_is_the_same_on_a_second_call() {
    let obstacles = vec![wall(), Obstacle { anchor: p(300, 300), vertices: vec![p(0, 0), p(40, 0), p(20, 30)] }];
    let a = boundary(p(10, -20), (0.3, 1.0), 2.0, 900, &obstacles);
    let b = boundary(p(10, -20), (0.3, 1.0), 2.0, 900, &obstacles);
    assert_eq!(a, b);
}

#[test]
fn boundary_spans_the_cone() {
    let poly = boundary(p(0, 0), (1.0, 0.0), std::f64::consts::FRAC_PI_2, 1000, &vec![wall()]);
    let first = (poly[0].y as f64).atan2(poly[0].x as f64);
    let last = (poly[poly.len() - 1].y as f64).atan2(poly[poly.len() - 1].x as f64);
    assert!((first + std::f64::consts::FRAC_PI_4).abs() < 1e-3);
    assert!((last - std::f64::consts::FRAC_PI_4).abs() < 1e-3);
}

#[test]
fn hit_point_rounds_toward_the_observer() {
    assert_eq!(hit_point(p(0, 0), p(10, -7), RayHit { num: 1, den: 2 }), p(5, -3));
    assert_eq!(hit_point(p(3, 4), p(10, -7), RayHit { num: 0, den: 5 }), p(3, 4));
    assert_eq!(hit_point(p(3, 4), p(10, -7), RayHit { num: 5, den: 5 }), p(13, -3));
}

#[test]
fn corners_beyond_range_are_left_out() {
    let obstacles = vec![Obstacle { anchor: p(0, 0), vertices: vec![p(3, 4), p(6, 8), p(0, 5)] }];
    let c = corner_offsets(p(0, 0), 5, &obstacles);
    assert_eq!(c, vec![p(3, 4), p(0, 5)]);
    let shifted = corner_offsets(p(1, 1), 5, &obstacles);
    assert_eq!(shifted, vec![p(2, 3), p(5, 7), p(-1, 4)].into_iter().filter(|q| q.x * q.x + q.y * q.y <= 25).collect::<Vec<_>>());
    assert_eq!(HALF_TURN * 2, TURN);
}

#[test]
fn negative_range_keeps_no_corners() {
    let obstacles = vec![Obstacle { anchor: p(0, 0), vertices: vec![p(0, 0), p(1, 0), p(0, 1)] }];
    assert_eq!(corner_offsets(p(0, 0), -5, &obstacles), vec![]);
    assert_eq!(corner_offsets(p(0, 0), 0, &obstacles), vec![p(0, 0)]);
}
