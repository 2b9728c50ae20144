use fog_of_war::geometry::{in_polygon, ray_segment_interaction, Point, RayHit};

fn p(x: i64, y: i64) -> Point {
    Point::new(x, y)
}

#[test]
fn ray_meets_segment_ahead() {
    // Ray from the origin along +y meets the horizontal segment y = 5 at t = 5 / 10.
    let hit = ray_segment_interaction(p(0, 0), p(0, 10), p(-3, 5), p(3, 5));
    let h = hit.expect("the ray crosses the segment");
    assert!(h.den > 0);
    assert_eq!(h.num * 2, h.den);
}

#[test]
fn ray_parallel_to_segment_misses() {
    assert_eq!(ray_segment_interaction(p(0, 0), p(0, 10), p(1, 0), p(1, 5)), None);
}

#[test]
fn zero_length_segment_misses() {
    assert_eq!(ray_segment_interaction(p(0, 0), p(0, 10), p(0, 5), p(0, 5)), None);
}

#[test]
fn segment_behind_ray_misses() {
    assert_eq!(ray_segment_interaction(p(0, 0), p(0, 10), p(-3, -5), p(3, -5)), None);
}

#[test]
fn segment_beside_ray_misses() {
    assert_eq!(ray_segment_interaction(p(0, 0), p(0, 10), p(1, 5), p(4, 5)), None);
}

#[test]
fn segment_endpoint_counts_as_hit() {
    let h = ray_segment_interaction(p(0, 0), p(0, 10), p(0, 5), p(4, 5)).expect("endpoint is inclusive");
    assert_eq!(h.num * 2, h.den);
}

#[test]
fn hit_beyond_ray_end_keeps_its_parameter() {
    // The segment lies at twice the ray offset: t = 2.
    let h = ray_segment_interaction(p(0, 0), p(0, 10), p(-3, 20), p(3, 20)).expect("ahead of the ray");
    assert_eq!(h, RayHit { num: h.den * 2, den: h.den });
}

#[test]
fn point_in_square() {
    let square = vec![p(0, 0), p(10, 0), p(10, 10), p(0, 10)];
    assert!(in_polygon(p(5, 5), &square));
    assert!(!in_polygon(p(15, 5), &square));
    assert!(!in_polygon(p(5, -1), &square));
    assert!(!in_polygon(p(-5, 5), &square));
}

#[test]
fn point_in_concave_polygon() {
    // A "U" shape: the notch between x = 3 and x = 7 above y = 3 is outside.
    let u = vec![p(0, 0), p(10, 0), p(10, 10), p(7, 10), p(7, 3), p(3, 3), p(3, 10), p(0, 10)];
    assert!(in_polygon(p(1, 5), &u));
    assert!(in_polygon(p(9, 5), &u));
    assert!(in_polygon(p(5, 1), &u));
    assert!(!in_polygon(p(5, 5), &u));
}

#[test]
fn polygon_with_two_vertices_contains_nothing() {
    assert!(!in_polygon(p(0, 0), &vec![p(-5, -5), p(5, 5)]));
    assert!(!in_polygon(p(0, 0), &vec![]));
}
