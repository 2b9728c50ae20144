use fog_of_war::fog::{fog_look, in_view, Fog, FogLook};
use fog_of_war::geometry::Point;

#[test]
fn observe_sets_and_keeps_discovery() {
    let mut f = Fog::new();
    assert_eq!(f, Fog { visible: false, discovered: false });
    f.observe(false);
    assert_eq!(f, Fog { visible: false, discovered: false });
    f.observe(true);
    assert_eq!(f, Fog { visible: true, discovered: true });
    f.observe(false);
    assert_eq!(f, Fog { visible: false, discovered: true });
    f.observe(false);
    assert_eq!(f, Fog { visible: false, discovered: true });
}

#[test]
fn looks_follow_fog_state() {
    assert_eq!(fog_look(&Fog { visible: true, discovered: true }), FogLook::Original);
    assert_eq!(fog_look(&Fog { visible: false, discovered: true }), FogLook::Dimmed);
    assert_eq!(fog_look(&Fog { visible: false, discovered: false }), FogLook::Hidden);
}

#[test]
fn fan_is_anchored_at_the_observer() {
    // Two boundary points far apart: the fan is the triangle with the observer,
    // so a point beyond the chord between them is outside.
    let boundary = vec![Point::new(100, 100), Point::new(-100, 100)];
    assert!(in_view(Point::new(0, 0), &boundary, Point::new(0, 50)));
    assert!(!in_view(Point::new(0, 0), &boundary, Point::new(0, 150)));
    assert!(!in_view(Point::new(0, 0), &boundary, Point::new(0, -10)));
    assert!(!in_view(Point::new(0, 0), &vec![Point::new(100, 100)], Point::new(10, 10)));
}
