use fog_of_war::angles::{
    is_angle_in_cone, normalize_angle, sample_deltas, ANGLE_EPS, HALF_TURN, SAMPLE_COUNT, TURN,
};

#[test]
fn normalize_keeps_canonical_angles() {
    assert_eq!(normalize_angle(0), 0);
    assert_eq!(normalize_angle(HALF_TURN), HALF_TURN);
    assert_eq!(normalize_angle(-HALF_TURN + 1), -HALF_TURN + 1);
}

#[test]
fn normalize_wraps_minus_half_turn_to_half_turn() {
    assert_eq!(normalize_angle(-HALF_TURN), HALF_TURN);
}

#[test]
fn normalize_handles_many_turns() {
    assert_eq!(normalize_angle(5 * TURN + 17), 17);
    assert_eq!(normalize_angle(-7 * TURN - 17), -17);
    assert_eq!(normalize_angle(3 * TURN + HALF_TURN + 1), -HALF_TURN + 1);
    assert_eq!(normalize_angle(i64::MAX), i64::MAX % TURN - TURN);
    let r = normalize_angle(i64::MIN);
    assert!(r > -HALF_TURN && r <= HALF_TURN);
    assert_eq!((r as i128 - i64::MIN as i128) % TURN as i128, 0);
}

#[test]
fn angle_in_cone_across_wraparound() {
    // Center just below +half turn, angle just above -half turn: 2 units apart.
    assert!(is_angle_in_cone(-HALF_TURN + 1, HALF_TURN - 1, 2));
    assert!(!is_angle_in_cone(-HALF_TURN + 1, HALF_TURN - 1, 1));
    assert!(is_angle_in_cone(100, 0, 100));
    assert!(!is_angle_in_cone(101, 0, 100));
}

#[test]
fn open_cone_gives_evenly_spaced_samples() {
    let half = TURN / 8;
    let d = sample_deltas(&vec![], half);
    assert_eq!(d.len(), SAMPLE_COUNT as usize);
    assert_eq!(d[0], -half);
    assert_eq!(d[d.len() - 1], half);
    for i in 0..d.len() {
        assert_eq!(d[i], -half + (2 * half * i as i64) / (SAMPLE_COUNT - 1));
    }
}

#[test]
fn corner_inside_cone_is_bracketed() {
    let half = TURN / 8;
    let corner = 12345;
    let d = sample_deltas(&vec![corner], half);
    assert_eq!(d.len(), SAMPLE_COUNT as usize + 3);
    assert!(d.contains(&(corner - ANGLE_EPS)));
    assert!(d.contains(&corner));
    assert!(d.contains(&(corner + ANGLE_EPS)));
    for w in d.windows(2) {
        assert!(w[0] + ANGLE_EPS <= w[1]);
    }
}

#[test]
fn corner_outside_cone_is_ignored() {
    let half = TURN / 8;
    let d = sample_deltas(&vec![half + 1, -half - 1], half);
    assert_eq!(d, sample_deltas(&vec![], half));
}

#[test]
fn close_samples_are_merged() {
    let half = TURN / 8;
    // A corner exactly at the center bound: its upper bracket lies past the bound.
    let d = sample_deltas(&vec![half], half);
    assert_eq!(d[d.len() - 1], half + ANGLE_EPS);
    assert!(d.contains(&(half - ANGLE_EPS)));
    // A corner one unit inside the lower bound: its lower bracket comes first
    // and the bound, less than ANGLE_EPS above it, is dropped.
    let e = sample_deltas(&vec![-half + 1], half);
    assert_eq!(e[0], -half + 1 - ANGLE_EPS);
    assert!(!e.contains(&(-half)));
    assert!(e.contains(&(-half + 1)));
    assert!(e.contains(&(-half + 1 + ANGLE_EPS)));
}

#[test]
fn zero_width_cone_gives_one_sample() {
    assert_eq!(sample_deltas(&vec![], 0), vec![0]);
}

#[test]
fn samples_are_the_same_on_a_second_call() {
    let corners = vec![-1000, 0, 50000, 3 * TURN / 16];
    assert_eq!(sample_deltas(&corners, TURN / 4), sample_deltas(&corners, TURN / 4));
}

#[test]
fn negative_cone_mirrors_the_positive_one() {
    let half = TURN / 8;
    let pos = sample_deltas(&vec![], half);
    let neg = sample_deltas(&vec![], -half);
    let mirrored: Vec<i64> = pos.iter().rev().map(|d| -d).collect();
    assert_eq!(neg, mirrored);
    // No corner lies inside a cone of negative width.
    assert_eq!(sample_deltas(&vec![0], -half), neg);
}
