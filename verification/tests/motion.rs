use simple_graphics_controller::motion::{Motion, ALPHA, FALLBACK_SEED};

#[test]
fn bounce_changes_color() {
    let mut motion = Motion::new(800, 600, 100, 100);
    let initial = motion.color();

    // 1000 ticks guarantees several wall hits (first bounce at ~167).
    for _ in 0..1000 {
        motion.tick();
    }

    assert_ne!(motion.color(), initial, "a bounce must change the color");
    assert_eq!(motion.color().3, 0x99, "alpha stays translucent");
}

#[test]
fn random_color_varies() {
    let mut motion = Motion::new(800, 600, 100, 100);
    let first = motion.random_color();
    let mut all_same = true;
    for _ in 0..10 {
        if motion.random_color() != first {
            all_same = false;
        }
    }
    assert!(!all_same, "10 draws must not all collide");
}

#[test]
fn rect_stays_within_screen_bounds() {
    let mut motion = Motion::new(800, 600, 100, 100);
    for _ in 0..10_000 {
        motion.tick();
    }
    let (x, y) = motion.position();
    assert!((0..=700).contains(&x), "x={x} out of bounds");
    assert!((0..=500).contains(&y), "y={y} out of bounds");
}

#[test]
fn motion_starts_in_the_corner_and_moves_right_and_down() {
    let mut motion = Motion::new(800, 600, 100, 100);
    assert_eq!(motion.position(), (0, 0));
    assert_eq!(motion.color(), (0x00, 0xff, 0x00, 0x99));
    assert_eq!(motion.tick(), (4, 3));
    assert_eq!(motion.tick(), (8, 6));
    assert_eq!(motion.position(), (8, 6));
    assert_eq!(motion.color(), (0x00, 0xff, 0x00, 0x99));
}

#[test]
fn motion_turns_round_at_the_edges() {
    let mut motion = Motion::seeded(110, 200, 100, 100, Some(1));
    assert_eq!(motion.tick(), (4, 3));
    assert_eq!(motion.tick(), (8, 6));
    assert_eq!(motion.color(), (0x00, 0xff, 0x00, ALPHA));
    // The right edge is hit: the rectangle rests against it, and turns.
    assert_eq!(motion.tick(), (10, 9));
    assert_ne!(motion.color(), (0x00, 0xff, 0x00, ALPHA));
    assert_eq!(motion.tick(), (6, 12));
    assert_eq!(motion.tick(), (2, 15));
    assert_eq!(motion.tick(), (0, 18));
    assert_eq!(motion.tick(), (4, 21));
}

#[test]
fn colors_follow_the_seed() {
    // From 1 the state becomes 0x2000001, and the draw 0x47e4ce4b896cdd1d.
    let mut motion = Motion::seeded(800, 600, 100, 100, Some(1));
    assert_eq!(motion.random_color(), (0x89, 0xe0, 0xeb, ALPHA));
    assert_eq!(motion.random_color(), (0xbb, 0x4d, 0x42, ALPHA));
    let mut same = Motion::seeded(800, 600, 100, 100, Some((1u128 << 64) + 1));
    assert_eq!(same.random_color(), (0x89, 0xe0, 0xeb, ALPHA));
}

#[test]
fn generator_is_never_started_dead() {
    // Without a clock, and where its low bits are 0, there is a fixed seed.
    let expected = (0x9a, 0xf1, 0x00, ALPHA);
    for nanos in [None, Some(0), Some(1u128 << 64), Some(FALLBACK_SEED as u128)] {
        assert_eq!(Motion::seeded(800, 600, 100, 100, nanos).random_color(), expected);
    }
}

#[test]
fn first_color_is_not_drawn_again() {
    // This seed draws the first color at once, and another one next.
    let mut motion = Motion::seeded(800, 600, 100, 100, Some(0x86a5_a310_5a03_ac6e));
    assert_eq!(motion.random_color(), (154, 119, 49, ALPHA));
}

#[test]
fn every_bounce_changes_the_color() {
    let mut motion = Motion::seeded(110, 110, 100, 100, Some(7));
    let mut bounces = 0;
    for _ in 0..1000 {
        let before = motion.color();
        let (x, y) = motion.tick();
        if x == 0 || x == 10 || y == 0 || y == 10 {
            assert_ne!(motion.color(), before);
            bounces += 1;
        } else {
            assert_eq!(motion.color(), before);
        }
    }
    assert!(bounces > 100);
}

#[test]
fn oversized_rectangle_does_not_run_away() {
    let mut motion = Motion::new(50, 50, 100, 100);
    for _ in 0..1000 {
        let (x, y) = motion.tick();
        assert!((-50..=0).contains(&x));
        assert!((-50..=0).contains(&y));
    }
}
