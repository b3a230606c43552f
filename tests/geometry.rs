use snek::geometry::{isqrt, rotate90, scale_to, Vec2};
use snek::anchor::Anchor;
use snek::snake::{scale_frac, Snake, MAX_LEN};
use snek::random::random_below;

#[test]
fn isqrt_exact_values() {
    assert_eq!(isqrt(0), 0);
    assert_eq!(isqrt(1), 1);
    assert_eq!(isqrt(15), 3);
    assert_eq!(isqrt(16), 4);
    assert_eq!(isqrt(17), 4);
    assert_eq!(isqrt(u128::MAX), u64::MAX);
}

#[test]
fn scale_to_keeps_direction_and_sets_length() {
    let r = scale_to(Vec2 { x: 3, y: 4 }, 5_000);
    assert_eq!(r, Vec2 { x: 3_000, y: 4_000 });
    let r = scale_to(Vec2 { x: -30, y: 40 }, 50);
    assert_eq!(r, Vec2 { x: -30, y: 40 });
    let r = scale_to(Vec2 { x: 0, y: -7 }, 30_000);
    assert_eq!(r, Vec2 { x: 0, y: -30_000 });
}

#[test]
fn scale_to_zero_vector_points_along_x() {
    assert_eq!(scale_to(Vec2 { x: 0, y: 0 }, 42), Vec2 { x: 42, y: 0 });
}

#[test]
fn rotate90_is_y_minus_x() {
    assert_eq!(rotate90(Vec2 { x: 3, y: 4 }), Vec2 { x: 4, y: -3 });
}

#[test]
fn scale_frac_rounds_toward_zero() {
    assert_eq!(scale_frac(100, 33, 100), 33);
    assert_eq!(scale_frac(-100, 33, 100), -33);
    assert_eq!(scale_frac(-7, 3, 10), -2);
    assert_eq!(scale_frac(7, 3, 10), 2);
}

#[test]
fn resolve_pulls_onto_parent_circle() {
    let parent = Anchor::new(Vec2 { x: 0, y: 0 }, 10_000_000);
    let mut a = Anchor::new(Vec2 { x: 30_000_000, y: 40_000_000 }, 20_000_000);
    a.scale_to_dist(&parent);
    assert_eq!(a.point, Vec2 { x: 6_000_000, y: 8_000_000 });
    assert_eq!(a.from_parent, Vec2 { x: 6_000_000, y: 8_000_000 });
    assert_eq!(a.rhs, Vec2 { x: 16_000_000, y: -12_000_000 });
    assert_eq!(a.distance, 20_000_000);
}

#[test]
fn resolve_on_circle_is_fixed_point() {
    let parent = Anchor::new(Vec2 { x: 1_000_000, y: -2_000_000 }, 5_000_000);
    let mut a = Anchor::new(Vec2 { x: 4_000_000, y: 2_000_000 }, 3_000_000);
    a.scale_to_dist(&parent);
    assert_eq!(a.point, Vec2 { x: 4_000_000, y: 2_000_000 });
    assert_eq!(a.from_parent, Vec2 { x: 3_000_000, y: 4_000_000 });
    let before = a;
    a.scale_to_dist(&parent);
    assert_eq!(a, before);
}

#[test]
fn resolve_coincident_points_uses_x_axis() {
    let parent = Anchor::new(Vec2 { x: 500, y: 500 }, 7_000_000);
    let mut a = Anchor::new(Vec2 { x: 500, y: 500 }, 2_000_000);
    a.scale_to_dist(&parent);
    assert_eq!(a.point, Vec2 { x: 7_000_500, y: 500 });
    assert_eq!(a.from_parent, Vec2 { x: 7_000_000, y: 0 });
}

fn chain() -> Snake {
    Snake::from_body(vec![
        Anchor::new(Vec2 { x: 100_000_000, y: 100_000_000 }, 33_000_000),
        Anchor::new(Vec2 { x: 60_000_000, y: 90_000_000 }, 40_000_000),
        Anchor::new(Vec2 { x: 30_000_000, y: 140_000_000 }, 30_000_000),
        Anchor::new(Vec2 { x: 31_000_000, y: 141_000_000 }, 30_000_000),
    ])
}

#[test]
fn update_holds_every_follower_at_parent_distance() {
    let mut s = chain();
    for t in 0..50 {
        s.input(t % 3 == 0, t % 5 == 0);
        s.update();
        for k in 1..s.body.len() {
            let p = s.body[k - 1];
            let a = s.body[k];
            let dx = (a.point.x - p.point.x) as f64;
            let dy = (a.point.y - p.point.y) as f64;
            let gap = (dx * dx + dy * dy).sqrt();
            assert!((gap - p.distance as f64).abs() <= 100.0, "gap {} radius {}", gap, p.distance);
            assert_eq!(a.from_parent, Vec2 { x: a.point.x - p.point.x, y: a.point.y - p.point.y });
        }
    }
}

#[test]
fn update_aims_head_at_first_follower() {
    let mut s = chain();
    s.update();
    let h = s.body[0];
    let n = s.body[1];
    let fp = scale_to(Vec2 { x: n.point.x - h.point.x, y: n.point.y - h.point.y }, h.distance);
    assert_eq!(h.from_parent, fp);
    assert_eq!(h.rhs, scale_to(rotate90(fp), h.distance));
    assert_eq!(h.point, Vec2 { x: 100_000_000, y: 100_000_000 });
}

#[test]
fn input_moves_head_one_step_forward() {
    let mut s = Snake::from_body(vec![
        Anchor::new(Vec2 { x: 100_000_000, y: 100_000_000 }, 30_000_000),
        Anchor::new(Vec2 { x: 70_000_000, y: 100_000_000 }, 30_000_000),
    ]);
    s.update();
    s.input(false, false);
    assert_eq!(s.body[0].point, Vec2 { x: 107_500_000, y: 100_000_000 });
}

#[test]
fn input_turns_toward_held_side() {
    let mut s = Snake::from_body(vec![
        Anchor::new(Vec2 { x: 100_000_000, y: 100_000_000 }, 30_000_000),
        Anchor::new(Vec2 { x: 70_000_000, y: 100_000_000 }, 30_000_000),
    ]);
    s.update();
    let mut l = s.clone();
    l.input(true, false);
    let mut r = s.clone();
    r.input(false, true);
    assert!(l.body[0].point.y < 100_000_000);
    assert!(r.body[0].point.y > 100_000_000);
    let mut both = s.clone();
    both.input(true, true);
    assert_eq!(both.body[0].point, Vec2 { x: 107_500_000, y: 100_000_000 });
}

#[test]
fn ribbon_interleaves_edges() {
    let mut s = chain();
    s.update();
    let pts = s.ribbon();
    assert_eq!(pts.len(), 2 * s.body.len());
    for (k, a) in s.body.iter().enumerate() {
        assert_eq!(pts[2 * k], Vec2 { x: a.point.x + a.rhs.x, y: a.point.y + a.rhs.y });
        assert_eq!(pts[2 * k + 1], Vec2 { x: a.point.x - a.rhs.x, y: a.point.y - a.rhs.y });
    }
}

#[test]
fn eyes_sit_beside_the_head() {
    let mut s = Snake::from_body(vec![
        Anchor::new(Vec2 { x: 100_000_000, y: 100_000_000 }, 30_000_000),
        Anchor::new(Vec2 { x: 70_000_000, y: 100_000_000 }, 30_000_000),
    ]);
    s.update();
    assert_eq!(s.body[0].from_parent, Vec2 { x: -30_000_000, y: 0 });
    assert_eq!(s.body[0].rhs, Vec2 { x: 0, y: 30_000_000 });
    let (a, b) = s.eyes();
    assert_eq!(a, Vec2 { x: 91_000_000, y: 130_000_000 });
    assert_eq!(b, Vec2 { x: 91_000_000, y: 70_000_000 });
}

#[test]
fn grow_appends_tail_anchor() {
    let mut s = chain();
    s.grow(Vec2 { x: 5, y: 6 });
    assert_eq!(s.body.len(), 5);
    assert_eq!(s.body[4], Anchor::new(Vec2 { x: 5, y: 6 }, 30_000_000));
}

#[test]
fn random_snake_in_range() {
    let s = Snake::new(10);
    assert_eq!(s.body.len(), 10);
    for a in s.body.iter() {
        assert!(a.point.x >= 0 && a.point.x < 720_000_000);
        assert!(a.point.y >= 0 && a.point.y < 720_000_000);
        assert!(a.distance >= 0 && a.distance < 50_000_000);
    }
    assert!(MAX_LEN >= 10);
}

#[test]
fn random_below_stays_below() {
    for _ in 0..1000 {
        assert!(random_below(7) < 7);
    }
    let draws: Vec<u64> = (0..64).map(|_| random_below(1_000_000)).collect();
    assert!(draws.iter().any(|&d| d != draws[0]));
}

fn length(v: Vec2) -> f64 {
    ((v.x as f64).powi(2) + (v.y as f64).powi(2)).sqrt()
}

#[test]
fn resolve_from_tiny_diagonal_offset_is_within_tolerance() {
    let parent = Anchor::new(Vec2 { x: 0, y: 0 }, 30_000_000);
    let mut a = Anchor::new(Vec2 { x: 1, y: 1 }, 30_000_000);
    a.scale_to_dist(&parent);
    assert!((length(a.point) - 30_000_000.0).abs() <= 100.0);
    assert!((length(a.from_parent) - 30_000_000.0).abs() <= 100.0);
    assert!((length(a.rhs) - 30_000_000.0).abs() <= 100.0);
    assert!(a.point.x > 0 && a.point.x == a.point.y);
}

#[test]
fn step_along_tiny_diagonal_is_within_tolerance() {
    let mut s = Snake::from_body(vec![
        Anchor::new(Vec2 { x: 100_000_000, y: 100_000_000 }, 30_000_000),
        Anchor::new(Vec2 { x: 0, y: 0 }, 30_000_000),
    ]);
    s.body[1].from_parent = Vec2 { x: -1, y: -1 };
    s.input(false, false);
    let moved = Vec2 { x: s.body[0].point.x - 100_000_000, y: s.body[0].point.y - 100_000_000 };
    assert!((length(moved) - 7_500_000.0).abs() <= 100.0);
    assert!(moved.x > 0 && moved.x == moved.y);
}

#[test]
fn resolving_twice_stays_within_tolerance() {
    let parent = Anchor::new(Vec2 { x: 5_000_000, y: -3_000_000 }, 33_000_000);
    let mut a = Anchor::new(Vec2 { x: 5_000_001, y: -2_999_999 }, 30_000_000);
    a.scale_to_dist(&parent);
    let once = a;
    a.scale_to_dist(&parent);
    let moved = Vec2 { x: a.point.x - once.point.x, y: a.point.y - once.point.y };
    assert!(length(moved) <= 100.0);
}

#[test]
fn random_snake_anchors_start_unoriented() {
    let s = Snake::new(5);
    for a in s.body.iter() {
        assert_eq!(a.from_parent, Vec2 { x: 0, y: 0 });
        assert_eq!(a.rhs, Vec2 { x: 0, y: 0 });
    }
    assert_eq!(Snake::new(0).body.len(), 0);
}
