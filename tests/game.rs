use snek::anchor::Anchor;
use snek::game::{
    random_field_point, template_body, Apple, Controls, Game, Screen, APPLE_RADIUS,
    SCREEN_HEIGHT, SCREEN_WIDTH,
};
use snek::geometry::Vec2;

const IDLE: Controls = Controls { left: false, right: false, confirm: false, debug: false };
const CONFIRM: Controls = Controls { left: false, right: false, confirm: true, debug: false };

fn playing(now: u64) -> Game {
    let mut g = Game::new();
    g.step(CONFIRM, now);
    assert_eq!(g.screen, Screen::Play);
    g
}

#[test]
fn new_game_starts_on_intro_with_template() {
    let g = Game::new();
    assert_eq!(g.screen, Screen::Logo);
    assert_eq!(g.score, 0);
    assert!(!g.debug);
    assert_eq!(g.snake.body.len(), 12);
    assert_eq!(g.snake.body, g.body);
    assert_eq!(g.apple.radius, APPLE_RADIUS);
    let xs: Vec<i64> = g.body.iter().map(|a| a.point.x).collect();
    assert_eq!(
        xs,
        vec![50_000_000, 17_000_000, -23_000_000, -65_000_000, -98_000_000, -128_000_000, -158_000_000, -188_000_000, -218_000_000, -248_000_000, -278_000_000, -308_000_000]
    );
    let ds: Vec<i64> = g.body.iter().map(|a| a.distance).collect();
    assert_eq!(
        ds,
        vec![33_000_000, 40_000_000, 42_000_000, 33_000_000, 30_000_000, 30_000_000, 30_000_000, 30_000_000, 30_000_000, 30_000_000, 30_000_000, 30_000_000]
    );
    assert!(g.body.iter().all(|a| a.point.y == 120_000_000));
}

#[test]
fn intro_waits_for_confirm() {
    let mut g = Game::new();
    g.step(IDLE, 500);
    assert_eq!(g.screen, Screen::Logo);
    g.step(CONFIRM, 700);
    assert_eq!(g.screen, Screen::Play);
    assert_eq!(g.start, 700);
}

#[test]
fn eating_scores_grows_and_moves_apple() {
    let mut g = playing(0);
    g.apple.point = Vec2 { x: 600_000_000, y: 360_000_000 };
    g.snake.body[0].point = g.apple.point;
    let before = g.snake.body.len();
    let old_apple = g.apple.point;
    let old_tail = g.snake.body[before - 1].point;
    g.try_apple_at(Vec2 { x: 1, y: 2 });
    assert_eq!(g.score, 1);
    assert_eq!(g.snake.body.len(), before + 1);
    assert_eq!(g.snake.body[before], Anchor::new(old_tail, 30_000_000));
    assert_eq!(g.apple.point, Vec2 { x: 1, y: 2 });
    assert_ne!(g.apple.point, old_apple);
}

#[test]
fn head_on_apple_is_eaten_next_tick() {
    let mut g = playing(0);
    g.apple.point = Vec2 { x: 400_000_000, y: 300_000_000 };
    g.snake.body[0].point = g.apple.point;
    let before = g.snake.body.len();
    let old_apple = g.apple.point;
    g.step(IDLE, 16);
    assert_eq!(g.score, 1);
    assert_eq!(g.snake.body.len(), before + 1);
    assert_ne!(g.apple.point, old_apple);
}

#[test]
fn apple_out_of_reach_is_left() {
    let mut g = playing(0);
    g.apple.point = Vec2 { x: 1_000_000_000, y: 600_000_000 };
    let s = g.snake.clone();
    g.try_apple_at(Vec2 { x: 1, y: 2 });
    assert_eq!(g.score, 0);
    assert_eq!(g.snake.body, s.body);
    assert_eq!(g.apple.point, Vec2 { x: 1_000_000_000, y: 600_000_000 });
}

#[test]
fn eat_margin_reaches_before_contact() {
    let mut g = playing(0);
    let h = g.snake.body[0];
    // radii 33 + 20, margin 5: a gap just under 58 units eats, 58 does not
    g.apple.point = Vec2 { x: h.point.x + 57_999_999, y: h.point.y };
    assert!(g.apple_reached());
    g.apple.point = Vec2 { x: h.point.x + 58_000_000, y: h.point.y };
    assert!(!g.apple_reached());
}

#[test]
fn time_limit_ends_round_and_keeps_score() {
    let mut g = playing(1_000);
    g.apple.point = Vec2 { x: 1_100_000_000, y: 700_000_000 };
    g.timer(40_999);
    assert_eq!(g.screen, Screen::Play);
    g.timer(41_000);
    assert_eq!(g.screen, Screen::GameOver);
}

#[test]
fn idle_round_is_over_after_forty_seconds() {
    let mut g = playing(0);
    g.apple.point = Vec2 { x: 1_150_000_000, y: 700_000_000 };
    let mut now = 0u64;
    while g.screen == Screen::Play && now < 60_000 {
        now += 1_000;
        g.step(IDLE, now);
    }
    assert_eq!(g.screen, Screen::GameOver);
    assert!(now >= 40_000);
    let score = g.score;
    g.step(IDLE, now + 1_000);
    assert_eq!(g.screen, Screen::GameOver);
    assert_eq!(g.score, score);
}

#[test]
fn biting_segment_five_ends_round() {
    let mut g = playing(0);
    let target = g.snake.body[5];
    g.snake.body[0].point = Vec2 { x: target.point.x + 10_000_000, y: target.point.y };
    g.oroboros();
    assert_eq!(g.screen, Screen::GameOver);
}

#[test]
fn near_but_apart_is_no_bite() {
    let mut g = playing(0);
    let target = g.snake.body[5];
    let reach = g.snake.body[0].distance + target.distance;
    g.snake.body[0].point = Vec2 { x: target.point.x, y: target.point.y + reach };
    g.oroboros();
    assert_eq!(g.screen, Screen::Play);
}

#[test]
fn first_three_segments_never_bite() {
    let mut g = playing(0);
    g.snake.body[1].point = g.snake.body[0].point;
    g.snake.body[2].point = g.snake.body[0].point;
    g.oroboros();
    assert_eq!(g.screen, Screen::Play);
}

#[test]
fn head_is_clamped_to_field() {
    let mut g = playing(0);
    g.snake.body[0].point = Vec2 { x: -5_000_000, y: 900_000_000 };
    g.clamp();
    assert_eq!(g.snake.body[0].point, Vec2 { x: 33_000_000, y: SCREEN_HEIGHT - 33_000_000 });
    g.snake.body[0].point = Vec2 { x: 2_000_000_000, y: 10 };
    g.clamp();
    assert_eq!(g.snake.body[0].point, Vec2 { x: SCREEN_WIDTH - 33_000_000, y: 33_000_000 });
}

#[test]
fn head_stays_inside_field_every_tick() {
    let mut g = playing(0);
    g.apple.point = Vec2 { x: 1_190_000_000, y: 10_000_000 };
    for t in 0..600u64 {
        let c = Controls { left: t % 40 < 10, right: false, confirm: false, debug: false };
        g.step(c, 0);
        if g.screen != Screen::Play {
            break;
        }
        let h = g.snake.body[0];
        assert!(h.point.x >= h.distance && h.point.x <= SCREEN_WIDTH - h.distance);
        assert!(h.point.y >= h.distance && h.point.y <= SCREEN_HEIGHT - h.distance);
    }
}

#[test]
fn body_never_shrinks_while_playing() {
    let mut g = playing(0);
    let mut len = g.snake.body.len();
    for t in 0..300u64 {
        g.snake.body[0].point = g.apple.point;
        g.clamp();
        let score = g.score;
        g.step(IDLE, t);
        if g.screen != Screen::Play {
            break;
        }
        assert!(g.snake.body.len() >= len);
        assert_eq!(g.snake.body.len() - len, (g.score - score) as usize);
        assert_eq!(g.snake.body.len(), 12 + g.score as usize);
        len = g.snake.body.len();
    }
}

#[test]
fn debug_toggles_on_press() {
    let mut g = playing(0);
    g.step(Controls { debug: true, ..IDLE }, 1);
    assert!(g.debug);
    g.step(Controls { debug: true, ..IDLE }, 2);
    assert!(!g.debug);
}

#[test]
fn confirm_after_game_over_restarts() {
    let mut g = playing(0);
    g.snake.body[0].point = g.apple.point;
    g.clamp();
    g.step(IDLE, 10);
    g.timer(50_000);
    assert_eq!(g.screen, Screen::GameOver);
    g.step(CONFIRM, 60_000);
    assert_eq!(g.screen, Screen::Play);
    assert_eq!(g.score, 0);
    assert_eq!(g.snake.body, template_body());
    assert_eq!(g.start, 60_000);
    g.timer(60_000);
    assert_eq!(g.screen, Screen::Play);
}

#[test]
fn restart_uses_given_apple_point() {
    let mut g = playing(0);
    g.screen = Screen::GameOver;
    g.restart(5, Vec2 { x: 10, y: 20 });
    assert_eq!(g.apple, Apple::new(Vec2 { x: 10, y: 20 }, APPLE_RADIUS));
    assert_eq!(g.screen, Screen::Play);
}

#[test]
fn random_field_points_lie_in_field() {
    for _ in 0..1000 {
        let p = random_field_point();
        assert!(p.x >= 0 && p.x < SCREEN_WIDTH);
        assert!(p.y >= 0 && p.y < SCREEN_HEIGHT);
    }
}
