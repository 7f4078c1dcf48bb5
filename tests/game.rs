use wall2wall::body::{Ball, Field, SPEED_LIMIT};
use wall2wall::geometry::Vec2;
use wall2wall::scoring::{increment_score, Current, SaveDate, Wall};
use wall2wall::world::{
    gravity_for, pause_button, spawn_main_ball, World, BALL_MASS, BALL_RADIUS, GRAVITY,
    MAIN_BALL_RADIUS,
};

fn field() -> Field {
    Field { width: 800_000_000, height: 600_000_000, thickness: 30_000_000 }
}

fn projectile(x: i64, y: i64) -> Ball {
    Ball::new(Vec2::new(x, y), BALL_RADIUS, Vec2::new(0, 0), BALL_MASS)
}

#[test]
fn first_right_contact_scores_and_targets_left() {
    assert_eq!(Current::Neither.touch(Wall::Right), (Current::Left, true));
    assert_eq!(Current::Neither.touch(Wall::Left), (Current::Right, true));
}

#[test]
fn repeated_contact_with_same_wall_does_not_score() {
    let (state, scored) = Current::Neither.touch(Wall::Right);
    assert!(scored);
    assert_eq!(state.touch(Wall::Right), (Current::Left, false));
}

#[test]
fn alternating_contacts_score_each_time() {
    let mut state = Current::Neither;
    let mut score = 0u32;
    let mut best = 0u32;
    for wall in [Wall::Right, Wall::Left, Wall::Right, Wall::Left] {
        let (next, scored) = state.touch(wall);
        state = next;
        assert!(scored);
        increment_score(&mut score, &mut best);
    }
    assert_eq!(score, 4);
    assert_eq!(state, Current::Right);
}

#[test]
fn wall_highlights_follow_state() {
    assert!(Current::Neither.is_target(Wall::Left) && Current::Neither.is_target(Wall::Right));
    assert!(Current::Left.is_target(Wall::Left) && !Current::Left.is_target(Wall::Right));
    assert!(!Current::Right.is_target(Wall::Left) && Current::Right.is_target(Wall::Right));
}

#[test]
fn best_score_follows_a_higher_score() {
    let mut score = 4u32;
    let mut best = 5u32;
    assert!(!increment_score(&mut score, &mut best));
    assert_eq!((score, best), (5, 5));
    assert!(increment_score(&mut score, &mut best));
    assert_eq!((score, best), (6, 6));
}

#[test]
fn save_record_defaults_to_zero() {
    assert_eq!(SaveDate::best_or_zero(None), 0);
    assert_eq!(SaveDate::best_or_zero(Some(SaveDate::new(42))), 42);
    assert_eq!(SaveDate::new(7).score(), 7);
}

#[test]
fn gravity_grows_with_the_crowd() {
    assert_eq!(gravity_for(GRAVITY, 0), 70);
    assert_eq!(gravity_for(GRAVITY, 4), 70);
    assert_eq!(gravity_for(GRAVITY, 5), 105);
    assert_eq!(gravity_for(GRAVITY, 6), 157);
    assert_eq!(gravity_for(GRAVITY, 8), 354);
    assert_eq!(gravity_for(GRAVITY, 1000), SPEED_LIMIT);
    assert_eq!(gravity_for(0, 1000), 0);
    assert_eq!(gravity_for(SPEED_LIMIT, 5), SPEED_LIMIT);
}

#[test]
fn new_world_and_launch() {
    let f = field();
    let mut w = World::new(&f, 9);
    assert_eq!(w.main_ball, spawn_main_ball(&f));
    assert_eq!(w.main_ball.center, Vec2::new(400_000_000, 300_000_000));
    assert_eq!(w.main_ball.velocity, Vec2::new(0, 3000));
    assert_eq!((w.score, w.best_score, w.current), (0, 9, Current::Neither));
    w.launch(&f, Vec2::new(-100, -700_000));
    assert_eq!(w.balls.len(), 1);
    let expected = Ball::new(Vec2::new(400_000_000, 600_000_000), BALL_RADIUS, Vec2::new(-100, -700_000), BALL_MASS);
    assert_eq!(w.balls[0], expected);
}

#[test]
fn falling_main_ball_resets_the_run() {
    let f = field();
    let mut w = World::new(&f, 3);
    w.score = 5;
    w.current = Current::Left;
    w.main_ball.center.y = 600_000_000 + MAIN_BALL_RADIUS + 1_000_000;
    let report = w.step(&f, 16);
    assert!(!report.best_improved && !report.scored);
    assert_eq!(w.score, 0);
    assert_eq!(w.best_score, 3);
    assert_eq!(w.current, Current::Neither);
    assert_eq!(w.main_ball, spawn_main_ball(&f));
}

#[test]
fn projectiles_below_the_field_are_retired() {
    let f = field();
    let mut w = World::new(&f, 0);
    let limit = 600_000_000 + BALL_RADIUS;
    w.balls.push(projectile(200_000_000, limit + 10_000));
    w.balls.push(projectile(600_000_000, limit - 10_000));
    w.step(&f, 0);
    assert_eq!(w.balls.len(), 1);
    assert_eq!(w.balls[0].center, Vec2::new(600_000_000, limit - 10_000));
    assert!(w.balls[0].in_bound);
}

#[test]
fn main_ball_scores_on_the_right_wall() {
    let f = field();
    let mut w = World::new(&f, 0);
    w.main_ball.center.x = 760_000_000;
    w.main_ball.velocity.x = 1_000;
    let report = w.step(&f, 16);
    assert!(report.best_improved && report.scored);
    assert_eq!((w.score, w.best_score), (1, 1));
    assert_eq!(w.current, Current::Left);
    assert_eq!(w.main_ball.center.x, 720_000_000);
    assert_eq!(w.main_ball.velocity.x, -1_000);
    // resting against the same wall scores nothing more
    w.main_ball.velocity.x = 1_000;
    let report = w.step(&f, 16);
    assert!(!report.best_improved && !report.scored);
    assert_eq!(w.score, 1);
}

#[test]
fn projectile_pushes_main_ball() {
    let f = field();
    let mut w = World::new(&f, 0);
    w.balls.push(projectile(400_000_000, 300_000_000 + 60_000_000));
    w.step(&f, 0);
    // overlap 10_000_000 straight below: impulse 2 * 27 * 10_000_000
    assert_eq!(w.main_ball.velocity, Vec2::new(0, 3000 - 27_000));
    assert_eq!(w.balls[0].velocity, Vec2::new(0, 77_143));
}

#[test]
fn projectiles_collide_with_each_other() {
    let f = field();
    let mut w = World::new(&f, 0);
    w.balls.push(projectile(200_000_000, 500_000_000));
    w.balls.push(projectile(230_000_000, 500_000_000));
    w.step(&f, 0);
    // overlap 10_000_000 along x between equal masses
    assert_eq!(w.balls[0].velocity, Vec2::new(-40_000, 0));
    assert_eq!(w.balls[1].velocity, Vec2::new(40_000, 0));
}

#[test]
fn pause_button_hit_test() {
    let b = pause_button();
    assert!(b.contains(Vec2::new(75_000_000, 75_000_000)));
    assert!(!b.contains(Vec2::new(100_000_000, 75_000_000)));
}

#[test]
fn scoring_contact_in_the_frame_of_a_fall_is_reported() {
    let f = field();
    let mut w = World::new(&f, 0);
    w.main_ball.center.x = 760_000_000;
    w.main_ball.center.y = 600_000_000 + MAIN_BALL_RADIUS + 1_000_000;
    let report = w.step(&f, 16);
    assert!(report.scored && report.best_improved);
    assert_eq!((w.score, w.best_score), (0, 1));
    assert_eq!(w.main_ball, spawn_main_ball(&f));
    assert_eq!(w.main_ball.velocity, Vec2::new(0, 3000));
}
