use wall2wall::body::{Ball, Field, SPEED_LIMIT};
use wall2wall::geometry::{isqrt, Rect, Vec2};

fn field() -> Field {
    Field { width: 800_000_000, height: 600_000_000, thickness: 30_000_000 }
}

fn ball(x: i64, y: i64, vx: i64, vy: i64, radius: i64, mass: i64) -> Ball {
    Ball::new(Vec2::new(x, y), radius, Vec2::new(vx, vy), mass)
}

#[test]
fn integration_from_rest_matches_closed_form() {
    let mut b = ball(400_000_000, 100_000_000, 0, 0, 20_000_000, 7);
    let mut speeds = vec![];
    for _ in 0..3 {
        b.move_kinematic(70, 16);
        speeds.push(b.velocity.y);
    }
    assert_eq!(speeds, vec![1120, 2240, 3360]);
    // g * dt * dt * n * (n + 1) / 2 with n = 3
    assert_eq!(b.center.y, 100_000_000 + 70 * 16 * 16 * 6);
    assert_eq!(b.center.x, 400_000_000);
}

#[test]
fn integration_moves_horizontally_and_saturates() {
    let mut b = ball(0, 0, 5, SPEED_LIMIT - 10, 1, 1);
    b.move_kinematic(70, 16);
    assert_eq!(b.velocity.y, SPEED_LIMIT);
    assert_eq!(b.center.x, 80);
    assert_eq!(b.center.y, SPEED_LIMIT * 16);
}

#[test]
fn integration_with_zero_step_changes_nothing() {
    let mut b = ball(7, 9, 3, -4, 1, 1);
    b.move_kinematic(70, 0);
    assert_eq!(b, ball(7, 9, 3, -4, 1, 1));
}

#[test]
fn right_wall_reflects_and_clamps() {
    let f = field();
    let mut b = ball(790_000_000, 300_000_000, 500, 20, 20_000_000, 7);
    let c = b.bounce_walls(&f);
    assert!(c.right && !c.left);
    assert_eq!(b.center.x, 800_000_000 - 20_000_000 - 30_000_000);
    assert_eq!(b.velocity.x, -500);
    assert_eq!(b.center.y, 300_000_000);
    assert_eq!(b.velocity.y, 20);
}

#[test]
fn left_wall_and_ceiling_reflect_together() {
    let f = field();
    let mut b = ball(-5, -7, -300, -400, 20_000_000, 7);
    let c = b.bounce_walls(&f);
    assert!(c.left && !c.right);
    assert_eq!(b.center, Vec2::new(50_000_000, 50_000_000));
    assert_eq!(b.velocity, Vec2::new(300, 400));
}

#[test]
fn walls_leave_an_inner_body_alone() {
    let f = field();
    let mut b = ball(400_000_000, 300_000_000, -300, 400, 20_000_000, 7);
    let c = b.bounce_walls(&f);
    assert!(!c.left && !c.right);
    assert_eq!(b, ball(400_000_000, 300_000_000, -300, 400, 20_000_000, 7));
}

#[test]
fn walls_contain_whatever_the_start() {
    let f = field();
    for &(x, y) in &[(-1_000_000_000, 0), (2_000_000_000, -5), (400_000_000, 900_000_000), (0, 0)] {
        let mut b = ball(x, y, 12, -34, 50_000_000, 20);
        b.bounce_walls(&f);
        assert!(80_000_000 <= b.center.x && b.center.x <= 720_000_000);
        assert!(b.center.y >= 80_000_000);
    }
}

#[test]
fn narrow_field_settles_on_the_left_bound() {
    let f = Field { width: 100, height: 100, thickness: 10 };
    let mut b = ball(60, 50, 7, 0, 45, 1);
    let c = b.bounce_walls(&f);
    assert!(c.right && c.left);
    assert_eq!(b.center.x, 55);
    assert_eq!(b.velocity.x, 7);
}

#[test]
fn collision_impulse_follows_inverse_mass_ratio() {
    // overlap of 70_000 along x; masses 2 and 0.7 in tenths
    let mut a = ball(130_000, 0, 0, 0, 100_000, 20);
    let mut b = ball(0, 0, 0, 0, 100_000, 7);
    a.bounce_balls(&mut b);
    // impulse 2 * 27 * 70_000 = 3_780_000, divided by 20_000 and 7_000
    assert_eq!(a.velocity, Vec2::new(189, 0));
    assert_eq!(b.velocity, Vec2::new(-540, 0));
    assert_eq!(20 * a.velocity.x, -(7 * b.velocity.x));
    assert_eq!(a.center, Vec2::new(130_000, 0));
    assert_eq!(b.center, Vec2::new(0, 0));
}

#[test]
fn collision_increases_separating_speed() {
    let mut a = ball(30_000, 40_000, -10, -20, 60_000, 10);
    let mut b = ball(0, 0, 5, 5, 60_000, 10);
    let before = (a.velocity.x - b.velocity.x) * 30_000 + (a.velocity.y - b.velocity.y) * 40_000;
    a.bounce_balls(&mut b);
    let after = (a.velocity.x - b.velocity.x) * 30_000 + (a.velocity.y - b.velocity.y) * 40_000;
    assert!(after > before);
    // distance 50_000, depth 70_000, impulse 2 * 20 * 70_000 * (3, 4) / 5
    assert_eq!(a.velocity, Vec2::new(-10 + 168, -20 + 224));
    assert_eq!(b.velocity, Vec2::new(5 - 168, 5 - 224));
}

#[test]
fn coincident_centres_push_along_x() {
    let mut a = ball(5, 5, 0, 0, 100_000, 10);
    let mut b = ball(5, 5, 0, 0, 100_000, 10);
    a.bounce_balls(&mut b);
    assert_eq!(a.velocity, Vec2::new(800, 0));
    assert_eq!(b.velocity, Vec2::new(-800, 0));
}

#[test]
fn touching_bodies_do_not_collide() {
    let mut a = ball(200_000, 0, 1, 2, 100_000, 10);
    let mut b = ball(0, 0, 3, 4, 100_000, 10);
    a.bounce_balls(&mut b);
    assert_eq!(a.velocity, Vec2::new(1, 2));
    assert_eq!(b.velocity, Vec2::new(3, 4));
}

#[test]
fn small_overlap_still_responds() {
    let mut a = ball(199_999, 0, 0, 0, 100_000, 1_000_000);
    let mut b = ball(0, 0, 0, 0, 100_000, 1_000_000);
    a.bounce_balls(&mut b);
    assert_eq!(a.velocity, Vec2::new(1, 0));
    assert_eq!(b.velocity, Vec2::new(-1, 0));
}

#[test]
fn square_roots_round_down() {
    assert_eq!(isqrt(0), 0);
    assert_eq!(isqrt(1), 1);
    assert_eq!(isqrt(15), 3);
    assert_eq!(isqrt(16), 4);
    assert_eq!(isqrt(2_500_000_000), 50_000);
    assert_eq!(isqrt(2_499_999_999), 49_999);
}

#[test]
fn rectangles_contain_inner_points_only() {
    let r = Rect::new(50, 50, 50, 50);
    assert!(r.contains(Vec2::new(75, 75)));
    assert!(!r.contains(Vec2::new(50, 75)));
    assert!(!r.contains(Vec2::new(75, 100)));
    assert!(!r.contains(Vec2::new(10, 10)));
}

#[test]
fn field_walls() {
    let f = field();
    assert_eq!(f.left_wall(), Rect::new(0, 0, 30_000_000, 600_000_000));
    assert_eq!(f.right_wall(), Rect::new(770_000_000, 0, 30_000_000, 600_000_000));
    assert_eq!(f.ceiling(), Rect::new(0, 0, 800_000_000, 30_000_000));
}
