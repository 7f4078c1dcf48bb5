//! Circular bodies: their integer model, the integrator and the wall
//! reflector.

use vstd::prelude::*;
use crate::geometry::{Rect, Vec2};

verus! {

/// No velocity component ever exceeds this in magnitude; updates saturate at it.
pub const SPEED_LIMIT: i64 = 0x100_0000_0000;

/// Bound on the coordinates of a body between two simulation steps.
pub const POS_LIMIT: i64 = 0x1000_0000_0000;

/// Bound on the coordinates of a body while a step is under way.
pub const MOTION_LIMIT: i64 = 0x10_0000_0000_0000;

/// Largest radius a body may have.
pub const RADIUS_LIMIT: i64 = 0x10_0000_0000;

/// Largest mass a body may have.
pub const MASS_LIMIT: i64 = 0x10_0000;

/// Longest time step, in milliseconds.
pub const MAX_DT: i64 = 1000;

/// Largest field dimension or wall thickness.
pub const FIELD_LIMIT: i64 = 0x100_0000_0000;

/// A circle that moves: centre, radius, velocity, mass and liveness.
#[derive(Clone, Copy, Debug, PartialEq, Eq, Structural)]
pub struct Ball {
    pub center: Vec2,
    pub radius: i64,
    pub velocity: Vec2,
    pub mass: i64,
    pub in_bound: bool,
}

/// The mathematical value of a `Ball`.
pub ghost struct BallView {
    pub cx: int,
    pub cy: int,
    pub vx: int,
    pub vy: int,
    pub radius: int,
    pub mass: int,
    pub in_bound: bool,
}

impl View for Ball {
    type V = BallView;

    open spec fn view(&self) -> BallView {
        BallView {
            cx: self.center.x as int,
            cy: self.center.y as int,
            vx: self.velocity.x as int,
            vy: self.velocity.y as int,
            radius: self.radius as int,
            mass: self.mass as int,
            in_bound: self.in_bound,
        }
    }
}

pub open spec fn abs(v: int) -> int {
    if v < 0 { -v } else { v }
}

/// `v` limited to `[-SPEED_LIMIT, SPEED_LIMIT]`.
pub open spec fn clamp_speed(v: int) -> int {
    if v > SPEED_LIMIT { SPEED_LIMIT as int }
    else if v < -SPEED_LIMIT { -SPEED_LIMIT }
    else { v }
}

impl BallView {
    /// Radius, mass and velocity within the library's limits.
    pub open spec fn valid(self) -> bool {
        &&& 0 < self.radius <= RADIUS_LIMIT
        &&& 1 <= self.mass <= MASS_LIMIT
        &&& abs(self.vx) <= SPEED_LIMIT
        &&& abs(self.vy) <= SPEED_LIMIT
    }

    /// A valid body whose centre lies within the bound kept between steps.
    pub open spec fn settled(self) -> bool {
        self.valid() && abs(self.cx) <= POS_LIMIT && abs(self.cy) <= POS_LIMIT
    }

    /// A valid body whose centre lies within the bound kept during a step.
    pub open spec fn moving(self) -> bool {
        self.valid() && abs(self.cx) <= MOTION_LIMIT && abs(self.cy) <= MOTION_LIMIT
    }
}

/// One step of semi-implicit Euler under downward gravity `g` for `dt`:
/// the vertical speed first gains `g * dt`, then the centre moves by the new
/// velocity times `dt`.
pub open spec fn integrate(b: BallView, g: int, dt: int) -> BallView {
    let vy = clamp_speed(b.vy + g * dt);
    BallView { cx: b.cx + b.vx * dt, cy: b.cy + vy * dt, vy: vy, ..b }
}

/// `n` successive integration steps.
pub open spec fn integrate_n(b: BallView, g: int, dt: int, n: nat) -> BallView
    decreases n,
{
    if n == 0 { b } else { integrate(integrate_n(b, g, dt, (n - 1) as nat), g, dt) }
}

/// Under constant gravity and a positive time step, as long as the speed
/// stays under the limit, `n` integration steps follow the closed form: the
/// downward speed gains `g * dt` at every step, so it strictly increases,
/// and the height moves by `n * vy * dt + g * dt * dt * n * (n + 1) / 2`.
pub proof fn lemma_integration_closed_form(b: BallView, g: int, dt: int, n: nat)
    requires
        b.valid(),
        g > 0,
        dt > 0,
        b.vy + n * g * dt <= SPEED_LIMIT,
    ensures
        integrate_n(b, g, dt, n).vy == b.vy + n * g * dt,
        integrate_n(b, g, dt, n).vx == b.vx,
        integrate_n(b, g, dt, n).cx == b.cx + n * b.vx * dt,
        2 * integrate_n(b, g, dt, n).cy == 2 * b.cy + 2 * n * b.vy * dt + g * dt * dt * n * (n + 1),
        n > 0 ==> integrate_n(b, g, dt, n).vy > integrate_n(b, g, dt, (n - 1) as nat).vy,
    decreases n,
{
    if n > 0 {
        let m = (n - 1) as nat;
        assert(b.vy + m * g * dt <= b.vy + n * g * dt) by (nonlinear_arith)
            requires m + 1 == n, g > 0, dt > 0;
        lemma_integration_closed_form(b, g, dt, m);
        let p = integrate_n(b, g, dt, m);
        assert(m * g * dt >= 0) by (nonlinear_arith) requires g > 0, dt > 0;
        assert(p.vy + g * dt == b.vy + n * g * dt) by (nonlinear_arith)
            requires p.vy == b.vy + m * g * dt, m + 1 == n;
        assert(g * dt > 0) by (nonlinear_arith) requires g > 0, dt > 0;
        let vy = b.vy + n * g * dt;
        assert(integrate_n(b, g, dt, n) == integrate(p, g, dt));
        assert(clamp_speed(p.vy + g * dt) == vy);
        assert(p.cx + b.vx * dt == b.cx + n * b.vx * dt) by (nonlinear_arith)
            requires p.cx == b.cx + m * b.vx * dt, m + 1 == n;
        let a = b.vy * dt;
        let gg = g * dt * dt;
        assert(vy * dt == a + n * gg) by (nonlinear_arith)
            requires vy == b.vy + n * g * dt, a == b.vy * dt, gg == g * dt * dt;
        assert(m * b.vy * dt == m * a && n * b.vy * dt == n * a) by (nonlinear_arith)
            requires a == b.vy * dt;
        assert(g * dt * dt * m * (m + 1) == gg * (m * (m + 1)) && g * dt * dt * n * (n + 1) == gg * (n * (n + 1)))
            by (nonlinear_arith)
            requires gg == g * dt * dt;
        assert(gg * (m * (m + 1)) + 2 * (n * gg) == gg * (n * (n + 1))) by (nonlinear_arith)
            requires m + 1 == n;
        assert(2 * m * b.vy * dt == 2 * (m * a) && 2 * n * b.vy * dt == 2 * (n * a)) by (nonlinear_arith)
            requires a == b.vy * dt;
        assert(m * a + a == n * a) by (nonlinear_arith)
            requires m + 1 == n;
        assert(2 * (p.cy + vy * dt) == 2 * b.cy + 2 * n * b.vy * dt + g * dt * dt * n * (n + 1));
    } else {
        assert(n * g * dt == 0 && n * b.vx * dt == 0 && n * b.vy * dt == 0 && g * dt * dt * n * (n + 1) == 0)
            by (nonlinear_arith)
            requires n == 0;
    }
}

/// The play field: its width and height, and the thickness of the left,
/// right and top walls. There is no bottom wall.
#[derive(Clone, Copy, Debug, PartialEq, Eq, Structural)]
pub struct Field {
    pub width: i64,
    pub height: i64,
    pub thickness: i64,
}

impl Field {
    pub open spec fn wf(self) -> bool {
        &&& 0 <= self.width <= FIELD_LIMIT
        &&& 0 <= self.height <= FIELD_LIMIT
        &&& 0 <= self.thickness <= FIELD_LIMIT
    }

    /// Lowest centre height (the ceiling bound) for a body of radius `r`.
    pub open spec fn top(self, r: int) -> int {
        r + self.thickness
    }

    /// Leftmost centre position for a body of radius `r`.
    pub open spec fn left(self, r: int) -> int {
        r + self.thickness
    }

    /// Rightmost centre position for a body of radius `r`.
    pub open spec fn right(self, r: int) -> int {
        self.width - r - self.thickness
    }

    /// The left wall, full height.
    pub fn left_wall(&self) -> (r: Rect)
        ensures
            r == (Rect { pos: Vec2 { x: 0, y: 0 }, size: Vec2 { x: self.thickness, y: self.height } }),
    {
        Rect::new(0, 0, self.thickness, self.height)
    }

    /// The right wall, full height.
    pub fn right_wall(&self) -> (r: Rect)
        requires
            self.wf(),
        ensures
            r == (Rect {
                pos: Vec2 { x: (self.width - self.thickness) as i64, y: 0 },
                size: Vec2 { x: self.thickness, y: self.height },
            }),
    {
        Rect::new(self.width - self.thickness, 0, self.thickness, self.height)
    }

    /// The ceiling, full width.
    pub fn ceiling(&self) -> (r: Rect)
        ensures
            r == (Rect { pos: Vec2 { x: 0, y: 0 }, size: Vec2 { x: self.width, y: self.thickness } }),
    {
        Rect::new(0, 0, self.width, self.thickness)
    }

    /// The field is wide enough for a body of radius `r` to fit between the walls.
    pub open spec fn fits(self, r: int) -> bool {
        self.left(r) <= self.right(r)
    }
}

/// The ceiling bound applied to `b`.
pub open spec fn reflect_ceiling(b: BallView, f: Field) -> BallView {
    if b.cy < f.top(b.radius) {
        BallView { cy: f.top(b.radius), vy: -b.vy, ..b }
    } else {
        b
    }
}

/// Whether `b` is beyond the right wall.
pub open spec fn hits_right(b: BallView, f: Field) -> bool {
    b.cx > f.right(b.radius)
}

/// Whether `b` is beyond the left wall.
pub open spec fn hits_left(b: BallView, f: Field) -> bool {
    b.cx < f.left(b.radius)
}

/// The right wall bound applied to `b`.
pub open spec fn reflect_right(b: BallView, f: Field) -> BallView {
    if hits_right(b, f) {
        BallView { cx: f.right(b.radius), vx: -b.vx, ..b }
    } else {
        b
    }
}

/// The left wall bound applied to `b`.
pub open spec fn reflect_left(b: BallView, f: Field) -> BallView {
    if hits_left(b, f) {
        BallView { cx: f.left(b.radius), vx: -b.vx, ..b }
    } else {
        b
    }
}

/// The three wall bounds, in the order ceiling, right wall, left wall.
pub open spec fn reflect(b: BallView, f: Field) -> BallView {
    reflect_left(reflect_right(reflect_ceiling(b, f), f), f)
}

/// The right wall is touched by the body once the ceiling bound is applied.
pub open spec fn touches_right(b: BallView, f: Field) -> bool {
    hits_right(reflect_ceiling(b, f), f)
}

/// The left wall is touched by the body once the ceiling and right bounds are applied.
pub open spec fn touches_left(b: BallView, f: Field) -> bool {
    hits_left(reflect_right(reflect_ceiling(b, f), f), f)
}

/// Where the wall reflector leaves a body: at or below the ceiling bound,
/// and between the side bounds (at the left bound where the field is too
/// narrow for it).
pub open spec fn placed(b: BallView, f: Field) -> bool {
    &&& b.moving()
    &&& f.left(b.radius) <= b.cx
    &&& (b.cx <= f.right(b.radius) || b.cx == f.left(b.radius))
    &&& b.cy >= f.top(b.radius)
}

/// The body has fallen below the bottom of the field.
pub open spec fn below_field(b: BallView, f: Field) -> bool {
    b.cy > f.height + b.radius
}

/// A placed body that has not fallen below the field is within the bound
/// kept between steps.
pub proof fn lemma_placed_settled(b: BallView, f: Field)
    requires
        placed(b, f),
        f.wf(),
        !below_field(b, f),
    ensures
        b.settled(),
{
}

/// The side walls that a body touched during one wall reflection.
#[derive(Clone, Copy, Debug, PartialEq, Eq, Structural)]
pub struct Contacts {
    pub right: bool,
    pub left: bool,
}

impl Ball {
    pub fn new(center: Vec2, radius: i64, velocity: Vec2, mass: i64) -> (r: Ball)
        ensures
            r.center == center,
            r.radius == radius,
            r.velocity == velocity,
            r.mass == mass,
            r.in_bound,
    {
        Ball { center, radius, velocity, mass, in_bound: true }
    }

    /// Advances the body by `dt` under downward gravity `gravity`.
    pub fn move_kinematic(&mut self, gravity: i64, dt: i64)
        requires
            old(self)@.settled(),
            0 <= gravity <= SPEED_LIMIT,
            0 <= dt <= MAX_DT,
        ensures
            final(self)@ == integrate(old(self)@, gravity as int, dt as int),
            final(self)@.moving(),
    {
        let vy = self.velocity.y;
        assert(0 <= gravity * dt <= SPEED_LIMIT * MAX_DT) by (nonlinear_arith)
            requires 0 <= gravity <= SPEED_LIMIT, 0 <= dt <= MAX_DT;
        let raw: i64 = vy + gravity * dt;
        let vy: i64 = if raw > SPEED_LIMIT {
            SPEED_LIMIT
        } else if raw < -SPEED_LIMIT {
            -SPEED_LIMIT
        } else {
            raw
        };
        assert(abs(vy * dt) <= SPEED_LIMIT * MAX_DT && abs(self.velocity.x * dt) <= SPEED_LIMIT * MAX_DT)
            by (nonlinear_arith)
            requires
                abs(vy as int) <= SPEED_LIMIT,
                abs(self.velocity.x as int) <= SPEED_LIMIT,
                0 <= dt <= MAX_DT;
        self.velocity.y = vy;
        self.center.x = self.center.x + self.velocity.x * dt;
        self.center.y = self.center.y + vy * dt;
    }

    /// Applies the ceiling, right wall and left wall bounds of `field`, in
    /// that order, and reports which side walls were touched.
    pub fn bounce_walls(&mut self, field: &Field) -> (r: Contacts)
        requires
            old(self)@.moving(),
            field.wf(),
        ensures
            final(self)@ == reflect(old(self)@, *field),
            r.right == touches_right(old(self)@, *field),
            r.left == touches_left(old(self)@, *field),
            final(self)@.moving(),
            placed(final(self)@, *field),
            final(self)@.cy >= field.top(final(self)@.radius),
            field.fits(final(self)@.radius) ==> field.left(final(self)@.radius) <= final(self)@.cx
                <= field.right(final(self)@.radius),
    {
        let top = self.radius + field.thickness;
        if self.center.y < top {
            self.velocity.y = -self.velocity.y;
            self.center.y = top;
        }
        let right = field.width - self.radius - field.thickness;
        let hit_right = self.center.x > right;
        if hit_right {
            self.velocity.x = -self.velocity.x;
            self.center.x = right;
        }
        let left = self.radius + field.thickness;
        let hit_left = self.center.x < left;
        if hit_left {
            self.velocity.x = -self.velocity.x;
            self.center.x = left;
        }
        Contacts { right: hit_right, left: hit_left }
    }
}

} // verus!
