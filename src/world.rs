//! The simulation state and the step that advances it by one frame.

use vstd::prelude::*;
use vstd::arithmetic::power::{pow, lemma_pow_adds, lemma_pow_positive};
use crate::geometry::{Rect, Vec2};
use crate::body::{
    abs, below_field, integrate, lemma_placed_settled, placed, reflect, touches_left, touches_right,
    Ball, BallView, Field, MAX_DT, SPEED_LIMIT,
};
use crate::collision::{lemma_resolve_frame, resolve};
use crate::scoring::{increment_score, on_contact, Current, Wall};

verus! {

/// Thickness of the left, right and top walls.
pub const WALL_THICKNESS: i64 = 30_000_000;

/// Radius of the main ball.
pub const MAIN_BALL_RADIUS: i64 = 50_000_000;

/// Mass of the main ball.
pub const MAIN_BALL_MASS: i64 = 20;

/// Vertical speed of the main ball when it appears (downwards).
pub const MAIN_BALL_SPAWN_VY: i64 = 3000;

/// Radius of a launched ball.
pub const BALL_RADIUS: i64 = 20_000_000;

/// Mass of a launched ball.
pub const BALL_MASS: i64 = 7;

/// Gravity on every body.
pub const GRAVITY: i64 = 70;

/// Side of the square pause button, which sits this far from the top-left
/// corner of the window.
pub const PAUSE_BUTTON_SIZE: i64 = 50_000_000;

/// The pause button.
pub fn pause_button() -> (r: Rect)
    ensures
        r == (Rect {
            pos: Vec2 { x: PAUSE_BUTTON_SIZE, y: PAUSE_BUTTON_SIZE },
            size: Vec2 { x: PAUSE_BUTTON_SIZE, y: PAUSE_BUTTON_SIZE },
        }),
{
    Rect::new(PAUSE_BUTTON_SIZE, PAUSE_BUTTON_SIZE, PAUSE_BUTTON_SIZE, PAUSE_BUTTON_SIZE)
}

/// Launched balls that the field holds before the main ball's gravity
/// starts to grow.
pub const CROWD_THRESHOLD: usize = 4;

/// Gravity on the main ball with `count` launched balls in play: the base
/// gravity, multiplied by 3/2 for each ball beyond the threshold, rounded
/// down and limited to the speed limit.
pub open spec fn crowd_gravity(base: int, count: int) -> int {
    if count <= CROWD_THRESHOLD {
        base
    } else {
        let k = (count - CROWD_THRESHOLD) as nat;
        let g = base * pow(3, k) / pow(2, k);
        if g > SPEED_LIMIT { SPEED_LIMIT as int } else { g }
    }
}

proof fn lemma_pow3_ge_pow2(k: nat)
    ensures
        pow(3, k) >= pow(2, k),
        pow(2, k) >= 1,
    decreases k,
{
    reveal(pow);
    if k > 0 {
        lemma_pow3_ge_pow2((k - 1) as nat);
        assert(3 * pow(3, (k - 1) as nat) >= 2 * pow(2, (k - 1) as nat));
    }
}

proof fn lemma_pow3_outgrows(j: nat)
    ensures
        pow(3, 2 * j) >= pow(2, 3 * j),
    decreases j,
{
    reveal(pow);
    if j > 0 {
        let i = (j - 1) as nat;
        lemma_pow3_outgrows(i);
        lemma_pow_adds(3, 2 * i, 2);
        lemma_pow_adds(2, 3 * i, 3);
        reveal_with_fuel(pow, 4);
        assert(pow(3, 2) == 9);
        assert(pow(2, 3) == 8);
        lemma_pow_positive(2, 3 * i);
        assert(pow(3, 2 * i) * 9 >= pow(2, 3 * i) * 8) by (nonlinear_arith)
            requires pow(3, 2 * i) >= pow(2, 3 * i), pow(2, 3 * i) > 0;
        assert(2 * i + 2 == 2 * j && 3 * i + 3 == 3 * j);
    }
}

proof fn lemma_pow_next(i: nat)
    ensures
        pow(3, i + 1) == 3 * pow(3, i),
        pow(2, i + 1) == 2 * pow(2, i),
{
    reveal(pow);
}

proof fn lemma_pow_constants()
    ensures
        pow(2, 40) == SPEED_LIMIT,
        pow(2, 80) == 0x1_0000_0000_0000_0000_0000int,
        pow(3, 80) >= SPEED_LIMIT * pow(2, 80),
{
    vstd::arithmetic::power2::lemma2_to64();
    vstd::arithmetic::power2::lemma2_to64_rest();
    vstd::arithmetic::power2::lemma_pow2(40);
    vstd::arithmetic::power2::lemma_pow2(64);
    vstd::arithmetic::power2::lemma_pow2(16);
    lemma_pow_adds(2, 64, 16);
    lemma_pow_adds(2, 40, 80);
    lemma_pow3_outgrows(40);
}

/// Once the scaled gravity reaches the limit at `i` factors, it stays there
/// at every `k >= i`.
proof fn lemma_crowd_saturates(base: int, i: nat, k: nat)
    requires
        base >= 1,
        i <= k,
        base * pow(3, i) >= SPEED_LIMIT * pow(2, i),
    ensures
        base * pow(3, k) / pow(2, k) >= SPEED_LIMIT,
{
    let j = (k - i) as nat;
    lemma_pow3_ge_pow2(j);
    lemma_pow3_ge_pow2(i);
    lemma_pow_adds(3, i, j);
    lemma_pow_adds(2, i, j);
    lemma_pow3_ge_pow2(k);
    assert(i + j == k);
    let p3 = pow(3, j);
    let p2 = pow(2, j);
    let a3 = pow(3, i);
    let a2 = pow(2, i);
    let q = base * pow(3, k);
    let d = pow(2, k);
    assert(pow(3, k) == a3 * p3 && d == a2 * p2);
    assert(q >= SPEED_LIMIT * d) by (nonlinear_arith)
        requires
            q == base * (a3 * p3),
            d == a2 * p2,
            base * a3 >= SPEED_LIMIT * a2,
            p3 >= p2, p2 >= 1, a2 >= 1;
    assert(q / d >= SPEED_LIMIT) by (nonlinear_arith)
        requires q >= SPEED_LIMIT * d, d >= 1;
}

/// Main-ball gravity for `count` launched balls; see `crowd_gravity`.
pub fn gravity_for(base: i64, count: usize) -> (g: i64)
    requires
        0 <= base <= SPEED_LIMIT,
    ensures
        g == crowd_gravity(base as int, count as int),
        0 <= g <= SPEED_LIMIT,
{
    if count <= CROWD_THRESHOLD {
        return base;
    }
    let k: usize = count - CROWD_THRESHOLD;
    let limit: u128 = SPEED_LIMIT as u128;
    if base == 0 {
        proof {
            lemma_pow_positive(2, k as nat);
            assert(0 * pow(3, k as nat) == 0);
        }
        return 0;
    }
    proof {
        lemma_pow_constants();
        assert(pow(3, 0) == 1 && pow(2, 0) == 1) by { reveal(pow); }
        vstd::arithmetic::power::lemma_pow_increases(2, 0, 80);
    }
    let mut num: u128 = base as u128;
    let mut den: u128 = 1;
    let mut i: usize = 0;
    while i < k && num < limit * den
        invariant
            1 <= base <= SPEED_LIMIT,
            limit == SPEED_LIMIT,
            i <= k,
            i <= 80,
            k == count - CROWD_THRESHOLD,
            num == base * pow(3, i as nat),
            den == pow(2, i as nat),
            pow(3, 80) >= SPEED_LIMIT * pow(2, 80),
            pow(2, 80) == 0x1_0000_0000_0000_0000_0000int,
            den <= 0x1_0000_0000_0000_0000_0000int,
        decreases k - i,
    {
        proof {
            vstd::arithmetic::power::lemma_pow_increases(2, i as nat, 80);
            if i == 80 {
                assert(num >= limit * den) by (nonlinear_arith)
                    requires
                        num == base * pow(3, 80),
                        den == pow(2, 80),
                        pow(3, 80) >= SPEED_LIMIT * pow(2, 80),
                        base >= 1, limit == SPEED_LIMIT;
            }
            assert(limit * den <= 0x100_0000_0000int * 0x1_0000_0000_0000_0000_0000int) by (nonlinear_arith)
                requires limit == 0x100_0000_0000int, 0 <= den <= 0x1_0000_0000_0000_0000_0000int;
            if i < 80 {
                vstd::arithmetic::power::lemma_pow_increases(2, (i + 1) as nat, 80);
            }
            lemma_pow_next(i as nat);
            assert(num * 3 == base * pow(3, (i + 1) as nat)) by (nonlinear_arith)
                requires num == base * pow(3, i as nat), pow(3, (i + 1) as nat) == 3 * pow(3, i as nat);
        }
        num = num * 3;
        den = den * 2;
        i = i + 1;
    }
    if num >= limit * den {
        proof {
            lemma_crowd_saturates(base as int, i as nat, k as nat);
        }
        return SPEED_LIMIT;
    }
    let g: u128 = num / den;
    proof {
        lemma_pow3_ge_pow2(i as nat);
        assert(g < limit) by (nonlinear_arith)
            requires g == num / den, num < limit * den, den >= 1;
    }
    g as i64
}

/// The simulation state: the main ball, the launched balls in play, the
/// contact side state, the score of the current run and the best score.
pub struct World {
    pub main_ball: Ball,
    pub balls: Vec<Ball>,
    pub current: Current,
    pub score: u32,
    pub best_score: u32,
}

/// The mathematical value of a `World`.
pub ghost struct WorldView {
    pub main: BallView,
    pub balls: Seq<BallView>,
    pub current: Current,
    pub score: int,
    pub best: int,
}

/// The values of a sequence of balls.
pub open spec fn views(v: Seq<Ball>) -> Seq<BallView> {
    v.map_values(|b: Ball| b@)
}

impl View for World {
    type V = WorldView;

    open spec fn view(&self) -> WorldView {
        WorldView {
            main: self.main_ball@,
            balls: views(self.balls@),
            current: self.current,
            score: self.score as int,
            best: self.best_score as int,
        }
    }
}

impl WorldView {
    /// Every body within the bound kept between steps.
    pub open spec fn settled(self) -> bool {
        &&& self.main.settled()
        &&& forall|k: int| 0 <= k < self.balls.len() ==> (#[trigger] self.balls[k]).settled()
    }
}

/// The main ball as it appears at the start of a run: at the centre of the
/// field, moving slowly downwards.
pub open spec fn main_spawn(f: Field) -> BallView {
    BallView {
        cx: f.width / 2,
        cy: f.height / 2,
        vx: 0,
        vy: MAIN_BALL_SPAWN_VY as int,
        radius: MAIN_BALL_RADIUS as int,
        mass: MAIN_BALL_MASS as int,
        in_bound: true,
    }
}

/// A ball fired from the cannon, at the middle of the bottom edge, with
/// velocity `v`.
pub open spec fn launched(f: Field, v: Vec2) -> BallView {
    BallView {
        cx: f.width / 2,
        cy: f.height as int,
        vx: v.x as int,
        vy: v.y as int,
        radius: BALL_RADIUS as int,
        mass: BALL_MASS as int,
        in_bound: true,
    }
}

/// `b` with its liveness set from its height: live unless below the field.
pub open spec fn mark_live(b: BallView, f: Field) -> BallView {
    BallView { in_bound: !below_field(b, f), ..b }
}

/// A contact of the main ball with `wall`: the state moves on, and a
/// scoring contact adds a point and raises the best score where it is passed.
pub open spec fn score_contact(w: WorldView, wall: Wall) -> WorldView {
    let (next, scored) = on_contact(w.current, wall);
    if scored {
        let s = w.score + 1;
        WorldView { current: next, score: s, best: if s > w.best { s } else { w.best }, ..w }
    } else {
        WorldView { current: next, ..w }
    }
}

/// Each launched ball in turn is integrated, reflected off the walls,
/// resolved against the main ball and marked live or not. Returns the main
/// ball and the launched balls afterwards.
pub open spec fn projectile_pass(main: BallView, bs: Seq<BallView>, f: Field, dt: int) -> (BallView, Seq<BallView>)
    decreases bs.len(),
{
    if bs.len() == 0 {
        (main, bs)
    } else {
        let (m, done) = projectile_pass(main, bs.drop_last(), f, dt);
        let (b, m2) = resolve(reflect(integrate(bs.last(), GRAVITY as int, dt), f), m);
        (m2, done.push(mark_live(b, f)))
    }
}

/// Ball `i` resolved against balls `i + 1 .. j`, in that order.
pub open spec fn sweep_row(s: Seq<BallView>, i: int, j: int) -> Seq<BallView>
    decreases j - i,
{
    if j <= i + 1 {
        s
    } else {
        let t = sweep_row(s, i, j - 1);
        let (x, y) = resolve(t[i], t[j - 1]);
        t.update(i, x).update(j - 1, y)
    }
}

/// The rows of the pair sweep for balls `0 .. i`: every unordered pair with
/// its lower index below `i` is resolved once, row by row.
pub open spec fn sweep(s: Seq<BallView>, i: int) -> Seq<BallView>
    decreases i,
{
    if i <= 0 {
        s
    } else {
        sweep_row(sweep(s, i - 1), i - 1, s.len() as int)
    }
}

/// The live balls of `s`, in order.
pub open spec fn live_only(s: Seq<BallView>) -> Seq<BallView> {
    s.filter(|b: BallView| b.in_bound)
}

/// The first part of a frame: the main ball is integrated under the crowd
/// gravity and reflected off the walls, each side wall contact going
/// through the contact state machine.
pub open spec fn main_phase(w: WorldView, f: Field, dt: int) -> WorldView {
    let moved = integrate(w.main, crowd_gravity(GRAVITY as int, w.balls.len() as int), dt);
    let w1 = WorldView { main: reflect(moved, f), ..w };
    let w2 = if touches_right(moved, f) { score_contact(w1, Wall::Right) } else { w1 };
    if touches_left(moved, f) { score_contact(w2, Wall::Left) } else { w2 }
}

/// What a frame reports to the caller.
#[derive(Clone, Copy, Debug, PartialEq, Eq, Structural)]
pub struct StepReport {
    /// The best score rose, so it must be stored again.
    pub best_improved: bool,
    /// A wall contact of the main ball scored during the frame (even where
    /// the run then ended).
    pub scored: bool,
}

/// One frame: the main ball is integrated under the crowd gravity and
/// reflected off the walls, each side wall contact going through the
/// contact state machine; then every launched ball is moved, reflected and
/// resolved against the main ball; then every pair of launched balls is
/// resolved; then the balls below the field are removed; finally a main
/// ball below the field ends the run: it is spawned again, the state goes
/// back to `Neither` and the score to zero.
pub open spec fn step_model(w: WorldView, f: Field, dt: int) -> WorldView {
    let w3 = main_phase(w, f, dt);
    let (main, passed) = projectile_pass(w3.main, w.balls, f, dt);
    let w4 = WorldView { main: main, balls: live_only(sweep(passed, passed.len() as int)), ..w3 };
    if below_field(main, f) {
        WorldView { main: main_spawn(f), current: Current::Neither, score: 0, ..w4 }
    } else {
        w4
    }
}

proof fn lemma_sweep_row_len(s: Seq<BallView>, i: int, j: int)
    requires
        0 <= i < j <= s.len(),
    ensures
        sweep_row(s, i, j).len() == s.len(),
    decreases j - i,
{
    if j > i + 1 {
        lemma_sweep_row_len(s, i, j - 1);
    }
}

proof fn lemma_sweep_len(s: Seq<BallView>, i: int)
    requires
        0 <= i <= s.len(),
    ensures
        sweep(s, i).len() == s.len(),
    decreases i,
{
    if i > 0 {
        lemma_sweep_len(s, i - 1);
        lemma_sweep_row_len(sweep(s, i - 1), i - 1, s.len() as int);
    }
}

proof fn lemma_live_only_live(s: Seq<BallView>)
    ensures
        forall|q: int| 0 <= q < live_only(s).len() ==> (#[trigger] live_only(s)[q]).in_bound,
    decreases s.len(),
{
    reveal(Seq::filter);
    if s.len() > 0 {
        lemma_live_only_live(s.drop_last());
    }
}

proof fn lemma_sweep_row_keeps_liveness(s: Seq<BallView>, i: int, j: int, k: int)
    requires
        0 <= i < j <= s.len(),
        0 <= k < s.len(),
    ensures
        sweep_row(s, i, j)[k].in_bound == s[k].in_bound,
    decreases j - i,
{
    if j > i + 1 {
        lemma_sweep_row_keeps_liveness(s, i, j - 1, k);
        lemma_sweep_row_len(s, i, j - 1);
    }
}

proof fn lemma_sweep_keeps_liveness(s: Seq<BallView>, i: int, k: int)
    requires
        0 <= i <= s.len(),
        0 <= k < s.len(),
    ensures
        sweep(s, i)[k].in_bound == s[k].in_bound,
    decreases i,
{
    if i > 0 {
        lemma_sweep_keeps_liveness(s, i - 1, k);
        lemma_sweep_len(s, i - 1);
        lemma_sweep_row_keeps_liveness(sweep(s, i - 1), i - 1, s.len() as int, k);
    }
}

proof fn lemma_pass_len(main: BallView, bs: Seq<BallView>, f: Field, dt: int)
    ensures
        projectile_pass(main, bs, f, dt).1.len() == bs.len(),
    decreases bs.len(),
{
    if bs.len() > 0 {
        lemma_pass_len(main, bs.drop_last(), f, dt);
    }
}

/// A ball below the field that is not moving up stays below it through
/// one pass, and is marked dead.
proof fn lemma_pass_retires(main: BallView, bs: Seq<BallView>, f: Field, dt: int, k: int)
    requires
        0 <= dt,
        0 <= k < bs.len(),
        below_field(bs[k], f),
        bs[k].vy >= 0,
    ensures
        projectile_pass(main, bs, f, dt).1.len() == bs.len(),
        !projectile_pass(main, bs, f, dt).1[k].in_bound,
    decreases bs.len(),
{
    let init = bs.drop_last();
    if k < bs.len() - 1 {
        assert(init[k] == bs[k]);
        lemma_pass_retires(main, init, f, dt, k);
    } else {
        lemma_pass_len(main, init, f, dt);
        let b = bs[k];
        let moved = integrate(b, GRAVITY as int, dt);
        assert(moved.vy >= 0);
        assert(moved.vy * dt >= 0) by (nonlinear_arith) requires moved.vy >= 0, dt >= 0;
        assert(moved.cy >= b.cy);
        assert(below_field(reflect(moved, f), f));
    }
}

/// A launched ball that is below the field, and not moving up, when a frame
/// starts is out of play after it: the frame marks it dead, and only live
/// balls stay in play.
pub proof fn lemma_fallen_projectile_retired(w: WorldView, f: Field, dt: int, k: int)
    requires
        0 <= dt,
        0 <= k < w.balls.len(),
        below_field(w.balls[k], f),
        w.balls[k].vy >= 0,
    ensures
        ({
            let passed = projectile_pass(main_phase(w, f, dt).main, w.balls, f, dt).1;
            !sweep(passed, passed.len() as int)[k].in_bound
        }),
        forall|q: int| 0 <= q < step_model(w, f, dt).balls.len()
            ==> (#[trigger] step_model(w, f, dt).balls[q]).in_bound,
{
    let passed = projectile_pass(main_phase(w, f, dt).main, w.balls, f, dt).1;
    lemma_pass_retires(main_phase(w, f, dt).main, w.balls, f, dt, k);
    lemma_sweep_keeps_liveness(passed, passed.len() as int, k);
    lemma_live_only_live(sweep(passed, passed.len() as int));
}

/// The main ball at the start of a run, for `field`.
pub fn spawn_main_ball(field: &Field) -> (r: Ball)
    requires
        field.wf(),
    ensures
        r@ == main_spawn(*field),
        r@.settled(),
{
    Ball {
        center: Vec2 { x: field.width / 2, y: field.height / 2 },
        radius: MAIN_BALL_RADIUS,
        velocity: Vec2 { x: 0, y: MAIN_BALL_SPAWN_VY },
        mass: MAIN_BALL_MASS,
        in_bound: true,
    }
}

impl World {
    /// A fresh run on `field`, keeping `best_score`.
    pub fn new(field: &Field, best_score: u32) -> (r: World)
        requires
            field.wf(),
        ensures
            r@ == (WorldView {
                main: main_spawn(*field),
                balls: Seq::empty(),
                current: Current::Neither,
                score: 0,
                best: best_score as int,
            }),
            r@.settled(),
    {
        let r = World {
            main_ball: spawn_main_ball(field),
            balls: Vec::new(),
            current: Current::Neither,
            score: 0,
            best_score,
        };
        assert(r@.balls =~= Seq::<BallView>::empty());
        r
    }

    /// Fires a ball from the cannon with `velocity`.
    pub fn launch(&mut self, field: &Field, velocity: Vec2)
        requires
            field.wf(),
            old(self)@.settled(),
            abs(velocity.x as int) <= SPEED_LIMIT,
            abs(velocity.y as int) <= SPEED_LIMIT,
        ensures
            final(self)@ == (WorldView { balls: old(self)@.balls.push(launched(*field, velocity)), ..old(self)@ }),
            final(self)@.settled(),
    {
        let b = Ball {
            center: Vec2 { x: field.width / 2, y: field.height },
            radius: BALL_RADIUS,
            velocity,
            mass: BALL_MASS,
            in_bound: true,
        };
        self.balls.push(b);
        assert(self@.balls =~= old(self)@.balls.push(launched(*field, velocity)));
    }

    /// Advances the simulation by one frame of `dt` milliseconds on `field`;
    /// see `step_model`. Reports whether the best score rose, which is when
    /// it must be stored again, and whether a wall contact scored.
    pub fn step(&mut self, field: &Field, dt: i64) -> (report: StepReport)
        requires
            field.wf(),
            0 <= dt <= MAX_DT,
            old(self)@.settled(),
            old(self).score <= u32::MAX - 2,
        ensures
            final(self)@ == step_model(old(self)@, *field, dt as int),
            report.best_improved == (final(self).best_score > old(self).best_score),
            report.scored == (main_phase(old(self)@, *field, dt as int).score > old(self).score),
            final(self).best_score >= old(self).best_score,
            final(self)@.settled(),
    {
        let ghost w0 = self@;
        let old_best = self.best_score;
        let score_before = self.score;
        let n = self.balls.len();
        let g = gravity_for(GRAVITY, n);
        self.main_ball.move_kinematic(g, dt);
        let contacts = self.main_ball.bounce_walls(field);
        if contacts.right {
            self.strike(Wall::Right);
        }
        if contacts.left {
            self.strike(Wall::Left);
        }
        let ghost w3 = self@;
        let ghost bs0 = w0.balls;
        let scored = self.score > score_before;
        assert(w3.balls == bs0);

        let mut i: usize = 0;
        while i < n
            invariant
                field.wf(),
                0 <= dt <= MAX_DT,
                i <= n,
                n == self.balls.len(),
                n == bs0.len(),
                self.current == w3.current,
                self.score == w3.score,
                self.best_score == w3.best,
                self.best_score >= old_best,
                forall|k: int| 0 <= k < n ==> (#[trigger] bs0[k]).settled(),
                forall|k: int| i <= k < n ==> (#[trigger] self.balls@[k])@ == bs0[k],
                projectile_pass(w3.main, bs0.take(i as int), *field, dt as int).0 == self.main_ball@,
                projectile_pass(w3.main, bs0.take(i as int), *field, dt as int).1.len() == i,
                forall|k: int| 0 <= k < i ==> (#[trigger] self.balls@[k])@
                    == projectile_pass(w3.main, bs0.take(i as int), *field, dt as int).1[k],
                placed(self.main_ball@, *field),
                forall|k: int| 0 <= k < i ==> placed((#[trigger] self.balls@[k])@, *field),
                forall|k: int| 0 <= k < i ==> (#[trigger] self.balls@[k])@.in_bound
                    == !below_field(self.balls@[k]@, *field),
            decreases n - i,
        {
            let ghost m_before = self.main_ball@;
            let mut b = self.balls[i];
            assert(b@ == bs0[i as int]);
            b.move_kinematic(GRAVITY, dt);
            b.bounce_walls(field);
            let ghost reflected = b@;
            b.bounce_balls(&mut self.main_ball);
            proof {
                lemma_resolve_frame(reflected, m_before);
            }
            b.in_bound = !(b.center.y > field.height + b.radius);
            self.balls.set(i, b);
            proof {
                assert(bs0.take(i + 1).drop_last() =~= bs0.take(i as int));
                assert(bs0.take(i + 1).last() == bs0[i as int]);
            }
            i = i + 1;
        }
        let ghost passed = projectile_pass(w3.main, bs0, *field, dt as int).1;
        assert(bs0.take(n as int) =~= bs0);
        assert(views(self.balls@) =~= passed);
        let ghost m4 = self.main_ball@;

        let mut i: usize = 0;
        while i < n
            invariant
                field.wf(),
                i <= n,
                n == self.balls.len(),
                n == passed.len(),
                self.main_ball@ == m4,
                self.current == w3.current,
                self.score == w3.score,
                self.best_score == w3.best,
                self.best_score >= old_best,
                views(self.balls@) == sweep(passed, i as int),
                forall|k: int| 0 <= k < n ==> placed((#[trigger] self.balls@[k])@, *field),
                forall|k: int| 0 <= k < n ==> (#[trigger] self.balls@[k])@.in_bound
                    == !below_field(self.balls@[k]@, *field),
            decreases n - i,
        {
            let ghost row_start = sweep(passed, i as int);
            proof {
                lemma_sweep_len(passed, i as int);
            }
            let mut j: usize = i + 1;
            while j < n
                invariant
                    field.wf(),
                    i < j <= n,
                    n == self.balls.len(),
                    n == passed.len(),
                    row_start.len() == n,
                    self.main_ball@ == m4,
                    self.current == w3.current,
                    self.score == w3.score,
                    self.best_score == w3.best,
                    self.best_score >= old_best,
                    views(self.balls@) == sweep_row(row_start, i as int, j as int),
                    forall|k: int| 0 <= k < n ==> placed((#[trigger] self.balls@[k])@, *field),
                    forall|k: int| 0 <= k < n ==> (#[trigger] self.balls@[k])@.in_bound
                        == !below_field(self.balls@[k]@, *field),
                decreases n - j,
            {
                let mut x = self.balls[i];
                let mut y = self.balls[j];
                let ghost (x0, y0) = (x@, y@);
                proof {
                    lemma_sweep_row_len(row_start, i as int, j as int);
                    assert(views(self.balls@)[i as int] == x0);
                    assert(views(self.balls@)[j as int] == y0);
                }
                x.bounce_balls(&mut y);
                proof {
                    lemma_resolve_frame(x0, y0);
                }
                self.balls.set(i, x);
                self.balls.set(j, y);
                proof {
                    let t = sweep_row(row_start, i as int, j as int);
                    assert(views(self.balls@) =~= t.update(i as int, x@).update(j as int, y@));
                }
                j = j + 1;
            }
            proof {
                assert(sweep(passed, i + 1) == sweep_row(sweep(passed, i as int), i as int, passed.len() as int));
            }
            i = i + 1;
        }
        let ghost swept = sweep(passed, n as int);

        let mut live: Vec<Ball> = Vec::new();
        let mut k: usize = 0;
        while k < n
            invariant
                field.wf(),
                k <= n,
                n == self.balls.len(),
                views(self.balls@) == swept,
                views(live@) == live_only(swept.take(k as int)),
                forall|q: int| 0 <= q < live@.len() ==> (#[trigger] live@[q])@.settled(),
                forall|q: int| 0 <= q < n ==> placed((#[trigger] self.balls@[q])@, *field),
                forall|q: int| 0 <= q < n ==> (#[trigger] self.balls@[q])@.in_bound
                    == !below_field(self.balls@[q]@, *field),
            decreases n - k,
        {
            let b = self.balls[k];
            proof {
                reveal(Seq::filter);
                assert(swept.take(k + 1).drop_last() =~= swept.take(k as int));
                assert(swept.take(k + 1).last() == b@);
            }
            if b.in_bound {
                proof {
                    lemma_placed_settled(b@, *field);
                }
                live.push(b);
                assert(views(live@) =~= live_only(swept.take(k as int)).push(b@));
            } else {
                assert(views(live@) =~= live_only(swept.take(k as int)));
            }
            k = k + 1;
        }
        assert(swept.take(n as int) =~= swept);
        self.balls = live;

        if self.main_ball.center.y > field.height + self.main_ball.radius {
            self.main_ball = spawn_main_ball(field);
            self.current = Current::Neither;
            self.score = 0;
        } else {
            proof {
                lemma_placed_settled(self.main_ball@, *field);
            }
        }
        StepReport { best_improved: self.best_score > old_best, scored }
    }

    /// A contact of the main ball with `wall`; see `score_contact`.
    fn strike(&mut self, wall: Wall)
        requires
            old(self).score < u32::MAX,
        ensures
            final(self)@ == score_contact(old(self)@, wall),
            final(self).score <= old(self).score + 1,
            final(self).best_score >= old(self).best_score,
    {
        let (next, scored) = self.current.touch(wall);
        self.current = next;
        if scored {
            increment_score(&mut self.score, &mut self.best_score);
        }
    }
}

} // verus!
