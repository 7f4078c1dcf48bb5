//! Pairwise circle-circle collision response.

use vstd::prelude::*;
use crate::geometry::{is_isqrt, isqrt};
use crate::body::{abs, clamp_speed, Ball, BallView, MASS_LIMIT, MOTION_LIMIT, RADIUS_LIMIT, SPEED_LIMIT};

verus! {

/// Velocities are per millisecond while the bounce rule below is stated per
/// second: velocity changes are divided by this many milliseconds.
pub const IMPULSE_DIVISOR: i64 = 1000;

/// The square root of `n`, rounded down.
pub open spec fn floor_sqrt(n: int) -> int {
    choose|r: int| is_isqrt(n, r)
}

pub proof fn lemma_floor_sqrt_unique(n: int, r: int)
    requires
        is_isqrt(n, r),
    ensures
        floor_sqrt(n) == r,
{
    let c = floor_sqrt(n);
    assert(is_isqrt(n, c));
    assert(c == r) by (nonlinear_arith)
        requires
            0 <= r,
            r * r <= n < (r + 1) * (r + 1),
            0 <= c,
            c * c <= n < (c + 1) * (c + 1),
    {
        if c < r {
            assert((c + 1) * (c + 1) <= r * r) by (nonlinear_arith)
                requires 0 <= c, c + 1 <= r;
        } else if r < c {
            assert((r + 1) * (r + 1) <= c * c) by (nonlinear_arith)
                requires 0 <= r, r + 1 <= c;
        }
    }
}

pub open spec fn radius_sum(a: BallView, b: BallView) -> int {
    a.radius + b.radius
}

/// Squared distance between the two centres.
pub open spec fn dist_sq(a: BallView, b: BallView) -> int {
    (a.cx - b.cx) * (a.cx - b.cx) + (a.cy - b.cy) * (a.cy - b.cy)
}

/// The two circles overlap.
pub open spec fn overlapping(a: BallView, b: BallView) -> bool {
    dist_sq(a, b) < radius_sum(a, b) * radius_sum(a, b)
}

pub open spec fn coincident(a: BallView, b: BallView) -> bool {
    a.cx == b.cx && a.cy == b.cy
}

/// Horizontal part of the direction from `b` towards `a` (not normalised);
/// the direction is `(1, 0)` when the centres coincide.
pub open spec fn dir_x(a: BallView, b: BallView) -> int {
    if coincident(a, b) { 1 } else { a.cx - b.cx }
}

/// Vertical part of the direction from `b` towards `a`.
pub open spec fn dir_y(a: BallView, b: BallView) -> int {
    if coincident(a, b) { 0 } else { a.cy - b.cy }
}

/// Length of that direction, rounded down.
pub open spec fn dir_len(a: BallView, b: BallView) -> int {
    if coincident(a, b) { 1 } else { floor_sqrt(dist_sq(a, b)) }
}

/// How deep the circles overlap: the sum of the radii less the distance of
/// the centres (rounded down). The penetration is its negation.
pub open spec fn depth(a: BallView, b: BallView) -> int {
    radius_sum(a, b) - floor_sqrt(dist_sq(a, b))
}

/// Magnitude of the impulse along an axis on which the direction has the
/// component `d`: twice the total mass times the depth times `|d| / dir_len`.
pub open spec fn axis_impulse(a: BallView, b: BallView, d: int) -> int {
    2 * (a.mass + b.mass) * depth(a, b) * abs(d) / dir_len(a, b)
}

/// `k / d`, rounded up.
pub open spec fn ceil_div(k: int, d: int) -> int {
    (k + d - 1) / d
}

/// Speed change of a body of mass `m` from an impulse of magnitude `k`; it
/// is rounded up, so that an overlap never goes without a response.
pub open spec fn speed_change(k: int, m: int) -> int {
    ceil_div(k, m * IMPULSE_DIVISOR)
}

pub open spec fn signum(d: int) -> int {
    if d > 0 { 1 } else if d < 0 { -1 } else { 0 }
}

/// The collision response: nothing unless the circles overlap; else `a` is
/// pushed along the direction from `b` to `a` and `b` the opposite way, each
/// by its speed change. Positions are left as they are.
pub open spec fn resolve(a: BallView, b: BallView) -> (BallView, BallView) {
    if !overlapping(a, b) {
        (a, b)
    } else {
        let dx = dir_x(a, b);
        let dy = dir_y(a, b);
        let kx = axis_impulse(a, b, dx);
        let ky = axis_impulse(a, b, dy);
        (
            BallView {
                vx: clamp_speed(a.vx + signum(dx) * speed_change(kx, a.mass)),
                vy: clamp_speed(a.vy + signum(dy) * speed_change(ky, a.mass)),
                ..a
            },
            BallView {
                vx: clamp_speed(b.vx - signum(dx) * speed_change(kx, b.mass)),
                vy: clamp_speed(b.vy - signum(dy) * speed_change(ky, b.mass)),
                ..b
            },
        )
    }
}

/// `v` moved by `sign * delta`, saturated at the speed limit.
fn nudge(v: i64, sign: i64, delta: u128) -> (r: i64)
    requires
        abs(v as int) <= SPEED_LIMIT,
        -1 <= sign <= 1,
        delta <= 0x1000_0000_0000_0000u128,
    ensures
        r == clamp_speed(v + sign * delta),
{
    let d: i128 = delta as i128;
    let moved: i128 = if sign > 0 {
        assert(sign * delta == delta);
        v as i128 + d
    } else if sign < 0 {
        assert(sign == -1);
        assert(sign * delta == -delta) by (nonlinear_arith)
            requires sign == -1;
        v as i128 - d
    } else {
        assert(sign * delta == 0);
        v as i128
    };
    if moved > SPEED_LIMIT as i128 {
        SPEED_LIMIT
    } else if moved < -(SPEED_LIMIT as i128) {
        -SPEED_LIMIT
    } else {
        moved as i64
    }
}

/// Rounded-up speed change of a body of mass `m` from an impulse `k`.
fn change_for(k: u128, m: i64) -> (r: u128)
    requires
        k <= 0x1000_0000_0000_0000u128,
        1 <= m <= MASS_LIMIT,
    ensures
        r == speed_change(k as int, m as int),
        r <= k,
{
    let per: u128 = IMPULSE_DIVISOR as u128;
    assert(per == 1000);
    let d: u128 = m as u128 * per;
    let r = (k + d - 1) / d;
    assert(r <= k) by (nonlinear_arith)
        requires d >= 1, r == (k + d - 1) as int / d as int, k >= 0;
    r
}

impl Ball {
    /// Resolves an overlap between this body and `other` by changing both
    /// velocities; see `resolve`.
    pub fn bounce_balls(&mut self, other: &mut Ball)
        requires
            old(self)@.moving(),
            old(other)@.moving(),
        ensures
            (final(self)@, final(other)@) == resolve(old(self)@, old(other)@),
            final(self)@.moving(),
            final(other)@.moving(),
    {
        let dx: i64 = self.center.x - other.center.x;
        let dy: i64 = self.center.y - other.center.y;
        let rs: i64 = self.radius + other.radius;
        let wx: i128 = dx as i128;
        let wy: i128 = dy as i128;
        assert(0 <= wx * wx <= 0x40_0000_0000_0000 * 0x40_0000_0000_0000 && 0 <= wy * wy <= 0x40_0000_0000_0000 * 0x40_0000_0000_0000)
            by (nonlinear_arith)
            requires abs(wx as int) <= 0x40_0000_0000_0000, abs(wy as int) <= 0x40_0000_0000_0000;
        let dsq: i128 = wx * wx + wy * wy;
        let wr: i128 = rs as i128;
        assert(0 <= wr * wr <= 0x40_0000_0000 * 0x40_0000_0000) by (nonlinear_arith)
            requires 0 <= wr <= 0x40_0000_0000;
        let rs2: i128 = wr * wr;
        assert(dsq == dist_sq(old(self)@, old(other)@));
        if dsq >= rs2 {
            return;
        }
        assert(rs2 <= 0x1_0000_0000_0000_0000_0000i128) by (nonlinear_arith)
            requires rs2 == rs * rs, 0 < rs <= 2 * RADIUS_LIMIT;
        let dist: u64 = isqrt(dsq as u128);
        proof {
            lemma_floor_sqrt_unique(dsq as int, dist as int);
            assert(dist < rs) by (nonlinear_arith)
                requires dist * dist <= dsq, dsq < rs * rs, 0 < rs, 0 <= dist;
            assert(abs(dx as int) <= dist && abs(dy as int) <= dist) by (nonlinear_arith)
                requires
                    dsq == dx * dx + dy * dy,
                    dsq < (dist + 1) * (dist + 1),
                    0 <= dist;
            if !(dx == 0 && dy == 0) {
                assert(dist >= 1) by (nonlinear_arith)
                    requires
                        dsq == dx * dx + dy * dy,
                        dsq < (dist + 1) * (dist + 1),
                        0 <= dist,
                        dx != 0 || dy != 0;
            }
        }
        let coincident = dx == 0 && dy == 0;
        let sx: i64 = if coincident { 1 } else { dx };
        let sy: i64 = if coincident { 0 } else { dy };
        let len: u128 = if coincident { 1 } else { dist as u128 };
        let ax: u128 = if sx < 0 { (-sx) as u128 } else { sx as u128 };
        let ay: u128 = if sy < 0 { (-sy) as u128 } else { sy as u128 };
        let deep: u128 = (rs as u128) - (dist as u128);
        let total: u128 = (self.mass + other.mass) as u128;
        assert(2 * total * deep <= 0x1000_0000_0000_0000u128) by (nonlinear_arith)
            requires
                total <= 2 * MASS_LIMIT,
                deep <= 2 * RADIUS_LIMIT;
        let base: u128 = 2 * total * deep;
        assert(base * ax <= base * len && base * ay <= base * len) by (nonlinear_arith)
            requires ax <= len, ay <= len, 0 <= base;
        assert(base * len <= 0x1000_0000_0000_0000u128 * 0x20_0000_0000u128) by (nonlinear_arith)
            requires base <= 0x1000_0000_0000_0000u128, len <= 0x20_0000_0000u128;
        let kx: u128 = base * ax / len;
        let ky: u128 = base * ay / len;
        assert(kx <= base && ky <= base) by (nonlinear_arith)
            requires
                kx == (base * ax) as int / len as int,
                ky == (base * ay) as int / len as int,
                base * ax <= base * len,
                base * ay <= base * len,
                len >= 1;
        let sgx: i64 = if sx > 0 { 1 } else if sx < 0 { -1 } else { 0 };
        let sgy: i64 = if sy > 0 { 1 } else if sy < 0 { -1 } else { 0 };
        let ca_x = change_for(kx, self.mass);
        let ca_y = change_for(ky, self.mass);
        let cb_x = change_for(kx, other.mass);
        let cb_y = change_for(ky, other.mass);
        self.velocity.x = nudge(self.velocity.x, sgx, ca_x);
        self.velocity.y = nudge(self.velocity.y, sgy, ca_y);
        other.velocity.x = nudge(other.velocity.x, -sgx, cb_x);
        other.velocity.y = nudge(other.velocity.y, -sgy, cb_y);
    }
}


/// Every non-negative integer has a square root rounded down.
pub proof fn lemma_isqrt_exists(n: nat)
    ensures
        is_isqrt(n as int, floor_sqrt(n as int)),
    decreases n,
{
    if n == 0 {
        assert(is_isqrt(0, 0));
    } else {
        lemma_isqrt_exists((n - 1) as nat);
        let r = floor_sqrt(n - 1);
        if (r + 1) * (r + 1) <= n {
            assert((r + 2) * (r + 2) > n) by (nonlinear_arith)
                requires 0 <= r, r * r <= n - 1, (r + 1) * (r + 1) <= n, n - 1 < (r + 1) * (r + 1);
            assert(is_isqrt(n as int, r + 1));
        } else {
            assert(is_isqrt(n as int, r));
        }
    }
}

/// The speed at which `a` moves away from `b` along `(dx, dy)`, scaled by
/// the length of that vector.
pub open spec fn separating_speed(a: BallView, b: BallView, dx: int, dy: int) -> int {
    (a.vx - b.vx) * dx + (a.vy - b.vy) * dy
}

/// In `resolve`, no velocity component of either body reaches the speed limit.
pub open spec fn unsaturated(a: BallView, b: BallView) -> bool {
    let dx = dir_x(a, b);
    let dy = dir_y(a, b);
    let kx = axis_impulse(a, b, dx);
    let ky = axis_impulse(a, b, dy);
    &&& abs(a.vx + signum(dx) * speed_change(kx, a.mass)) <= SPEED_LIMIT
    &&& abs(a.vy + signum(dy) * speed_change(ky, a.mass)) <= SPEED_LIMIT
    &&& abs(b.vx - signum(dx) * speed_change(kx, b.mass)) <= SPEED_LIMIT
    &&& abs(b.vy - signum(dy) * speed_change(ky, b.mass)) <= SPEED_LIMIT
}

/// `ceil_div(k, d)` is the least multiple count of `d` that reaches `k`.
proof fn lemma_ceil_div(k: int, d: int)
    requires
        k >= 0,
        d >= 1,
    ensures
        ceil_div(k, d) * d >= k,
        (ceil_div(k, d) - 1) * d < k,
        ceil_div(k, d) >= 0,
        k >= 1 ==> ceil_div(k, d) >= 1,
        k % d == 0 ==> ceil_div(k, d) * d == k,
        k <= d * ceil_div(k, d) < k + d,
{
    let q = ceil_div(k, d);
    assert(q * d + (k + d - 1) % d == k + d - 1 && 0 <= (k + d - 1) % d < d) by {
        vstd::arithmetic::div_mod::lemma_fundamental_div_mod(k + d - 1, d);
    }
    assert(q >= 0) by (nonlinear_arith)
        requires q * d + (k + d - 1) % d == k + d - 1, 0 <= (k + d - 1) % d < d, k >= 0, d >= 1;
    if k % d == 0 {
        vstd::arithmetic::div_mod::lemma_fundamental_div_mod(k, d);
        let j = k / d;
        assert(k == j * d);
        assert((k + d - 1) / d == j) by {
            vstd::arithmetic::div_mod::lemma_div_multiples_vanish_fancy(j, d - 1, d);
        }
    }
    assert(q * d - d == (q - 1) * d) by (nonlinear_arith);
    if k >= 1 {
        assert(q >= 1) by (nonlinear_arith) requires q * d >= k, k >= 1, q >= 0;
    }
    assert(d * q == q * d) by (nonlinear_arith);
}

/// A larger divisor gives a rounded-up quotient that is no larger.
proof fn lemma_ceil_div_antitone(k: int, d1: int, d2: int)
    requires
        k >= 0,
        d1 >= d2 >= 1,
    ensures
        ceil_div(k, d1) <= ceil_div(k, d2),
{
    lemma_ceil_div(k, d1);
    lemma_ceil_div(k, d2);
    let q1 = ceil_div(k, d1);
    let q2 = ceil_div(k, d2);
    if q1 > q2 {
        assert((q1 - 1) * d1 >= q2 * d2) by (nonlinear_arith)
            requires q1 - 1 >= q2, q2 >= 0, d1 >= d2, d2 >= 1;
    }
}

/// Moving `v` by `c` in the direction of `s` and saturating never moves it
/// against `s`, and moves it by exactly `c` where nothing saturates.
proof fn lemma_push(v: int, c: int, s: int)
    requires
        abs(v) <= SPEED_LIMIT,
        c >= 0,
    ensures
        (clamp_speed(v + signum(s) * c) - v) * s >= 0,
        abs(v + signum(s) * c) <= SPEED_LIMIT ==> (clamp_speed(v + signum(s) * c) - v) * s == c * abs(s),
        abs(v + signum(s) * c) <= SPEED_LIMIT ==> abs(clamp_speed(v + signum(s) * c) - v) == c || s == 0,
{
    let w = clamp_speed(v + signum(s) * c);
    if s > 0 {
        assert(w - v >= 0);
        assert((w - v) * s >= 0) by (nonlinear_arith) requires w - v >= 0, s > 0;
        if abs(v + signum(s) * c) <= SPEED_LIMIT {
            assert(w - v == c);
        }
    } else if s < 0 {
        assert(signum(s) * c == -c);
        assert(w - v <= 0);
        assert((w - v) * s >= 0) by (nonlinear_arith) requires w - v <= 0, s < 0;
        if abs(v + signum(s) * c) <= SPEED_LIMIT {
            assert(w - v == -c);
            assert(-c * s == c * (-s)) by (nonlinear_arith);
        }
    } else {
        assert((w - v) * s == 0 && c * abs(s) == 0) by (nonlinear_arith) requires s == 0, abs(s) == 0;
    }
}

/// Facts on the geometry of an overlap: a positive depth, a positive
/// direction length that bounds both components, and one component that
/// carries at least a quarter of that length.
proof fn lemma_overlap_geometry(a: BallView, b: BallView)
    requires
        a.valid(),
        b.valid(),
        overlapping(a, b),
    ensures
        depth(a, b) >= 1,
        dir_len(a, b) >= 1,
        abs(dir_x(a, b)) <= dir_len(a, b),
        abs(dir_y(a, b)) <= dir_len(a, b),
        4 * abs(dir_x(a, b)) >= dir_len(a, b) || 4 * abs(dir_y(a, b)) >= dir_len(a, b),
{
    let n = dist_sq(a, b);
    let dx = a.cx - b.cx;
    let dy = a.cy - b.cy;
    let rs = radius_sum(a, b);
    assert(n >= 0) by (nonlinear_arith) requires n == dx * dx + dy * dy;
    lemma_isqrt_exists(n as nat);
    let r = floor_sqrt(n);
    assert(r < rs) by (nonlinear_arith)
        requires r * r <= n, n < rs * rs, rs > 0, r >= 0;
    assert(abs(dx) <= r && abs(dy) <= r) by (nonlinear_arith)
        requires n == dx * dx + dy * dy, n < (r + 1) * (r + 1), r >= 0;
    if !coincident(a, b) {
        assert(r >= 1) by (nonlinear_arith)
            requires n == dx * dx + dy * dy, n < (r + 1) * (r + 1), r >= 0, dx != 0 || dy != 0;
        assert(4 * abs(dx) >= r || 4 * abs(dy) >= r) by (nonlinear_arith)
            requires n == dx * dx + dy * dy, r * r <= n, r >= 0;
    }
}

/// Resolving an overlap never lowers the speed at which the two bodies
/// separate along the direction from one to the other, and raises it
/// strictly wherever no velocity saturates: momentum goes into parting them
/// although their positions are not corrected.
pub proof fn lemma_resolve_separates(a: BallView, b: BallView)
    requires
        a.valid(),
        b.valid(),
        overlapping(a, b),
    ensures
        separating_speed(resolve(a, b).0, resolve(a, b).1, dir_x(a, b), dir_y(a, b))
            >= separating_speed(a, b, dir_x(a, b), dir_y(a, b)),
        unsaturated(a, b) ==> separating_speed(resolve(a, b).0, resolve(a, b).1, dir_x(a, b), dir_y(a, b))
            > separating_speed(a, b, dir_x(a, b), dir_y(a, b)),
{
    let (a2, b2) = resolve(a, b);
    let dx = dir_x(a, b);
    let dy = dir_y(a, b);
    let len = dir_len(a, b);
    let dep = depth(a, b);
    let total = a.mass + b.mass;
    let kx = axis_impulse(a, b, dx);
    let ky = axis_impulse(a, b, dy);
    lemma_overlap_geometry(a, b);
    assert(kx >= 0 && ky >= 0) by (nonlinear_arith)
        requires
            kx == 2 * total * dep * abs(dx) / len,
            ky == 2 * total * dep * abs(dy) / len,
            total >= 2, dep >= 1, len >= 1, abs(dx) >= 0, abs(dy) >= 0;
    let cax = speed_change(kx, a.mass);
    let cay = speed_change(ky, a.mass);
    let cbx = speed_change(kx, b.mass);
    let cby = speed_change(ky, b.mass);
    lemma_ceil_div(kx, a.mass * IMPULSE_DIVISOR);
    lemma_ceil_div(ky, a.mass * IMPULSE_DIVISOR);
    lemma_ceil_div(kx, b.mass * IMPULSE_DIVISOR);
    lemma_ceil_div(ky, b.mass * IMPULSE_DIVISOR);
    lemma_push(a.vx, cax, dx);
    lemma_push(a.vy, cay, dy);
    lemma_push(b.vx, cbx, -dx);
    lemma_push(b.vy, cby, -dy);
    assert(signum(-dx) == -signum(dx) && signum(-dy) == -signum(dy));
    assert(-signum(dx) * cbx == signum(-dx) * cbx);
    assert(-signum(dy) * cby == signum(-dy) * cby);
    assert(b.vx - signum(dx) * cbx == b.vx + signum(-dx) * cbx);
    assert(b.vy - signum(dy) * cby == b.vy + signum(-dy) * cby);
    let gain = separating_speed(a2, b2, dx, dy) - separating_speed(a, b, dx, dy);
    assert(gain == (a2.vx - a.vx) * dx + (b2.vx - b.vx) * (-dx) + (a2.vy - a.vy) * dy + (b2.vy - b.vy) * (-dy))
        by (nonlinear_arith)
        requires
            gain == ((a2.vx - b2.vx) * dx + (a2.vy - b2.vy) * dy) - ((a.vx - b.vx) * dx + (a.vy - b.vy) * dy);
    if unsaturated(a, b) {
        if 4 * abs(dx) >= len {
            assert(kx >= 1) by (nonlinear_arith)
                requires kx == 2 * total * dep * abs(dx) / len, total >= 2, dep >= 1, len >= 1, 4 * abs(dx) >= len;
            assert(cax * abs(dx) >= 1) by (nonlinear_arith) requires cax >= 1, abs(dx) >= 1;
        } else {
            assert(ky >= 1) by (nonlinear_arith)
                requires ky == 2 * total * dep * abs(dy) / len, total >= 2, dep >= 1, len >= 1, 4 * abs(dy) >= len;
            assert(cay * abs(dy) >= 1) by (nonlinear_arith) requires cay >= 1, abs(dy) >= 1;
        }
        assert(cax * abs(dx) >= 0 && cbx * abs(-dx) >= 0 && cay * abs(dy) >= 0 && cby * abs(-dy) >= 0)
            by (nonlinear_arith)
            requires cax >= 0, cbx >= 0, cay >= 0, cby >= 0;
    }
}

/// Along each axis both speed changes come from one impulse, each divided
/// by the body's own mass: the heavier body changes less, and where the
/// impulse divides evenly the changes stand exactly in the inverse ratio of
/// the masses (`m1 * |dv1| == m2 * |dv2|`). Otherwise each body's change,
/// times its mass and the divisor, exceeds the impulse by less than its
/// mass times the divisor: less than one speed unit of rounding per axis.
pub proof fn lemma_resolve_mass_ratio(a: BallView, b: BallView)
    requires
        a.valid(),
        b.valid(),
        overlapping(a, b),
        unsaturated(a, b),
    ensures
        ({
            let (a2, b2) = resolve(a, b);
            let kx = axis_impulse(a, b, dir_x(a, b));
            let ky = axis_impulse(a, b, dir_y(a, b));
            &&& abs(a2.vx - a.vx) == speed_change(kx, a.mass)
            &&& abs(a2.vy - a.vy) == speed_change(ky, a.mass)
            &&& abs(b2.vx - b.vx) == speed_change(kx, b.mass)
            &&& abs(b2.vy - b.vy) == speed_change(ky, b.mass)
            &&& a.mass >= b.mass ==> abs(a2.vx - a.vx) <= abs(b2.vx - b.vx) && abs(a2.vy - a.vy) <= abs(b2.vy - b.vy)
            &&& kx % (a.mass * IMPULSE_DIVISOR) == 0 && kx % (b.mass * IMPULSE_DIVISOR) == 0
                ==> a.mass * abs(a2.vx - a.vx) == b.mass * abs(b2.vx - b.vx)
            &&& ky % (a.mass * IMPULSE_DIVISOR) == 0 && ky % (b.mass * IMPULSE_DIVISOR) == 0
                ==> a.mass * abs(a2.vy - a.vy) == b.mass * abs(b2.vy - b.vy)
            &&& kx <= (a.mass * IMPULSE_DIVISOR) * abs(a2.vx - a.vx) < kx + a.mass * IMPULSE_DIVISOR
            &&& kx <= (b.mass * IMPULSE_DIVISOR) * abs(b2.vx - b.vx) < kx + b.mass * IMPULSE_DIVISOR
            &&& ky <= (a.mass * IMPULSE_DIVISOR) * abs(a2.vy - a.vy) < ky + a.mass * IMPULSE_DIVISOR
            &&& ky <= (b.mass * IMPULSE_DIVISOR) * abs(b2.vy - b.vy) < ky + b.mass * IMPULSE_DIVISOR
        }),
{
    let (a2, b2) = resolve(a, b);
    let dx = dir_x(a, b);
    let dy = dir_y(a, b);
    let len = dir_len(a, b);
    let dep = depth(a, b);
    let total = a.mass + b.mass;
    let kx = axis_impulse(a, b, dx);
    let ky = axis_impulse(a, b, dy);
    lemma_overlap_geometry(a, b);
    assert(kx >= 0 && ky >= 0) by (nonlinear_arith)
        requires
            kx == 2 * total * dep * abs(dx) / len,
            ky == 2 * total * dep * abs(dy) / len,
            total >= 2, dep >= 1, len >= 1, abs(dx) >= 0, abs(dy) >= 0;
    if dx == 0 {
        assert(kx == 0) by (nonlinear_arith)
            requires kx == 2 * total * dep * abs(dx) / len, dx == 0, len >= 1;
    }
    if dy == 0 {
        assert(ky == 0) by (nonlinear_arith)
            requires ky == 2 * total * dep * abs(dy) / len, dy == 0, len >= 1;
    }
    let da = a.mass * IMPULSE_DIVISOR;
    let db = b.mass * IMPULSE_DIVISOR;
    lemma_ceil_div(kx, da);
    lemma_ceil_div(ky, da);
    lemma_ceil_div(kx, db);
    lemma_ceil_div(ky, db);
    let cax = speed_change(kx, a.mass);
    let cay = speed_change(ky, a.mass);
    let cbx = speed_change(kx, b.mass);
    let cby = speed_change(ky, b.mass);
    if kx == 0 {
        assert(cax == 0 && cbx == 0);
    }
    if ky == 0 {
        assert(cay == 0 && cby == 0);
    }
    lemma_push(a.vx, cax, dx);
    lemma_push(a.vy, cay, dy);
    lemma_push(b.vx, cbx, -dx);
    lemma_push(b.vy, cby, -dy);
    assert(b.vx - signum(dx) * cbx == b.vx + signum(-dx) * cbx);
    assert(b.vy - signum(dy) * cby == b.vy + signum(-dy) * cby);
    if a.mass >= b.mass {
        assert(da >= db);
        lemma_ceil_div_antitone(kx, da, db);
        lemma_ceil_div_antitone(ky, da, db);
    }
    if kx % da == 0 && kx % db == 0 {
        assert(a.mass * cax == b.mass * cbx) by (nonlinear_arith)
            requires cax * (a.mass * IMPULSE_DIVISOR) == kx, cbx * (b.mass * IMPULSE_DIVISOR) == kx;
    }
    if ky % da == 0 && ky % db == 0 {
        assert(a.mass * cay == b.mass * cby) by (nonlinear_arith)
            requires cay * (a.mass * IMPULSE_DIVISOR) == ky, cby * (b.mass * IMPULSE_DIVISOR) == ky;
    }
}

/// Resolving a collision changes velocities only, and keeps them within
/// the speed limit.
pub proof fn lemma_resolve_frame(a: BallView, b: BallView)
    requires
        a.valid(),
        b.valid(),
    ensures
        resolve(a, b).0 == (BallView { vx: resolve(a, b).0.vx, vy: resolve(a, b).0.vy, ..a }),
        resolve(a, b).1 == (BallView { vx: resolve(a, b).1.vx, vy: resolve(a, b).1.vy, ..b }),
        resolve(a, b).0.valid(),
        resolve(a, b).1.valid(),
{
}

} // verus!
