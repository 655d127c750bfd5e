//! Points of the plane in fixed point, the distance between them, and
//! steering.
//!
//! A coordinate or a length is a whole number of sub-units, `UNIT` of which
//! make one unit. A distance is the Euclidean distance rounded down to a
//! whole sub-unit. The two components of a step are rounded down likewise,
//! which takes less than two sub-units from its length; from `MIN_STEP`
//! sub-units on, a step keeps its length and its bearing to a thousandth.

use vstd::prelude::*;

verus! {

/// The number of sub-units in one unit: coordinates and lengths have
/// sixteen binary places.
pub const UNIT: i32 = 65_536;

/// The length in sub-units from which a step keeps its length and its
/// bearing to a thousandth.
pub const MIN_STEP: u32 = 2_000;

/// A point of the plane. Its coordinates are in sub-units.
#[derive(Clone, Copy, Debug, PartialEq, Eq, Structural)]
pub struct Point {
    pub x: i32,
    pub y: i32,
}

/// The length of `n` units, in sub-units.
pub fn units(n: u16) -> (length: u32)
    ensures
        length == n * UNIT,
{
    n as u32 * 65_536
}

/// `r` is the integer part of the square root of `n`.
pub open spec fn is_isqrt(n: nat, r: nat) -> bool {
    r * r <= n < (r + 1) * (r + 1)
}

/// The integer part of the square root of `n`.
pub open spec fn isqrt(n: nat) -> nat {
    choose|r: nat| is_isqrt(n, r)
}

/// Squaring preserves the order of natural numbers.
pub proof fn lemma_square_monotone(a: nat, b: nat)
    requires
        a <= b,
    ensures
        a * a <= b * b,
{
    assert(a * a <= b * b) by (nonlinear_arith)
        requires
            a <= b,
    ;
}

/// Every natural number has an integer square root.
pub proof fn lemma_isqrt_exists(n: nat)
    ensures
        is_isqrt(n, isqrt(n)),
    decreases n,
{
    if n == 0 {
        assert(is_isqrt(0, 0)) by (nonlinear_arith);
    } else {
        let m = (n - 1) as nat;
        lemma_isqrt_exists(m);
        let r = isqrt(m);
        if (r + 1) * (r + 1) <= n {
            let s = r + 1;
            assert(is_isqrt(n, s)) by (nonlinear_arith)
                requires
                    s == r + 1,
                    s * s <= n,
                    n - 1 < s * s,
            ;
        } else {
            assert(is_isqrt(n, r));
        }
    }
}

/// The integer square root is unique.
pub proof fn lemma_isqrt_unique(n: nat, r: nat)
    requires
        is_isqrt(n, r),
    ensures
        isqrt(n) == r,
{
    let s = isqrt(n);
    if s < r {
        lemma_square_monotone(s + 1, r);
    } else if r < s {
        lemma_square_monotone(r + 1, s);
    }
}

/// A larger number has no smaller integer square root.
pub proof fn lemma_isqrt_monotone(a: nat, b: nat)
    requires
        a <= b,
    ensures
        isqrt(a) <= isqrt(b),
{
    lemma_isqrt_exists(a);
    lemma_isqrt_exists(b);
    if isqrt(b) < isqrt(a) {
        lemma_square_monotone(isqrt(b) + 1, isqrt(a));
    }
}

/// The integer square root of a square is its base.
pub proof fn lemma_isqrt_of_square(r: nat)
    ensures
        isqrt(r * r) == r,
{
    assert(r * r < (r + 1) * (r + 1)) by (nonlinear_arith);
    lemma_isqrt_unique(r * r, r);
}

/// Computes the integer part of the square root of `n` by bisection.
pub fn integer_sqrt(n: u128) -> (r: u64)
    ensures
        r == isqrt(n as nat),
        is_isqrt(n as nat, r as nat),
{
    let mut lo: u128 = 0;
    let mut hi: u128 = 0x1_0000_0000_0000_0000;
    assert(0x1_0000_0000_0000_0000int * 0x1_0000_0000_0000_0000int > u128::MAX) by (nonlinear_arith);
    while hi - lo > 1
        invariant
            lo < hi <= 0x1_0000_0000_0000_0000,
            lo * lo <= n < hi * hi,
        decreases hi - lo,
    {
        let mid: u128 = lo + (hi - lo) / 2;
        assert(mid * mid <= 0xFFFF_FFFF_FFFF_FFFFint * 0xFFFF_FFFF_FFFF_FFFFint) by (nonlinear_arith)
            requires
                0 <= mid <= 0xFFFF_FFFF_FFFF_FFFFint,
        ;
        assert(0xFFFF_FFFF_FFFF_FFFFint * 0xFFFF_FFFF_FFFF_FFFFint <= u128::MAX) by (nonlinear_arith);
        if mid * mid <= n {
            lo = mid;
        } else {
            hi = mid;
        }
    }
    proof {
        lemma_isqrt_unique(n as nat, lo as nat);
    }
    lo as u64
}

/// The square of the Euclidean distance between `a` and `b`.
pub open spec fn dist_sq(a: Point, b: Point) -> nat {
    ((a.x - b.x) * (a.x - b.x) + (a.y - b.y) * (a.y - b.y)) as nat
}

/// The distance between `a` and `b`: their Euclidean distance rounded down
/// to a whole sub-unit.
pub open spec fn dist(a: Point, b: Point) -> nat {
    isqrt(dist_sq(a, b))
}

/// No two points are this far apart.
pub const MAX_EDGE: u64 = 0x2_0000_0000;

/// The squared distance is the sum of the squares of the coordinate
/// differences, which is not negative.
pub proof fn lemma_dist_sq_value(a: Point, b: Point)
    ensures
        dist_sq(a, b) == (a.x - b.x) * (a.x - b.x) + (a.y - b.y) * (a.y - b.y),
        (a.x - b.x) * (a.x - b.x) >= 0,
        (a.y - b.y) * (a.y - b.y) >= 0,
{
    assert((a.x - b.x) * (a.x - b.x) >= 0) by (nonlinear_arith);
    assert((a.y - b.y) * (a.y - b.y) >= 0) by (nonlinear_arith);
}

/// The distance does not depend on the order of its arguments.
pub proof fn lemma_dist_symmetric(a: Point, b: Point)
    ensures
        dist_sq(a, b) == dist_sq(b, a),
        dist(a, b) == dist(b, a),
{
    lemma_dist_sq_value(a, b);
    lemma_dist_sq_value(b, a);
    assert((a.x - b.x) * (a.x - b.x) == (b.x - a.x) * (b.x - a.x)) by (nonlinear_arith);
    assert((a.y - b.y) * (a.y - b.y) == (b.y - a.y) * (b.y - a.y)) by (nonlinear_arith);
}

/// The distance is zero exactly between a point and itself.
pub proof fn lemma_dist_zero_iff_equal(a: Point, b: Point)
    ensures
        dist(a, b) == 0 <==> a == b,
{
    let dx = a.x - b.x;
    let dy = a.y - b.y;
    lemma_dist_sq_value(a, b);
    lemma_isqrt_exists(dist_sq(a, b));
    if a == b {
        assert(dist_sq(a, b) == 0) by (nonlinear_arith)
            requires
                dist_sq(a, b) == dx * dx + dy * dy,
                dx == 0,
                dy == 0,
        ;
        assert(is_isqrt(0, 0)) by (nonlinear_arith);
        lemma_isqrt_unique(0, 0);
    } else {
        assert(dx * dx + dy * dy >= 1) by (nonlinear_arith)
            requires
                dx != 0 || dy != 0,
        ;
        assert(is_isqrt(1, 1)) by (nonlinear_arith);
        lemma_isqrt_unique(1, 1);
        lemma_isqrt_monotone(1, dist_sq(a, b));
    }
}

/// Every distance is below `MAX_EDGE`.
pub proof fn lemma_dist_bounded(a: Point, b: Point)
    ensures
        dist_sq(a, b) < 0x2_0000_0000_0000_0000,
        dist(a, b) < MAX_EDGE,
{
    let dx = a.x - b.x;
    let dy = a.y - b.y;
    lemma_dist_sq_value(a, b);
    assert(dx * dx <= 0xFFFF_FFFF * 0xFFFF_FFFF) by (nonlinear_arith)
        requires
            -0xFFFF_FFFF <= dx <= 0xFFFF_FFFF,
    ;
    assert(dy * dy <= 0xFFFF_FFFF * 0xFFFF_FFFF) by (nonlinear_arith)
        requires
            -0xFFFF_FFFF <= dy <= 0xFFFF_FFFF,
    ;
    assert(0xFFFF_FFFFint * 0xFFFF_FFFFint < 0x1_0000_0000_0000_0000) by (nonlinear_arith);
    let n = dist_sq(a, b);
    lemma_isqrt_exists(n);
    let r = isqrt(n);
    if r >= 0x2_0000_0000 {
        lemma_square_monotone(0x2_0000_0000, r);
        assert(0x2_0000_0000nat * 0x2_0000_0000nat > 0x2_0000_0000_0000_0000) by (nonlinear_arith);
    }
}

/// The magnitude of a coordinate difference.
fn magnitude(d: i64) -> (m: u64)
    requires
        -0xFFFF_FFFF <= d <= 0xFFFF_FFFF,
    ensures
        m == if d >= 0 { d as int } else { -d },
        m <= 0xFFFF_FFFF,
        m * m == d * d,
        m * m <= 0xFFFF_FFFF * 0xFFFF_FFFF,
        m * m < 0x1_0000_0000_0000_0000,
{
    let m: u64 = if d >= 0 {
        d as u64
    } else {
        (-d) as u64
    };
    proof {
        assert(m * m == d * d) by (nonlinear_arith)
            requires
                m == d || m == -d,
        ;
        assert(m * m <= 0xFFFF_FFFF * 0xFFFF_FFFF) by (nonlinear_arith)
            requires
                0 <= m <= 0xFFFF_FFFF,
        ;
        assert(0xFFFF_FFFFint * 0xFFFF_FFFFint < 0x1_0000_0000_0000_0000) by (nonlinear_arith);
    }
    m
}

impl Point {
    /// The point `x` units along the first axis and `y` along the second.
    pub fn from_units(x: i16, y: i16) -> (p: Point)
        ensures
            p.x == x * UNIT,
            p.y == y * UNIT,
    {
        Point { x: x as i32 * UNIT, y: y as i32 * UNIT }
    }

    /// The square of the Euclidean distance to `other`, exactly.
    pub fn distance_squared(&self, other: &Point) -> (s: u128)
        ensures
            s == dist_sq(*self, *other),
    {
        let ax: u64 = magnitude(self.x as i64 - other.x as i64);
        let ay: u64 = magnitude(self.y as i64 - other.y as i64);
        (ax as u128) * (ax as u128) + (ay as u128) * (ay as u128)
    }

    /// The distance to `other`: the Euclidean distance rounded down to a
    /// whole sub-unit.
    pub fn distance(&self, other: &Point) -> (d: u64)
        ensures
            d == dist(*self, *other),
            d * d <= dist_sq(*self, *other) < (d + 1) * (d + 1),
            d < MAX_EDGE,
    {
        proof {
            lemma_dist_bounded(*self, *other);
            lemma_isqrt_exists(dist_sq(*self, *other));
        }
        integer_sqrt(self.distance_squared(other))
    }
}

/// How far a step of length `step` reaches along one axis, when the target
/// lies `d` away along that axis and the square of its distance is `n`: the
/// exact reach `step * |d| / sqrt(n)`, rounded down.
pub open spec fn axis_reach(step: nat, d: int, n: nat) -> nat {
    isqrt((((step * step) * (d * d)) / (n as int)) as nat)
}

/// The reach along one axis, on the side of the target.
pub open spec fn axis_step(step: nat, d: int, n: nat) -> int {
    if d >= 0 {
        axis_reach(step, d, n) as int
    } else {
        -(axis_reach(step, d, n) as int)
    }
}

/// The displacement of a step of length `step` from `from` towards `to`.
/// Each component is rounded towards zero. Where the two points coincide the
/// step goes along the positive x axis.
pub open spec fn steer_offset(from: Point, to: Point, step: nat) -> (int, int) {
    let dx = to.x - from.x;
    let dy = to.y - from.y;
    if dx == 0 && dy == 0 {
        (step as int, 0int)
    } else {
        let n = (dx * dx + dy * dy) as nat;
        (axis_step(step, dx, n), axis_step(step, dy, n))
    }
}

/// The step of length `step` from `from` towards `to` ends inside the range
/// of the coordinates.
pub open spec fn can_step(from: Point, to: Point, step: nat) -> bool {
    let off = steer_offset(from, to, step);
    &&& i32::MIN <= from.x + off.0 <= i32::MAX
    &&& i32::MIN <= from.y + off.1 <= i32::MAX
}

/// The point reached by a step of length `step` from `from` towards `to`.
pub open spec fn steered(from: Point, to: Point, step: nat) -> Point
    recommends
        can_step(from, to, step),
{
    let off = steer_offset(from, to, step);
    Point { x: (from.x + off.0) as i32, y: (from.y + off.1) as i32 }
}

/// `p` is one step of length `step` away from `from`, to a thousandth of
/// the step.
pub open spec fn a_step_away(from: Point, p: Point, step: nat) -> bool {
    999 * 999 * (step * step) <= 1000 * 1000 * dist_sq(from, p) <= 1001 * 1001 * (step * step)
}

/// `p` lies from `from` in the direction of `to`, to a thousandth: the two
/// displacements make an acute angle, and their cross product is at most a
/// thousandth of the product of their lengths.
pub open spec fn on_bearing(from: Point, to: Point, p: Point) -> bool {
    let vx = to.x - from.x;
    let vy = to.y - from.y;
    let wx = p.x - from.x;
    let wy = p.y - from.y;
    let c = vx * wy - vy * wx;
    &&& vx * wx + vy * wy > 0
    &&& 1_000_000 * (c * c) <= (vx * vx + vy * vy) * (wx * wx + wy * wy)
}

/// The reach `r` along an axis is the largest whole number with
/// `n * r * r <= step * step * d * d`. It is at most `step`, and zero where
/// the target lies nowhere along that axis.
pub proof fn lemma_axis_reach(step: nat, d: int, n: nat)
    requires
        n > 0,
        d * d <= n,
    ensures
        ({
            let r = axis_reach(step, d, n) as int;
            &&& 0 <= r <= step
            &&& n * (r * r) <= (step * step) * (d * d)
            &&& (step * step) * (d * d) < n * ((r + 1) * (r + 1))
            &&& d == 0 ==> r == 0
            &&& axis_step(step, d, n) * axis_step(step, d, n) == r * r
        }),
{
    let s2 = (step * step) as int;
    let m = n as int;
    let q = (s2 * (d * d)) / m;
    assert(0 <= d * d) by (nonlinear_arith);
    assert(0 <= s2 * (d * d) <= s2 * m) by (nonlinear_arith)
        requires
            0 <= d * d <= m,
            0 <= s2,
    ;
    vstd::arithmetic::div_mod::lemma_div_is_ordered(s2 * (d * d), s2 * m, m);
    vstd::arithmetic::div_mod::lemma_div_multiples_vanish(s2, m);
    vstd::arithmetic::div_mod::lemma_div_pos_is_pos(s2 * (d * d), m);
    vstd::arithmetic::div_mod::lemma_fundamental_div_mod(s2 * (d * d), m);
    vstd::arithmetic::div_mod::lemma_mod_pos_bound(s2 * (d * d), m);
    assert(0 <= q <= s2);
    lemma_isqrt_exists(q as nat);
    lemma_isqrt_monotone(q as nat, s2 as nat);
    lemma_isqrt_of_square(step);
    let r = isqrt(q as nat) as int;
    assert((-r) * (-r) == r * r) by (nonlinear_arith);
    assert(m * (q + 1) == m * q + m) by (nonlinear_arith);
    assert(m * (r * r) <= s2 * (d * d)) by (nonlinear_arith)
        requires
            m > 0,
            r * r <= q,
            m * q <= s2 * (d * d),
    ;
    assert(s2 * (d * d) < m * ((r + 1) * (r + 1))) by (nonlinear_arith)
        requires
            m > 0,
            (r + 1) * (r + 1) >= q + 1,
            m * (q + 1) > s2 * (d * d),
    ;
    if d == 0 {
        assert(s2 * (d * d) == 0) by (nonlinear_arith)
            requires
                d == 0,
        ;
        assert(is_isqrt(0, 0)) by (nonlinear_arith);
        lemma_isqrt_unique(0, 0);
    }
}

/// A step never lands farther than its length from where it began, and
/// neither of its components is longer than the step.
pub proof fn lemma_steer_offset_length(from: Point, to: Point, step: nat)
    ensures
        ({
            let off = steer_offset(from, to, step);
            &&& off.0 * off.0 + off.1 * off.1 <= step * step
            &&& -step <= off.0 <= step
            &&& -step <= off.1 <= step
        }),
{
    let dx = to.x - from.x;
    let dy = to.y - from.y;
    let off = steer_offset(from, to, step);
    let s2 = (step * step) as int;
    if dx == 0 && dy == 0 {
        assert(off.0 * off.0 + off.1 * off.1 == step * step) by (nonlinear_arith)
            requires
                off.0 == step,
                off.1 == 0,
        ;
    } else {
        let n = dx * dx + dy * dy;
        assert(0 <= dx * dx && 0 <= dy * dy && dx * dx + dy * dy > 0) by (nonlinear_arith)
            requires
                dx != 0 || dy != 0,
        ;
        lemma_axis_reach(step, dx, n as nat);
        lemma_axis_reach(step, dy, n as nat);
        let a = axis_reach(step, dx, n as nat) as int;
        let b = axis_reach(step, dy, n as nat) as int;
        assert(a * a + b * b <= s2) by (nonlinear_arith)
            requires
                n > 0,
                n * (a * a) <= s2 * (dx * dx),
                n * (b * b) <= s2 * (dy * dy),
                dx * dx + dy * dy == n,
        ;
    }
}

/// A step of length two or more lands less than two short of its length:
/// rounding takes less than one from each component.
pub proof fn lemma_steer_offset_reach(from: Point, to: Point, step: nat)
    requires
        step >= 2,
    ensures
        ({
            let off = steer_offset(from, to, step);
            off.0 * off.0 + off.1 * off.1 >= (step - 2) * (step - 2)
        }),
{
    let dx = to.x - from.x;
    let dy = to.y - from.y;
    let off = steer_offset(from, to, step);
    let s = step as int;
    if dx == 0 && dy == 0 {
        assert(off.0 * off.0 + off.1 * off.1 >= (s - 2) * (s - 2)) by (nonlinear_arith)
            requires
                off.0 == s,
                off.1 == 0,
                s >= 2,
        ;
    } else {
        let n = dx * dx + dy * dy;
        let s2 = (step * step) as int;
        assert(0 <= dx * dx && 0 <= dy * dy && dx * dx + dy * dy > 0) by (nonlinear_arith)
            requires
                dx != 0 || dy != 0,
        ;
        lemma_axis_reach(step, dx, n as nat);
        lemma_axis_reach(step, dy, n as nat);
        let a = axis_reach(step, dx, n as nat) as int;
        let b = axis_reach(step, dy, n as nat) as int;
        assert((a + 1) * (a + 1) + (b + 1) * (b + 1) > s2) by (nonlinear_arith)
            requires
                n > 0,
                n * ((a + 1) * (a + 1)) > s2 * (dx * dx),
                n * ((b + 1) * (b + 1)) > s2 * (dy * dy),
                dx * dx + dy * dy == n,
        ;
        let d = a * a + b * b;
        let t = a + b;
        assert(d + 2 * t + 2 > s * s) by (nonlinear_arith)
            requires
                (a + 1) * (a + 1) + (b + 1) * (b + 1) > s2,
                s2 == s * s,
                d == a * a + b * b,
                t == a + b,
        ;
        assert(t * t <= 2 * d) by (nonlinear_arith)
            requires
                d == a * a + b * b,
                t == a + b,
        ;
        if t >= 2 * s - 2 {
            assert(d >= (s - 2) * (s - 2)) by (nonlinear_arith)
                requires
                    t >= 2 * s - 2,
                    t * t <= 2 * d,
                    s >= 2,
            ;
        } else {
            assert(d >= (s - 2) * (s - 2)) by (nonlinear_arith)
                requires
                    t <= 2 * s - 3,
                    d + 2 * t + 2 > s * s,
            ;
        }
    }
}

/// A step of at least `MIN_STEP` is one step long to a thousandth.
pub proof fn lemma_steer_offset_exact(from: Point, to: Point, step: nat)
    requires
        step >= MIN_STEP,
    ensures
        ({
            let off = steer_offset(from, to, step);
            999 * 999 * (step * step) <= 1000 * 1000 * (off.0 * off.0 + off.1 * off.1) <= 1001
                * 1001 * (step * step)
        }),
{
    let off = steer_offset(from, to, step);
    let d = off.0 * off.0 + off.1 * off.1;
    let s = step as int;
    lemma_steer_offset_length(from, to, step);
    lemma_steer_offset_reach(from, to, step);
    assert(999 * 999 * (s * s) <= 1000 * 1000 * ((s - 2) * (s - 2))) by (nonlinear_arith)
        requires
            s >= 2000,
    ;
    assert(999 * 999 * (s * s) <= 1000 * 1000 * d) by (nonlinear_arith)
        requires
            999 * 999 * (s * s) <= 1000 * 1000 * ((s - 2) * (s - 2)),
            d >= (s - 2) * (s - 2),
    ;
    assert(1000 * 1000 * d <= 1001 * 1001 * (s * s)) by (nonlinear_arith)
        requires
            0 <= d <= s * s,
    ;
}

/// Rounding one component of a step down moves it off the bearing by less
/// than the target's displacement along the other axis: with `x`, `y` the
/// sizes of the target's displacement and `a`, `b` those of the step's,
/// `x * b < y * (a + 1)`.
proof fn lemma_off_bearing_one_side(n: int, s2: int, x: int, y: int, a: int, b: int)
    requires
        n > 0,
        s2 >= 0,
        x >= 0,
        y > 0,
        a >= 0,
        b >= 0,
        n * (b * b) <= s2 * (y * y),
        n * ((a + 1) * (a + 1)) > s2 * (x * x),
    ensures
        x * b < y * (a + 1),
{
    let p = n * (b * b);
    let q = s2 * (y * y);
    let r = n * ((a + 1) * (a + 1));
    let t = s2 * (x * x);
    let x2 = x * x;
    let y2 = y * y;
    let u = x * b;
    let v = y * (a + 1);
    assert(x2 * p <= x2 * q) by (nonlinear_arith)
        requires
            p <= q,
            x2 == x * x,
    ;
    assert(y2 * r > y2 * t) by (nonlinear_arith)
        requires
            r > t,
            y2 == y * y,
            y > 0,
    ;
    assert(x2 * q == y2 * t) by (nonlinear_arith)
        requires
            q == s2 * y2,
            t == s2 * x2,
    ;
    assert(x2 * p == n * (u * u)) by (nonlinear_arith)
        requires
            p == n * (b * b),
            x2 == x * x,
            u == x * b,
    ;
    assert(y2 * r == n * (v * v)) by (nonlinear_arith)
        requires
            r == n * ((a + 1) * (a + 1)),
            y2 == y * y,
            v == y * (a + 1),
    ;
    assert(u * u < v * v) by (nonlinear_arith)
        requires
            n * (u * u) < n * (v * v),
            n > 0,
    ;
    assert(u >= 0 && v >= 0) by (nonlinear_arith)
        requires
            u == x * b,
            v == y * (a + 1),
            x >= 0,
            b >= 0,
            y > 0,
            a >= 0,
    ;
    assert(u < v) by (nonlinear_arith)
        requires
            u * u < v * v,
            u >= 0,
            v >= 0,
    ;
}

/// A step of at least `MIN_STEP` towards another point heads for that point:
/// it makes an acute angle with the way to the point, and its cross product
/// with it is at most a thousandth of the product of the two lengths.
pub proof fn lemma_steer_offset_bearing(from: Point, to: Point, step: nat)
    requires
        step >= MIN_STEP,
        from != to,
    ensures
        ({
            let off = steer_offset(from, to, step);
            let vx = to.x - from.x;
            let vy = to.y - from.y;
            let c = vx * off.1 - vy * off.0;
            &&& vx * off.0 + vy * off.1 > 0
            &&& 1_000_000 * (c * c) <= (vx * vx + vy * vy) * (off.0 * off.0 + off.1 * off.1)
        }),
{
    let dx = to.x - from.x;
    let dy = to.y - from.y;
    let off = steer_offset(from, to, step);
    let s = step as int;
    let n = dx * dx + dy * dy;
    let s2 = (step * step) as int;
    assert(0 <= dx * dx && 0 <= dy * dy && dx * dx + dy * dy > 0) by (nonlinear_arith)
        requires
            dx != 0 || dy != 0,
    ;
    lemma_axis_reach(step, dx, n as nat);
    lemma_axis_reach(step, dy, n as nat);
    lemma_steer_offset_reach(from, to, step);
    let x = if dx >= 0 { dx } else { -dx };
    let y = if dy >= 0 { dy } else { -dy };
    let a = axis_reach(step, dx, n as nat) as int;
    let b = axis_reach(step, dy, n as nat) as int;
    let d = off.0 * off.0 + off.1 * off.1;
    assert(x * x == dx * dx && y * y == dy * dy) by (nonlinear_arith)
        requires
            x == dx || x == -dx,
            y == dy || y == -dy,
    ;
    // How far the rounded step lies off the bearing.
    let cp = x * b - y * a;
    if y > 0 {
        lemma_off_bearing_one_side(n, s2, x, y, a, b);
        assert(cp < y) by (nonlinear_arith)
            requires
                cp == x * b - y * a,
                x * b < y * (a + 1),
        ;
    } else {
        assert(cp == 0) by (nonlinear_arith)
            requires
                cp == x * b - y * a,
                b == 0,
                y == 0,
        ;
    }
    if x > 0 {
        lemma_off_bearing_one_side(n, s2, y, x, b, a);
        assert(-cp < x) by (nonlinear_arith)
            requires
                cp == x * b - y * a,
                y * a < x * (b + 1),
        ;
    } else {
        assert(cp == 0) by (nonlinear_arith)
            requires
                cp == x * b - y * a,
                a == 0,
                x == 0,
        ;
    }
    assert(cp * cp <= n) by (nonlinear_arith)
        requires
            -x <= cp <= y,
            x >= 0,
            y >= 0,
            n == x * x + y * y,
    ;
    let c = dx * off.1 - dy * off.0;
    assert(c * c == cp * cp) by (nonlinear_arith)
        requires
            c == dx * off.1 - dy * off.0,
            cp == x * b - y * a,
            (x == dx && a == off.0) || (x == -dx && a == -off.0),
            (y == dy && b == off.1) || (y == -dy && b == -off.1),
    ;
    assert(d >= 1_000_000) by (nonlinear_arith)
        requires
            d >= (s - 2) * (s - 2),
            s >= 2000,
    ;
    assert(0 <= c * c) by (nonlinear_arith);
    assert(1_000_000 * (c * c) <= n * d) by (nonlinear_arith)
        requires
            0 <= c * c <= n,
            d >= 1_000_000,
    ;
    // The step is not null, so one of its components moves towards the
    // target.
    assert(dx * off.0 + dy * off.1 == x * a + y * b) by (nonlinear_arith)
        requires
            (x == dx && a == off.0) || (x == -dx && a == -off.0),
            (y == dy && b == off.1) || (y == -dy && b == -off.1),
    ;
    assert(a > 0 || b > 0) by (nonlinear_arith)
        requires
            d == a * a + b * b,
            d >= 1_000_000,
            a >= 0,
            b >= 0,
    ;
    assert(x * a + y * b > 0) by (nonlinear_arith)
        requires
            x >= 0,
            y >= 0,
            a >= 0,
            b >= 0,
            (a > 0 && x > 0) || (b > 0 && y > 0),
    ;
}

/// The point that a step reaches is at most one step away from where the
/// step began, and less than two sub-units short of that. From `MIN_STEP`
/// on it is one step away and lies in the direction of the target, both to
/// a thousandth. Where the two points coincide it lies one step along the
/// positive x axis.
pub proof fn lemma_steered_exact(from: Point, to: Point, step: nat)
    requires
        can_step(from, to, step),
    ensures
        steered(from, to, step).x == from.x + steer_offset(from, to, step).0,
        steered(from, to, step).y == from.y + steer_offset(from, to, step).1,
        dist(from, steered(from, to, step)) <= step,
        step >= 2 ==> step <= dist(from, steered(from, to, step)) + 2,
        step >= MIN_STEP ==> a_step_away(from, steered(from, to, step), step),
        step >= MIN_STEP && from != to ==> on_bearing(from, to, steered(from, to, step)),
        from == to ==> steered(from, to, step) == (Point { x: (from.x + step) as i32, y: from.y }),
{
    let off = steer_offset(from, to, step);
    let p = steered(from, to, step);
    lemma_steer_offset_length(from, to, step);
    assert(p.x - from.x == off.0);
    assert(p.y - from.y == off.1);
    lemma_dist_sq_value(from, p);
    assert(dist_sq(from, p) == off.0 * off.0 + off.1 * off.1) by (nonlinear_arith)
        requires
            dist_sq(from, p) == (from.x - p.x) * (from.x - p.x) + (from.y - p.y) * (from.y - p.y),
            p.x - from.x == off.0,
            p.y - from.y == off.1,
    ;
    lemma_isqrt_monotone(dist_sq(from, p), step * step);
    lemma_isqrt_of_square(step);
    if step >= 2 {
        lemma_steer_offset_reach(from, to, step);
        lemma_isqrt_monotone(((step - 2) * (step - 2)) as nat, dist_sq(from, p));
        lemma_isqrt_of_square((step - 2) as nat);
    }
    if step >= MIN_STEP {
        lemma_steer_offset_exact(from, to, step);
        if from != to {
            lemma_steer_offset_bearing(from, to, step);
        }
    }
}

/// The displacement of a step of length `step_size` from `from` towards
/// `to`.
fn offset(from: &Point, to: &Point, step_size: u32) -> (off: (i64, i64))
    ensures
        off.0 == steer_offset(*from, *to, step_size as nat).0,
        off.1 == steer_offset(*from, *to, step_size as nat).1,
        -step_size <= off.0 <= step_size,
        -step_size <= off.1 <= step_size,
{
    let dx: i64 = to.x as i64 - from.x as i64;
    let dy: i64 = to.y as i64 - from.y as i64;
    proof {
        lemma_steer_offset_length(*from, *to, step_size as nat);
    }
    if dx == 0 && dy == 0 {
        return (step_size as i64, 0);
    }
    let ax: u64 = magnitude(dx);
    let ay: u64 = magnitude(dy);
    let n: u128 = (ax as u128) * (ax as u128) + (ay as u128) * (ay as u128);
    proof {
        assert(step_size * step_size <= 0xFFFF_FFFF * 0xFFFF_FFFF) by (nonlinear_arith)
            requires
                step_size <= 0xFFFF_FFFF,
        ;
        assert(0xFFFF_FFFFint * 0xFFFF_FFFFint <= u128::MAX) by (nonlinear_arith);
    }
    let s2: u128 = (step_size as u128) * (step_size as u128);
    proof {
        assert(dx * dx + dy * dy > 0) by (nonlinear_arith)
            requires
                dx != 0 || dy != 0,
        ;
        assert(s2 * (ax * ax) <= (0xFFFF_FFFF * 0xFFFF_FFFF) * (0xFFFF_FFFF * 0xFFFF_FFFF))
            by (nonlinear_arith)
            requires
                0 <= s2 <= 0xFFFF_FFFF * 0xFFFF_FFFF,
                0 <= ax * ax <= 0xFFFF_FFFF * 0xFFFF_FFFF,
        ;
        assert(s2 * (ay * ay) <= (0xFFFF_FFFF * 0xFFFF_FFFF) * (0xFFFF_FFFF * 0xFFFF_FFFF))
            by (nonlinear_arith)
            requires
                0 <= s2 <= 0xFFFF_FFFF * 0xFFFF_FFFF,
                0 <= ay * ay <= 0xFFFF_FFFF * 0xFFFF_FFFF,
        ;
        assert((0xFFFF_FFFFint * 0xFFFF_FFFFint) * (0xFFFF_FFFFint * 0xFFFF_FFFFint) <= u128::MAX)
            by (nonlinear_arith);
    }
    let mx: u64 = integer_sqrt(s2 * ((ax as u128) * (ax as u128)) / n);
    let my: u64 = integer_sqrt(s2 * ((ay as u128) * (ay as u128)) / n);
    let ox: i64 = if dx >= 0 {
        mx as i64
    } else {
        -(mx as i64)
    };
    let oy: i64 = if dy >= 0 {
        my as i64
    } else {
        -(my as i64)
    };
    (ox, oy)
}

/// Takes a step of length `step_size` from `from` towards `to`, if the
/// step ends inside the range of the coordinates.
pub fn try_steer(from: &Point, to: &Point, step_size: u32) -> (reached: Option<Point>)
    ensures
        reached is Some <==> can_step(*from, *to, step_size as nat),
        reached matches Some(p) ==> p == steered(*from, *to, step_size as nat),
{
    let (ox, oy) = offset(from, to, step_size);
    let px: i64 = from.x as i64 + ox;
    let py: i64 = from.y as i64 + oy;
    if -0x8000_0000 <= px && px <= 0x7FFF_FFFF && -0x8000_0000 <= py && py <= 0x7FFF_FFFF {
        Some(Point { x: px as i32, y: py as i32 })
    } else {
        None
    }
}

/// Takes a step of length `step_size` from `from` towards `to`. The step
/// keeps its length even where `to` is nearer than that; where the two
/// points coincide it goes along the positive x axis. Each component of the
/// step is rounded down to a whole sub-unit: the point reached is never
/// farther than the step and less than two sub-units short of it, and from
/// `MIN_STEP` on it is within a thousandth of the step's length and of its
/// bearing. A step shorter than two sub-units may stay in place.
pub fn steer(from: &Point, to: &Point, step_size: u32) -> (p: Point)
    requires
        can_step(*from, *to, step_size as nat),
    ensures
        p == steered(*from, *to, step_size as nat),
        p.x == from.x + steer_offset(*from, *to, step_size as nat).0,
        p.y == from.y + steer_offset(*from, *to, step_size as nat).1,
        dist(*from, p) <= step_size,
        step_size >= 2 ==> step_size <= dist(*from, p) + 2,
        step_size >= MIN_STEP ==> a_step_away(*from, p, step_size as nat),
        step_size >= MIN_STEP && *from != *to ==> on_bearing(*from, *to, p),
        *from == *to ==> p.x == from.x + step_size && p.y == from.y,
{
    proof {
        lemma_steered_exact(*from, *to, step_size as nat);
    }
    let (ox, oy) = offset(from, to, step_size);
    Point { x: (from.x as i64 + ox) as i32, y: (from.y as i64 + oy) as i32 }
}

} // verus!
