use vstd::prelude::*;
use crate::trig::{
    cos_deg, cos_deg_exec, cos_quarter, cos_quarter_exec, lemma_cos_quarter_bounds, lemma_pythagoras, sin_deg,
    sin_deg_exec, TRIG_SCALE,
};

verus! {

/// The world spans `0..=X_SIZE` horizontally.
pub const X_SIZE: i64 = 1000;

/// The world spans `0..=Y_SIZE` vertically.
pub const Y_SIZE: i64 = 1000;

/// `v` pinned into `[lo, hi]`.
pub open spec fn clamp(v: int, lo: int, hi: int) -> int {
    if v > hi {
        hi
    } else if v < lo {
        lo
    } else {
        v
    }
}

/// An angle in degrees reduced into `[0, 360)`.
pub open spec fn wrap_degrees(a: int) -> int {
    a % 360
}

/// The bearing pointing the opposite way.
pub open spec fn reverse_bearing(d: int) -> int {
    wrap_degrees(d + 180)
}

/// `r` is the integer square root of `n`, rounded down.
pub open spec fn is_floor_sqrt(n: int, r: int) -> bool {
    0 <= r && r * r <= n < (r + 1) * (r + 1)
}

/// The integer square root of a non-negative `n`, rounded down.
pub open spec fn floor_sqrt(n: int) -> int {
    choose|r: int| is_floor_sqrt(n, r)
}

/// `r` units scaled by the fixed-point factor `c / TRIG_SCALE`, rounded to the
/// nearest integer (halves away from zero).
pub open spec fn scaled(r: int, c: int) -> int {
    if c >= 0 {
        (r * c + TRIG_SCALE / 2) / (TRIG_SCALE as int)
    } else {
        -((r * (-c) + TRIG_SCALE / 2) / (TRIG_SCALE as int))
    }
}

/// How far the vector `(adx, ady)`, both non-negative, reaches along the
/// table direction of `k` degrees (times `TRIG_SCALE`).
pub open spec fn projection(adx: int, ady: int, k: int) -> int {
    adx * cos_quarter(k) + ady * cos_quarter(90 - k)
}

/// `k` is the first of the whole-degree directions in `0..=90` that the vector
/// `(adx, ady)` reaches furthest along.
pub open spec fn is_base_angle(adx: int, ady: int, k: int) -> bool {
    &&& 0 <= k <= 90
    &&& forall|j: int| 0 <= j <= 90 ==> #[trigger] projection(adx, ady, j) <= projection(adx, ady, k)
    &&& forall|j: int| 0 <= j < k ==> #[trigger] projection(adx, ady, j) < projection(adx, ady, k)
}

/// The angle in `0..=90` degrees of the vector `(adx, ady)` against the x axis.
pub open spec fn base_angle(adx: int, ady: int) -> int {
    choose|k: int| is_base_angle(adx, ady, k)
}

pub open spec fn abs(v: int) -> int {
    if v < 0 {
        -v
    } else {
        v
    }
}

/// A point of the world plane.
#[derive(Clone, Copy, Debug, PartialEq, Eq, Structural)]
pub struct Coordinate {
    pub x: i64,
    pub y: i64,
}

impl Coordinate {
    /// The point lies inside the world.
    pub open spec fn in_bounds(self) -> bool {
        0 <= self.x <= X_SIZE && 0 <= self.y <= Y_SIZE
    }

    /// The point of the world nearest to `(x, y)`.
    pub open spec fn clamped(x: int, y: int) -> Coordinate {
        Coordinate { x: clamp(x, 0, X_SIZE as int) as i64, y: clamp(y, 0, Y_SIZE as int) as i64 }
    }

    /// Squared Euclidean distance.
    pub open spec fn dist_sq(self, other: Coordinate) -> int {
        (self.x - other.x) * (self.x - other.x) + (self.y - other.y) * (self.y - other.y)
    }

    /// Euclidean distance, rounded down.
    pub open spec fn distance(self, other: Coordinate) -> int {
        floor_sqrt(self.dist_sq(other))
    }

    /// `other` lies strictly closer than `range`.
    pub open spec fn within(self, other: Coordinate, range: int) -> bool {
        self.dist_sq(other) < range * range
    }

    /// Bearing in whole degrees from `self` towards `to`: 0 points along +x,
    /// 90 along +y. A point has bearing 0 towards itself.
    pub open spec fn bearing_to(self, to: Coordinate) -> int {
        let dx = to.x - self.x;
        let dy = to.y - self.y;
        let a = base_angle(abs(dx), abs(dy));
        if dx == 0 && dy == 0 {
            0
        } else if dx > 0 && dy >= 0 {
            a
        } else if dx <= 0 && dy > 0 {
            180 - a
        } else if dx < 0 && dy <= 0 {
            180 + a
        } else {
            wrap_degrees(360 - a)
        }
    }

    /// The point reached by going `dist` along bearing `dir`, stopped at the
    /// world's edges.
    pub open spec fn stepped(self, dir: int, dist: int) -> Coordinate {
        Coordinate::clamped(
            self.x + scaled(dist, cos_deg(dir)),
            self.y + scaled(dist, sin_deg(dir)),
        )
    }

    /// The point of the world nearest to `(x, y)`.
    pub fn new(x: i64, y: i64) -> (r: Coordinate)
        ensures
            r == Coordinate::clamped(x as int, y as int),
            r.in_bounds(),
    {
        let c = Coordinate { x, y };
        c.check_bounds(0, X_SIZE, 0, Y_SIZE)
    }

    /// A copy of `self` pinned into `[x_low, x_high] x [y_low, y_high]`.
    pub fn check_bounds(&self, x_low: i64, x_high: i64, y_low: i64, y_high: i64) -> (r: Coordinate)
        requires
            x_low <= x_high,
            y_low <= y_high,
        ensures
            r.x == clamp(self.x as int, x_low as int, x_high as int),
            r.y == clamp(self.y as int, y_low as int, y_high as int),
    {
        let mut c = *self;
        c.enforce_bounds(x_low, x_high, y_low, y_high);
        c
    }

    /// Pins `self` into `[x_low, x_high] x [y_low, y_high]`.
    pub fn enforce_bounds(&mut self, x_low: i64, x_high: i64, y_low: i64, y_high: i64)
        requires
            x_low <= x_high,
            y_low <= y_high,
        ensures
            final(self).x == clamp(old(self).x as int, x_low as int, x_high as int),
            final(self).y == clamp(old(self).y as int, y_low as int, y_high as int),
    {
        self.x = clamp_exec(self.x as i128, x_low, x_high);
        self.y = clamp_exec(self.y as i128, y_low, y_high);
    }

    /// Squared Euclidean distance.
    pub fn dist_sq_exec(&self, coor: &Coordinate) -> (r: u64)
        requires
            self.in_bounds(),
            coor.in_bounds(),
        ensures
            r == self.dist_sq(*coor),
            r <= 2 * X_SIZE * X_SIZE,
    {
        let dx = self.x - coor.x;
        let dy = self.y - coor.y;
        proof {
            lemma_square_bound(dx as int, X_SIZE as int);
            lemma_square_bound(dy as int, Y_SIZE as int);
        }
        (dx * dx + dy * dy) as u64
    }

    /// Euclidean distance, rounded down.
    pub fn dist(&self, coor: &Coordinate) -> (r: u64)
        requires
            self.in_bounds(),
            coor.in_bounds(),
        ensures
            r == self.distance(*coor),
            is_floor_sqrt(self.dist_sq(*coor), r as int),
    {
        let n = self.dist_sq_exec(coor);
        let r = floor_sqrt_exec(n);
        proof {
            lemma_floor_sqrt_is(n as int, r as int);
        }
        r
    }

    /// Bearing from `self` towards `coor`, in `0..360`.
    pub fn direction(&self, coor: &Coordinate) -> (r: u32)
        requires
            self.in_bounds(),
            coor.in_bounds(),
        ensures
            r == self.bearing_to(*coor),
            r < 360,
    {
        let dx = coor.x - self.x;
        let dy = coor.y - self.y;
        if dx == 0 && dy == 0 {
            return 0;
        }
        let adx = if dx < 0 { -dx } else { dx };
        let ady = if dy < 0 { -dy } else { dy };
        let a = base_angle_exec(adx, ady);
        if dx > 0 && dy >= 0 {
            a
        } else if dx <= 0 && dy > 0 {
            180 - a
        } else if dx < 0 && dy <= 0 {
            180 + a
        } else {
            (360 - a) % 360
        }
    }

    /// The point reached by going `dist` along bearing `dir`, stopped at the
    /// world's edges.
    pub fn traverse_direction(&self, dir: u32, dist: u64) -> (r: Coordinate)
        requires
            dir < 360,
        ensures
            r == self.stepped(dir as int, dist as int),
            r.in_bounds(),
    {
        let dx = scaled_exec(dist, cos_deg_exec(dir));
        let dy = scaled_exec(dist, sin_deg_exec(dir));
        Coordinate {
            x: clamp_exec(self.x as i128 + dx, 0, X_SIZE),
            y: clamp_exec(self.y as i128 + dy, 0, Y_SIZE),
        }
    }
}

/// The bearing reduced into `0..360`, after `noise` degrees are added.
pub fn wrap_with_noise(dir: u32, noise: i32) -> (r: u32)
    ensures
        r == wrap_degrees(dir + noise),
        r < 360,
{
    let s: i64 = dir as i64 + noise as i64 + 2_160_000_000i64;
    let m = (s as u64) % 360;
    proof {
        assert(2_160_000_000int == 360 * 6_000_000);
        vstd::arithmetic::div_mod::lemma_mod_multiples_vanish(
            6_000_000,
            dir + noise,
            360,
        );
    }
    m as u32
}

/// The bearing pointing the opposite way.
pub fn reverse_direction(dir: u32) -> (r: u32)
    requires
        dir < 360,
    ensures
        r == reverse_bearing(dir as int),
        r < 360,
{
    (dir + 180) % 360
}

fn clamp_exec(v: i128, lo: i64, hi: i64) -> (r: i64)
    requires
        lo <= hi,
    ensures
        r == clamp(v as int, lo as int, hi as int),
{
    if v > hi as i128 {
        hi
    } else if v < lo as i128 {
        lo
    } else {
        v as i64
    }
}

fn scaled_exec(r: u64, c: i64) -> (s: i128)
    requires
        -TRIG_SCALE <= c <= TRIG_SCALE,
    ensures
        s == scaled(r as int, c as int),
        -(r as int) <= s <= r as int,
{
    let m: u128 = if c >= 0 { c as u128 } else { (-c) as u128 };
    proof {
        lemma_mul_upper(r as int, m as int, 0x1_0000_0000_0000_0000, TRIG_SCALE as int);
    }
    let q: u128 = (r as u128 * m + 5000) / 10000;
    proof {
        assert(q <= r) by (nonlinear_arith)
            requires
                q == (r * m + 5000) / 10000,
                m <= 10000,
                r >= 0,
        ;
    }
    if c >= 0 {
        q as i128
    } else {
        -(q as i128)
    }
}

proof fn lemma_mul_upper(a: int, b: int, amax: int, bmax: int)
    requires
        0 <= a <= amax,
        0 <= b <= bmax,
    ensures
        0 <= a * b <= amax * bmax,
{
    assert(0 <= a * b <= amax * bmax) by (nonlinear_arith)
        requires
            0 <= a <= amax,
            0 <= b <= bmax,
    ;
}

proof fn lemma_square_bound(d: int, m: int)
    requires
        -m <= d <= m,
    ensures
        0 <= d * d <= m * m,
{
    assert(0 <= d * d <= m * m) by (nonlinear_arith)
        requires
            -m <= d <= m,
    ;
}

/// An integer square root is unique.
pub proof fn lemma_floor_sqrt_unique(n: int, r1: int, r2: int)
    requires
        is_floor_sqrt(n, r1),
        is_floor_sqrt(n, r2),
    ensures
        r1 == r2,
{
    if r1 < r2 {
        assert((r1 + 1) * (r1 + 1) <= r2 * r2) by (nonlinear_arith)
            requires
                0 <= r1 < r2,
        ;
    } else if r2 < r1 {
        assert((r2 + 1) * (r2 + 1) <= r1 * r1) by (nonlinear_arith)
            requires
                0 <= r2 < r1,
        ;
    }
}

proof fn lemma_floor_sqrt_is(n: int, r: int)
    requires
        is_floor_sqrt(n, r),
    ensures
        floor_sqrt(n) == r,
{
    lemma_floor_sqrt_unique(n, r, floor_sqrt(n));
}

fn floor_sqrt_exec(n: u64) -> (r: u64)
    requires
        n <= 2 * X_SIZE * X_SIZE,
    ensures
        is_floor_sqrt(n as int, r as int),
{
    let mut lo: u64 = 0;
    let mut hi: u64 = 2000;
    while hi - lo > 1
        invariant
            lo < hi <= 2000,
            lo * lo <= n,
            n < hi * hi,
        decreases hi - lo,
    {
        let mid = lo + (hi - lo) / 2;
        proof {
            lemma_mul_upper(mid as int, mid as int, 2000, 2000);
        }
        if mid * mid <= n {
            lo = mid;
        } else {
            hi = mid;
        }
    }
    lo
}

proof fn lemma_base_angle_unique(adx: int, ady: int, k1: int, k2: int)
    requires
        is_base_angle(adx, ady, k1),
        is_base_angle(adx, ady, k2),
    ensures
        k1 == k2,
{
    if k1 < k2 {
        assert(projection(adx, ady, k1) < projection(adx, ady, k2));
        assert(projection(adx, ady, k2) <= projection(adx, ady, k1));
    } else if k2 < k1 {
        assert(projection(adx, ady, k2) < projection(adx, ady, k1));
        assert(projection(adx, ady, k1) <= projection(adx, ady, k2));
    }
}

fn projection_exec(adx: i64, ady: i64, k: u32) -> (p: i64)
    requires
        0 <= adx <= X_SIZE,
        0 <= ady <= Y_SIZE,
        k <= 90,
    ensures
        p == projection(adx as int, ady as int, k as int),
{
    let c = cos_quarter_exec(k);
    let s = cos_quarter_exec(90 - k);
    proof {
        lemma_cos_quarter_bounds(k as int);
        lemma_cos_quarter_bounds(90 - k);
        lemma_mul_upper(adx as int, c as int, X_SIZE as int, TRIG_SCALE as int);
        lemma_mul_upper(ady as int, s as int, Y_SIZE as int, TRIG_SCALE as int);
    }
    adx * c + ady * s
}

fn base_angle_exec(adx: i64, ady: i64) -> (k: u32)
    requires
        0 <= adx <= X_SIZE,
        0 <= ady <= Y_SIZE,
    ensures
        k == base_angle(adx as int, ady as int),
        k <= 90,
{
    let mut best: u32 = 0;
    let mut best_p = projection_exec(adx, ady, 0);
    let mut k: u32 = 1;
    while k <= 90
        invariant
            1 <= k <= 91,
            best < k,
            best_p == projection(adx as int, ady as int, best as int),
            forall|j: int|
                0 <= j < k ==> #[trigger] projection(adx as int, ady as int, j) <= best_p,
            forall|j: int|
                0 <= j < best ==> #[trigger] projection(adx as int, ady as int, j) < best_p,
            0 <= adx <= X_SIZE,
            0 <= ady <= Y_SIZE,
        decreases 91 - k,
    {
        let p = projection_exec(adx, ady, k);
        if p > best_p {
            best = k;
            best_p = p;
        }
        k = k + 1;
    }
    proof {
        assert(is_base_angle(adx as int, ady as int, best as int));
        lemma_base_angle_unique(
            adx as int,
            ady as int,
            best as int,
            base_angle(adx as int, ady as int),
        );
    }
    best
}


/// Over the directions `0..=n`, some first furthest-reaching one exists.
proof fn lemma_prefix_best(adx: int, ady: int, n: int) -> (k: int)
    requires
        0 <= n <= 90,
    ensures
        0 <= k <= n,
        forall|j: int| 0 <= j <= n ==> #[trigger] projection(adx, ady, j) <= projection(adx, ady, k),
        forall|j: int| 0 <= j < k ==> #[trigger] projection(adx, ady, j) < projection(adx, ady, k),
    decreases n,
{
    if n == 0 {
        0
    } else {
        let k = lemma_prefix_best(adx, ady, n - 1);
        if projection(adx, ady, n) > projection(adx, ady, k) {
            n
        } else {
            k
        }
    }
}

/// Every vector has its base angle, in `0..=90`.
pub proof fn lemma_base_angle_exists(adx: int, ady: int)
    ensures
        is_base_angle(adx, ady, base_angle(adx, ady)),
        0 <= base_angle(adx, ady) <= 90,
{
    let k = lemma_prefix_best(adx, ady, 90);
    assert(is_base_angle(adx, ady, k));
}

/// Distance is symmetric.
pub proof fn lemma_distance_symmetric(a: Coordinate, b: Coordinate)
    ensures
        a.dist_sq(b) == b.dist_sq(a),
        a.distance(b) == b.distance(a),
{
    let dx = a.x - b.x;
    let dy = a.y - b.y;
    assert(dx * dx == (-dx) * (-dx)) by (nonlinear_arith);
    assert(dy * dy == (-dy) * (-dy)) by (nonlinear_arith);
}

/// A bearing always lies in `[0, 360)`.
pub proof fn lemma_bearing_range(a: Coordinate, b: Coordinate)
    ensures
        0 <= a.bearing_to(b) < 360,
{
    lemma_base_angle_exists(abs(b.x - a.x), abs(b.y - a.y));
}

/// Between two distinct points, the bearings either way differ by exactly
/// 180 degrees.
pub proof fn lemma_bearing_opposite(a: Coordinate, b: Coordinate)
    requires
        a != b,
    ensures
        b.bearing_to(a) == wrap_degrees(a.bearing_to(b) + 180),
        a.bearing_to(b) == wrap_degrees(b.bearing_to(a) + 180),
{
    lemma_base_angle_exists(abs(b.x - a.x), abs(b.y - a.y));
    assert(abs(a.x - b.x) == abs(b.x - a.x));
    assert(abs(a.y - b.y) == abs(b.y - a.y));
}

proof fn lemma_square_expand(v: int, r: int, c: int, e: int)
    requires
        e == 10000 * v - r * c,
    ensures
        100000000 * (v * v) == r * r * (c * c) + 2 * r * (c * e) + e * e,
{
    assert((10000 * v) * (10000 * v) == 100000000 * (v * v)) by (nonlinear_arith);
    assert((r * c + e) * (r * c + e) == (r * c) * (r * c) + 2 * (r * c) * e + e * e) by (
    nonlinear_arith);
    assert((r * c) * (r * c) == r * r * (c * c)) by (nonlinear_arith);
    assert(2 * (r * c) * e == 2 * r * (c * e)) by (nonlinear_arith);
}

/// `scaled` is off the exact product by at most half a unit.
proof fn lemma_scaled_error(r: int, c: int)
    requires
        r >= 0,
    ensures
        -5000 <= TRIG_SCALE * scaled(r, c) - r * c <= 5000,
{
    if c >= 0 {
        let x = r * c + 5000;
        assert(x >= 0) by (nonlinear_arith)
            requires
                r >= 0,
                c >= 0,
                x == r * c + 5000,
        ;
        let q = x / 10000;
        assert(10000 * q <= x < 10000 * q + 10000) by (nonlinear_arith)
            requires
                x >= 0,
                q == x / 10000,
        ;
    } else {
        let x = r * (-c) + 5000;
        assert(x >= 0) by (nonlinear_arith)
            requires
                r >= 0,
                c < 0,
                x == r * (-c) + 5000,
        ;
        let q = x / 10000;
        assert(10000 * q <= x < 10000 * q + 10000) by (nonlinear_arith)
            requires
                x >= 0,
                q == x / 10000,
        ;
        assert(r * (-c) == -(r * c)) by (nonlinear_arith);
    }
}

/// A step of length `r` that no wall stops has a squared length within
/// `(12000 * r^2 + 141420000 * r + 50000000) / 10^8` of `r^2`: its length is
/// `r` up to the rounding of the table and of the grid.
pub proof fn lemma_step_length(p: Coordinate, d: int, r: int)
    requires
        p.in_bounds(),
        0 <= d < 360,
        r >= 0,
        0 <= p.x + scaled(r, cos_deg(d)) <= X_SIZE,
        0 <= p.y + scaled(r, sin_deg(d)) <= Y_SIZE,
    ensures
        -(12000 * r * r + 141420000 * r + 50000000) <= 100000000 * (p.dist_sq(p.stepped(d, r))
            - r * r) <= 12000 * r * r + 141420000 * r + 50000000,
{
    let c = cos_deg(d);
    let s = sin_deg(d);
    let dx = scaled(r, c);
    let dy = scaled(r, s);
    let q = p.stepped(d, r);
    assert(q.x == p.x + dx && q.y == p.y + dy);
    lemma_pythagoras(d);
    lemma_scaled_error(r, c);
    lemma_scaled_error(r, s);
    let e1 = 10000 * dx - r * c;
    let e2 = 10000 * dy - r * s;
    let n = p.dist_sq(q);
    assert(n == dx * dx + dy * dy) by (nonlinear_arith)
        requires
            n == (p.x - q.x) * (p.x - q.x) + (p.y - q.y) * (p.y - q.y),
            q.x == p.x + dx,
            q.y == p.y + dy,
    ;
    lemma_square_expand(dx, r, c, e1);
    lemma_square_expand(dy, r, s, e2);
    assert(100000000 * (n - r * r) == r * r * (c * c + s * s - 100000000) + 2 * r * (c * e1 + s
        * e2) + e1 * e1 + e2 * e2) by (nonlinear_arith)
        requires
            n == dx * dx + dy * dy,
            100000000 * (dx * dx) == r * r * (c * c) + 2 * r * (c * e1) + e1 * e1,
            100000000 * (dy * dy) == r * r * (s * s) + 2 * r * (s * e2) + e2 * e2,
    ;
    let t = c * c + s * s - 100000000;
    assert(-12000 * (r * r) <= r * r * t <= 12000 * (r * r)) by (nonlinear_arith)
        requires
            -12000 <= t <= 12000,
    ;
    // |c * e1 + s * e2| <= 5000 * (|c| + |s|) <= 5000 * 14142
    assert(-70710000 <= c * e1 + s * e2 <= 70710000) by (nonlinear_arith)
        requires
            -5000 <= e1 <= 5000,
            -5000 <= e2 <= 5000,
            -14142 <= c + s <= 14142,
            -14142 <= c - s <= 14142,
    ;
    let m = c * e1 + s * e2;
    assert(-141420000 * r <= 2 * r * m <= 141420000 * r) by (nonlinear_arith)
        requires
            -70710000 <= m <= 70710000,
            r >= 0,
    ;
    assert(0 <= e1 * e1 + e2 * e2 <= 50000000) by (nonlinear_arith)
        requires
            -5000 <= e1 <= 5000,
            -5000 <= e2 <= 5000,
    ;
    let x = 100000000 * (n - r * r);
    assert(-(12000 * r * r + 141420000 * r + 50000000) <= x <= 12000 * r * r + 141420000 * r
        + 50000000) by (nonlinear_arith)
        requires
            x == r * r * t + 2 * r * m + e1 * e1 + e2 * e2,
            -12000 * (r * r) <= r * r * t <= 12000 * (r * r),
            -141420000 * r <= 2 * r * m <= 141420000 * r,
            0 <= e1 * e1 + e2 * e2 <= 50000000,
    ;
}

/// A step of length zero stays in place.
pub proof fn lemma_step_zero(p: Coordinate, d: int)
    requires
        p.in_bounds(),
    ensures
        p.stepped(d, 0) == p,
{
    assert(scaled(0, cos_deg(d)) == 0);
    assert(scaled(0, sin_deg(d)) == 0);
}

} // verus!
