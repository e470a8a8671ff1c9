//! Great-circle (haversine) distance between fixed-point coordinates.
//!
//! Coordinates are integers in units of 10^-7 degree. The computation runs
//! entirely in fixed point: angles and trigonometric values are integers
//! scaled by `SCALE` (2^30), sine and arc tangent are evaluated as truncated
//! Taylor series, and square roots are exact floor square roots.
use vstd::prelude::*;

verus! {

/// The fixed-point unit: 1.0 is represented by `SCALE`.
pub const SCALE: u128 = 1073741824;

/// pi, scaled by `SCALE`.
pub const PI_FX: u128 = 3373259426;

/// pi / 2, scaled by `SCALE`.
pub const HALF_PI_FX: u128 = 1686629713;

/// 2 pi, scaled by `SCALE`.
pub const TWO_PI_FX: u128 = 6746518852;

/// 180 degrees in coordinate units.
pub const HALF_TURN: u128 = 1800000000;

/// The mean earth radius in meters.
pub const EARTH_RADIUS: u128 = 6371000;

/// The number of series terms used for sine and arc tangent.
pub const TERMS: u32 = 13;

pub open spec fn clamp(v: int, hi: int) -> int {
    if v < 0 {
        0
    } else if v > hi {
        hi
    } else {
        v
    }
}

/// An angle of `d` coordinate units, in radians scaled by `SCALE`.
pub open spec fn angle_of(d: int) -> int {
    d * (PI_FX as int) / (HALF_TURN as int)
}

/// `x` reduced into `[0, pi]` so that `|sin|` and `cos` keep their values.
pub open spec fn fold_of(x: int) -> int {
    let r = x % (TWO_PI_FX as int);
    if r > PI_FX as int {
        TWO_PI_FX as int - r
    } else {
        r
    }
}

/// The `k`-th term `x^(2k+1) / (2k+1)!` of the sine series, in fixed point,
/// where `y` is `x^2` in fixed point.
pub open spec fn sin_term(x: int, y: int, k: nat) -> int
    decreases k,
{
    if k == 0 {
        x
    } else {
        sin_term(x, y, (k - 1) as nat) * y / ((SCALE as int) * ((2 * k) * (2 * k + 1)))
    }
}

/// The alternating sum of the first `n` sine terms.
pub open spec fn sin_series(x: int, y: int, n: nat) -> int
    decreases n,
{
    if n == 0 {
        0
    } else if (n - 1) % 2 == 0 {
        sin_series(x, y, (n - 1) as nat) + sin_term(x, y, (n - 1) as nat)
    } else {
        sin_series(x, y, (n - 1) as nat) - sin_term(x, y, (n - 1) as nat)
    }
}

/// The sine of `x` in `[0, pi]`, in fixed point, kept within `[0, 1]`.
pub open spec fn sin_fx(x: int) -> int {
    clamp(sin_series(x, x * x / (SCALE as int), TERMS as nat), SCALE as int)
}

/// The cosine of `x`, as a sign (`true` for negative) and a magnitude.
pub open spec fn cos_fx(x: int) -> (bool, int) {
    let f = fold_of(x);
    if f <= HALF_PI_FX as int {
        (false, sin_fx(HALF_PI_FX as int - f))
    } else {
        (true, sin_fx(f - HALF_PI_FX as int))
    }
}

pub open spec fn is_floor_sqrt(n: int, r: int) -> bool {
    0 <= r && r * r <= n < (r + 1) * (r + 1)
}

/// The floor square root of `n`.
pub open spec fn floor_sqrt(n: int) -> int {
    choose|r: int| is_floor_sqrt(n, r)
}

/// The `k`-th term `z^(2k+1)` of the arc tangent series before division by
/// `2k+1`, in fixed point, where `w` is `z^2` in fixed point.
pub open spec fn atan_power(z: int, w: int, k: nat) -> int
    decreases k,
{
    if k == 0 {
        z
    } else {
        atan_power(z, w, (k - 1) as nat) * w / (SCALE as int)
    }
}

pub open spec fn atan_series(z: int, w: int, n: nat) -> int
    decreases n,
{
    if n == 0 {
        0
    } else if (n - 1) % 2 == 0 {
        atan_series(z, w, (n - 1) as nat) + atan_power(z, w, (n - 1) as nat) / (2 * (n - 1) + 1)
    } else {
        atan_series(z, w, (n - 1) as nat) - atan_power(z, w, (n - 1) as nat) / (2 * (n - 1) + 1)
    }
}

/// `z / (1 + sqrt(1 + z^2))`: the argument whose arc tangent is half that of `z`.
pub open spec fn halve_of(z: int) -> int {
    z * (SCALE as int) / ((SCALE as int) + floor_sqrt((SCALE as int) * (SCALE as int) + z * z))
}

/// The arc tangent of `z` in `[0, 1]`, in fixed point.
pub open spec fn atan_unit(z: int) -> int {
    let h = halve_of(z);
    2 * clamp(atan_series(h, h * h / (SCALE as int), TERMS as nat), SCALE as int)
}

/// The angle of the point `(p, q)` with both coordinates non-negative, within
/// `[0, pi/2]`.
pub open spec fn atan2_fx(q: int, p: int) -> int {
    if p == 0 {
        HALF_PI_FX as int
    } else if q <= p {
        clamp(atan_unit(q * (SCALE as int) / p), HALF_PI_FX as int)
    } else {
        clamp(HALF_PI_FX as int - atan_unit(p * (SCALE as int) / q), HALF_PI_FX as int)
    }
}

pub open spec fn abs_diff(a: int, b: int) -> int {
    if a >= b {
        a - b
    } else {
        b - a
    }
}

pub open spec fn abs(a: int) -> int {
    if a >= 0 {
        a
    } else {
        -a
    }
}

/// The haversine term `sin^2(dlat/2) + cos(lat1) cos(lat2) sin^2(dlon/2)`,
/// scaled by `SCALE^2`, kept within `[0, 1]`.
pub open spec fn haversine_term(lat1: int, lon1: int, lat2: int, lon2: int) -> int {
    let s1 = sin_fx(fold_of(angle_of(abs_diff(lat1, lat2)) / 2));
    let s2 = sin_fx(fold_of(angle_of(abs_diff(lon1, lon2)) / 2));
    let c1 = cos_fx(angle_of(abs(lat1)));
    let c2 = cos_fx(angle_of(abs(lat2)));
    let cc = c1.1 * c2.1 / (SCALE as int);
    let m = cc * (s2 * s2) / (SCALE as int);
    let first = s1 * s1;
    if c1.0 == c2.0 {
        clamp(first + m, (SCALE as int) * (SCALE as int))
    } else {
        clamp(first - m, (SCALE as int) * (SCALE as int))
    }
}

/// The great-circle distance in meters between two points.
#[verifier::opaque]
pub open spec fn haversine(lat1: int, lon1: int, lat2: int, lon2: int) -> int {
    let a = haversine_term(lat1, lon1, lat2, lon2);
    let q = floor_sqrt(a);
    let p = floor_sqrt((SCALE as int) * (SCALE as int) - a);
    (EARTH_RADIUS as int) * 2 * atan2_fx(q, p) / (SCALE as int)
}

/// A distance lies between zero and half the earth's circumference.
pub proof fn lemma_haversine_bounds(lat1: int, lon1: int, lat2: int, lon2: int)
    ensures
        0 <= haversine(lat1, lon1, lat2, lon2) <= 20_015_087,
{
    reveal(haversine);
    let a = haversine_term(lat1, lon1, lat2, lon2);
    let t = atan2_fx(floor_sqrt(a), floor_sqrt((SCALE as int) * (SCALE as int) - a));
    assert(0 <= t <= HALF_PI_FX);
    assert(0 <= (EARTH_RADIUS as int) * 2 * t / (SCALE as int) <= 20_015_087) by (nonlinear_arith)
        requires
            0 <= t <= HALF_PI_FX,
    ;
}

proof fn lemma_floor_sqrt_unique(n: int, r: int)
    requires
        is_floor_sqrt(n, r),
    ensures
        floor_sqrt(n) == r,
{
    let s = floor_sqrt(n);
    assert(is_floor_sqrt(n, s));
    if s < r {
        assert((s + 1) * (s + 1) <= r * r) by (nonlinear_arith)
            requires
                0 <= s < r,
        ;
    } else if s > r {
        assert((r + 1) * (r + 1) <= s * s) by (nonlinear_arith)
            requires
                0 <= r < s,
        ;
    }
}

/// The floor square root of `n`, by bisection.
fn isqrt(n: u128) -> (r: u128)
    requires
        n < 0x1_0000_0000_0000_0000,
    ensures
        r == floor_sqrt(n as int),
        is_floor_sqrt(n as int, r as int),
        r <= 0x1_0000_0000,
{
    let mut lo: u128 = 0;
    let mut hi: u128 = 0x1_0000_0000;
    assert(hi * hi > n) by (nonlinear_arith)
        requires
            hi == 0x1_0000_0000,
            n < 0x1_0000_0000_0000_0000,
    ;
    while hi - lo > 1
        invariant
            lo < hi <= 0x1_0000_0000,
            lo * lo <= n,
            n < hi * hi,
        decreases hi - lo,
    {
        let mid = lo + (hi - lo) / 2;
        assert(mid * mid <= 0x1_0000_0000 * 0x1_0000_0000) by (nonlinear_arith)
            requires
                mid <= 0x1_0000_0000,
        ;
        if mid * mid <= n {
            lo = mid;
        } else {
            hi = mid;
        }
    }
    proof {
        lemma_floor_sqrt_unique(n as int, lo as int);
    }
    lo
}

/// The sine of `x` in `[0, pi]`, in fixed point.
fn sin_of(x: u128) -> (r: u128)
    requires
        x <= PI_FX,
    ensures
        r == sin_fx(x as int),
        r <= SCALE,
{
    assert(x * x <= PI_FX * PI_FX) by (nonlinear_arith)
        requires
            x <= PI_FX,
    ;
    let y = x * x / SCALE;
    assert(y <= 10 * SCALE) by (nonlinear_arith)
        requires
            y == x * x / (SCALE as int),
            x * x <= PI_FX * PI_FX,
    ;
    let mut t: u128 = x;
    let mut acc: i128 = 0;
    let mut k: u32 = 0;
    while k < TERMS
        invariant
            y == x * x / (SCALE as int),
            y <= 10 * SCALE,
            x <= PI_FX,
            k <= TERMS,
            t == sin_term(x as int, y as int, k as nat),
            t <= 0x2_0000_0000,
            k >= 1 ==> t <= 0x1_8000_0000,
            acc == sin_series(x as int, y as int, k as nat),
            -0x20_0000_0000 <= acc <= 0x20_0000_0000,
            -0x2_0000_0000 * (k as int) <= acc <= 0x2_0000_0000 * (k as int),
        decreases TERMS - k,
    {
        if k % 2 == 0 {
            acc = acc + t as i128;
        } else {
            acc = acc - t as i128;
        }
        let kk: u128 = k as u128;
        assert((2 * kk + 2) * (2 * kk + 3) <= 26 * 27) by (nonlinear_arith)
            requires
                kk < 13,
        ;
        assert((2 * kk + 2) * (2 * kk + 3) >= 6) by (nonlinear_arith)
            requires
                kk >= 0,
        ;
        assert(kk >= 1 ==> (2 * kk + 2) * (2 * kk + 3) >= 20) by (nonlinear_arith);
        let c: u128 = (2 * kk + 2) * (2 * kk + 3);
        assert(t * y <= 0x2_0000_0000 * (10 * SCALE)) by (nonlinear_arith)
            requires
                t <= 0x2_0000_0000,
                y <= 10 * SCALE,
        ;
        let next = t * y / (SCALE * c);
        proof {
            let kk = (k + 1) as nat;
            assert(c == (2 * kk) * (2 * kk + 1));
            if k == 0 {
                assert(next <= 0x1_8000_0000) by (nonlinear_arith)
                    requires
                        next == t * y / (SCALE * c),
                        t <= PI_FX,
                        y <= 10 * SCALE,
                        c == 6,
                ;
            } else {
                assert(next <= t) by (nonlinear_arith)
                    requires
                        next == t * y / (SCALE * c),
                        y <= 10 * SCALE,
                        c >= 20,
                ;
            }
        }
        t = next;
        k = k + 1;
    }
    if acc < 0 {
        0
    } else if acc > SCALE as i128 {
        SCALE
    } else {
        acc as u128
    }
}

/// An angle of `d` coordinate units, in fixed-point radians.
fn angle(d: u64) -> (r: u128)
    ensures
        r == angle_of(d as int),
{
    assert(d * PI_FX <= 0xffff_ffff_ffff_ffff * PI_FX) by (nonlinear_arith)
        requires
            d <= 0xffff_ffff_ffff_ffff,
    ;
    (d as u128) * PI_FX / HALF_TURN
}

/// Reduces `x` into `[0, pi]` keeping `|sin|` and `cos`.
fn fold(x: u128) -> (r: u128)
    ensures
        r == fold_of(x as int),
        r <= PI_FX,
{
    let r = x % TWO_PI_FX;
    if r > PI_FX {
        TWO_PI_FX - r
    } else {
        r
    }
}

fn cos_of(x: u128) -> (r: (bool, u128))
    ensures
        r.0 == cos_fx(x as int).0,
        r.1 == cos_fx(x as int).1,
        r.1 <= SCALE,
{
    let f = fold(x);
    if f <= HALF_PI_FX {
        (false, sin_of(HALF_PI_FX - f))
    } else {
        (true, sin_of(f - HALF_PI_FX))
    }
}

/// The arc tangent series at `z <= 1/2`, in fixed point.
fn atan_small(z: u128) -> (r: u128)
    requires
        z <= SCALE / 2,
    ensures
        r == clamp(atan_series(z as int, z * z / (SCALE as int), TERMS as nat), SCALE as int),
{
    assert(z * z <= 536870912 * 536870912) by (nonlinear_arith)
        requires
            z <= 536870912,
    ;
    let w = z * z / SCALE;
    assert(w <= SCALE / 4) by (nonlinear_arith)
        requires
            w == z * z / (SCALE as int),
            z * z <= 536870912 * 536870912,
    ;
    let mut p: u128 = z;
    let mut acc: i128 = 0;
    let mut k: u32 = 0;
    while k < TERMS
        invariant
            w == z * z / (SCALE as int),
            w <= SCALE / 4,
            z <= SCALE / 2,
            k <= TERMS,
            p == atan_power(z as int, w as int, k as nat),
            p <= z,
            acc == atan_series(z as int, w as int, k as nat),
            -1073741824 * (k as int) <= acc <= 1073741824 * (k as int),
        decreases TERMS - k,
    {
        let u = p / (2 * (k as u128) + 1);
        assert(u <= p) by (nonlinear_arith)
            requires
                u == (p as int) / (2 * (k as int) + 1),
        ;
        assert(u <= SCALE);
        if k % 2 == 0 {
            acc = acc + u as i128;
        } else {
            acc = acc - u as i128;
        }
        assert(p * w <= p * SCALE) by (nonlinear_arith)
            requires
                w <= SCALE / 4,
        ;
        let next = p * w / SCALE;
        assert(next <= p) by (nonlinear_arith)
            requires
                next == p * w / (SCALE as int),
                w <= SCALE / 4,
        ;
        p = next;
        k = k + 1;
    }
    if acc < 0 {
        0
    } else if acc > SCALE as i128 {
        SCALE
    } else {
        acc as u128
    }
}

/// The arc tangent of `z` in `[0, 1]`, halving the argument once so that the
/// series converges quickly.
fn atan_of_unit(z: u128) -> (r: u128)
    requires
        z <= SCALE,
    ensures
        r == atan_unit(z as int),
        r <= 2 * SCALE,
{
    assert(z * z <= SCALE * SCALE) by (nonlinear_arith)
        requires
            z <= SCALE,
    ;
    let root = isqrt(SCALE * SCALE + z * z);
    proof {
        let n = SCALE * SCALE + z * z;
        if root < SCALE {
            assert(root + 1 <= SCALE);
            assert((root + 1) * (root + 1) <= SCALE * SCALE) by (nonlinear_arith)
                requires
                    root + 1 <= SCALE,
            ;
        }
    }
    let h = z * SCALE / (SCALE + root);
    assert(h <= SCALE / 2) by (nonlinear_arith)
        requires
            h == z * SCALE / (SCALE + root),
            z <= SCALE,
            root >= SCALE,
    ;
    2 * atan_small(h)
}

/// The angle of `(p, q)`, both non-negative, within `[0, pi/2]`.
fn atan2_of(q: u128, p: u128) -> (r: u128)
    requires
        q <= 0x1_0000_0000,
        p <= 0x1_0000_0000,
    ensures
        r == atan2_fx(q as int, p as int),
        r <= HALF_PI_FX,
{
    if p == 0 {
        HALF_PI_FX
    } else if q <= p {
        let z = q * SCALE / p;
        assert(z <= SCALE) by (nonlinear_arith)
            requires
                z == q * SCALE / (p as int),
                q <= p,
                p > 0,
        ;
        let t = atan_of_unit(z);
        if t > HALF_PI_FX {
            HALF_PI_FX
        } else {
            t
        }
    } else {
        let z = p * SCALE / q;
        assert(z <= SCALE) by (nonlinear_arith)
            requires
                z == p * SCALE / (q as int),
                p < q,
        ;
        let t = atan_of_unit(z);
        if t > HALF_PI_FX {
            0
        } else {
            HALF_PI_FX - t
        }
    }
}

fn abs_diff_of(a: i32, b: i32) -> (r: u64)
    ensures
        r == abs_diff(a as int, b as int),
{
    if a >= b {
        (a as i64 - b as i64) as u64
    } else {
        (b as i64 - a as i64) as u64
    }
}

fn abs_of(a: i32) -> (r: u64)
    ensures
        r == abs(a as int),
{
    if a >= 0 {
        a as u64
    } else {
        (-(a as i64)) as u64
    }
}

/// The haversine term of two points, scaled by `SCALE^2`.
fn haversine_term_of(lat1: i32, lon1: i32, lat2: i32, lon2: i32) -> (r: u128)
    ensures
        r == haversine_term(lat1 as int, lon1 as int, lat2 as int, lon2 as int),
        r <= SCALE * SCALE,
{
    let s1 = sin_of(fold(angle(abs_diff_of(lat1, lat2)) / 2));
    let s2 = sin_of(fold(angle(abs_diff_of(lon1, lon2)) / 2));
    let c1 = cos_of(angle(abs_of(lat1)));
    let c2 = cos_of(angle(abs_of(lat2)));
    assert(c1.1 * c2.1 <= SCALE * SCALE) by (nonlinear_arith)
        requires
            c1.1 <= SCALE,
            c2.1 <= SCALE,
    ;
    let cc = c1.1 * c2.1 / SCALE;
    assert(cc <= SCALE) by (nonlinear_arith)
        requires
            cc == c1.1 * c2.1 / (SCALE as int),
            c1.1 * c2.1 <= SCALE * SCALE,
    ;
    assert(s2 * s2 <= SCALE * SCALE) by (nonlinear_arith)
        requires
            s2 <= SCALE,
    ;
    let ss = s2 * s2;
    assert(cc * ss <= SCALE * (SCALE * SCALE)) by (nonlinear_arith)
        requires
            cc <= SCALE,
            ss <= SCALE * SCALE,
    ;
    let m = cc * ss / SCALE;
    assert(m <= SCALE * SCALE) by (nonlinear_arith)
        requires
            m == cc * ss / (SCALE as int),
            cc * ss <= SCALE * (SCALE * SCALE),
    ;
    assert(s1 * s1 <= SCALE * SCALE) by (nonlinear_arith)
        requires
            s1 <= SCALE,
    ;
    let first = s1 * s1;
    let v: i128 = if c1.0 == c2.0 {
        first as i128 + m as i128
    } else {
        first as i128 - m as i128
    };
    if v < 0 {
        0
    } else if v > (SCALE * SCALE) as i128 {
        SCALE * SCALE
    } else {
        v as u128
    }
}

/// The great-circle distance in meters between two points given in units of
/// 10^-7 degree, by the haversine formula on a sphere of the earth's mean
/// radius.
pub fn distance(lat1: i32, lon1: i32, lat2: i32, lon2: i32) -> (r: i32)
    ensures
        r == haversine(lat1 as int, lon1 as int, lat2 as int, lon2 as int),
        0 <= r <= 20_015_087,
{
    reveal(haversine);
    let a = haversine_term_of(lat1, lon1, lat2, lon2);
    let q = isqrt(a);
    let p = isqrt(SCALE * SCALE - a);
    let t = atan2_of(q, p);
    let d = EARTH_RADIUS * 2 * t / SCALE;
    assert(d <= 20_015_087) by (nonlinear_arith)
        requires
            d == EARTH_RADIUS * 2 * t / (SCALE as int),
            t <= HALF_PI_FX,
    ;
    d as i32
}

} // verus!
