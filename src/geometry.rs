//! Fixed-point plane vectors, an exact integer square root and direction scaling.

use vstd::prelude::*;
use vstd::arithmetic::div_mod::{
    lemma_div_is_ordered, lemma_div_multiples_vanish, lemma_fundamental_div_mod, lemma_mod_pos_bound,
};

verus! {

/// Largest magnitude a direction vector handed to `scale_to` may have per axis.
pub const DIR_LIMIT: i64 = 8_796_093_022_208;

/// Largest length `scale_to` can produce.
pub const LEN_LIMIT: i64 = 67_108_864;

/// How far, in millionths of a unit, a scaled length may stray from the length asked for.
pub const TOLERANCE: i64 = 100;

/// Factor by which a direction is enlarged before its length is measured,
/// so that short vectors still give a precise heading.
pub const DIR_SCALE: u128 = 1_048_576;

/// A point or displacement on the plane, in millionths of a unit.
#[derive(Clone, Copy, Debug, PartialEq, Eq, Structural)]
pub struct Vec2 {
    pub x: i64,
    pub y: i64,
}

pub open spec fn abs(v: int) -> int {
    if v < 0 { -v } else { v }
}

/// The largest `s` with `s * s <= n`.
pub open spec fn sqrt_floor(n: nat) -> nat
    decreases n,
{
    if n == 0 {
        0
    } else {
        let r = sqrt_floor((n - 1) as nat);
        if (r + 1) * (r + 1) <= n { (r + 1) as nat } else { r }
    }
}

pub proof fn lemma_sqrt_floor_bounds(n: nat)
    ensures
        sqrt_floor(n) * sqrt_floor(n) <= n,
        n < (sqrt_floor(n) + 1) * (sqrt_floor(n) + 1),
    decreases n,
{
    if n > 0 {
        lemma_sqrt_floor_bounds((n - 1) as nat);
        let r = sqrt_floor((n - 1) as nat);
        if (r + 1) * (r + 1) <= n {
            let s = sqrt_floor(n);
            assert(s == r + 1);
            assert(s * s <= n && n < (s + 1) * (s + 1)) by (nonlinear_arith)
                requires
                    n - 1 < (r + 1) * (r + 1),
                    (r + 1) * (r + 1) <= n,
                    s == r + 1,
            ;
        } else {
            let s = sqrt_floor(n);
            assert(s == r);
            assert(s * s <= n && n < (s + 1) * (s + 1)) by (nonlinear_arith)
                requires
                    r * r <= n - 1,
                    n < (r + 1) * (r + 1),
                    s == r,
            ;
        }
    } else {
        assert(sqrt_floor(n) == 0);
        assert((0nat + 1) * (0nat + 1) == 1) by (nonlinear_arith);
    }
}

/// Any `s` that brackets `n` between `s * s` and `(s + 1) * (s + 1)` is its floor square root.
pub proof fn lemma_sqrt_floor_unique(n: nat, s: nat)
    requires
        s * s <= n,
        n < (s + 1) * (s + 1),
    ensures
        sqrt_floor(n) == s,
{
    lemma_sqrt_floor_bounds(n);
    let r = sqrt_floor(n);
    if r < s {
        assert((r + 1) * (r + 1) <= s * s) by (nonlinear_arith)
            requires
                r + 1 <= s,
        ;
    } else if s < r {
        assert((s + 1) * (s + 1) <= r * r) by (nonlinear_arith)
            requires
                s + 1 <= r,
        ;
    }
}

/// A square no larger than `n` has a side no larger than the floor square root of `n`.
pub proof fn lemma_sqrt_floor_dominates(n: nat, k: nat)
    requires
        k * k <= n,
    ensures
        k <= sqrt_floor(n),
{
    lemma_sqrt_floor_bounds(n);
    let r = sqrt_floor(n);
    if r < k {
        assert((r + 1) * (r + 1) <= k * k) by (nonlinear_arith)
            requires
                r + 1 <= k,
        ;
    }
}

/// Floor square root, by bisection.
pub fn isqrt(n: u128) -> (r: u64)
    ensures
        r == sqrt_floor(n as nat),
{
    let mut lo: u128 = 0;
    let mut hi: u128 = 0x1_0000_0000_0000_0000;
    assert(n < hi * hi) by (nonlinear_arith)
        requires
            hi == 0x1_0000_0000_0000_0000u128,
            n <= u128::MAX,
    ;
    while hi - lo > 1
        invariant
            lo < hi <= 0x1_0000_0000_0000_0000u128,
            lo * lo <= n,
            n < hi * hi,
        decreases hi - lo,
    {
        let mid: u128 = lo + (hi - lo) / 2;
        assert(mid * mid <= 0xFFFF_FFFF_FFFF_FFFFu128 * 0xFFFF_FFFF_FFFF_FFFFu128) by (nonlinear_arith)
            requires
                0 <= mid <= 0xFFFF_FFFF_FFFF_FFFFu128,
        ;
        if mid * mid <= n {
            lo = mid;
        } else {
            hi = mid;
        }
    }
    assert(hi == lo + 1);
    proof {
        lemma_sqrt_floor_unique(n as nat, lo as nat);
    }
    lo as u64
}

/// The magnitude of one axis of `c` scaled onto `len` out of measured length `m`.
pub open spec fn scaled_axis(c: int, m: int, len: int) -> int {
    let q = (abs(c) * DIR_SCALE) * len / m;
    if c < 0 { -q } else { q }
}

/// The measured length of a direction, after enlarging it by `DIR_SCALE`.
pub open spec fn measure(v: Vec2) -> nat {
    let sx = abs(v.x as int) * DIR_SCALE;
    let sy = abs(v.y as int) * DIR_SCALE;
    sqrt_floor((sx * sx + sy * sy) as nat)
}

/// `v` turned into a vector of length `len` (up to rounding toward zero).
/// The zero vector has no heading; it is taken to point along the x axis.
pub open spec fn scale_to_spec(v: Vec2, len: int) -> (int, int) {
    if v.x == 0 && v.y == 0 {
        (len, 0)
    } else {
        (scaled_axis(v.x as int, measure(v) as int, len), scaled_axis(v.y as int, measure(v) as int, len))
    }
}

/// `v` rotated a quarter turn: `(y, -x)`.
pub open spec fn rotate90_spec(v: Vec2) -> Vec2 {
    Vec2 { x: v.y, y: (-v.x) as i64 }
}

pub open spec fn dir_ok(v: Vec2) -> bool {
    -DIR_LIMIT <= v.x <= DIR_LIMIT && -DIR_LIMIT <= v.y <= DIR_LIMIT
}

/// The quarter-turn rotation `(y, -x)`.
pub fn rotate90(v: Vec2) -> (r: Vec2)
    requires
        v.x > i64::MIN,
    ensures
        r == rotate90_spec(v),
{
    Vec2 { x: v.y, y: -v.x }
}

/// Scale the non-zero direction `v` to length `len`; the zero vector gives `(len, 0)`.
pub fn scale_to(v: Vec2, len: i64) -> (r: Vec2)
    requires
        dir_ok(v),
        0 <= len <= LEN_LIMIT,
    ensures
        r.x == scale_to_spec(v, len as int).0,
        r.y == scale_to_spec(v, len as int).1,
        abs(r.x as int) <= len,
        abs(r.y as int) <= len,
{
    if v.x == 0 && v.y == 0 {
        return Vec2 { x: len, y: 0 };
    }
    let ux: u128 = if v.x < 0 { (-v.x) as u128 } else { v.x as u128 };
    let uy: u128 = if v.y < 0 { (-v.y) as u128 } else { v.y as u128 };
    assert(ux * DIR_SCALE <= 0x8000_0000_0000_0000u128) by (nonlinear_arith)
        requires
            ux <= 0x800_0000_0000u128,
    ;
    assert(uy * DIR_SCALE <= 0x8000_0000_0000_0000u128) by (nonlinear_arith)
        requires
            uy <= 0x800_0000_0000u128,
    ;
    let sx: u128 = ux * DIR_SCALE;
    let sy: u128 = uy * DIR_SCALE;
    assert(sx * sx + sy * sy <= 2 * (0x8000_0000_0000_0000u128) * (0x8000_0000_0000_0000u128)) by (nonlinear_arith)
        requires
            sx <= 0x8000_0000_0000_0000u128,
            sy <= 0x8000_0000_0000_0000u128,
    ;
    let n: u128 = sx * sx + sy * sy;
    let m: u128 = isqrt(n) as u128;
    proof {
        lemma_sqrt_floor_dominates(n as nat, sx as nat);
        lemma_sqrt_floor_dominates(n as nat, sy as nat);
        assert(sx > 0 || sy > 0);
    }
    let l: u128 = len as u128;
    assert(sx * l <= 0x8000_0000_0000_0000u128 * 67_108_864) by (nonlinear_arith)
        requires
            sx <= 0x8000_0000_0000_0000u128,
            l <= 67_108_864,
    ;
    assert(sy * l <= 0x8000_0000_0000_0000u128 * 67_108_864) by (nonlinear_arith)
        requires
            sy <= 0x8000_0000_0000_0000u128,
            l <= 67_108_864,
    ;
    let qx: u128 = sx * l / m;
    let qy: u128 = sy * l / m;
    proof {
        assert(sx * l <= m * l) by (nonlinear_arith)
            requires
                sx <= m,
        ;
        assert(sy * l <= m * l) by (nonlinear_arith)
            requires
                sy <= m,
        ;
        lemma_div_is_ordered((sx * l) as int, (m * l) as int, m as int);
        lemma_div_is_ordered((sy * l) as int, (m * l) as int, m as int);
        lemma_div_multiples_vanish(l as int, m as int);
    }
    let x: i64 = if v.x < 0 { -(qx as i64) } else { qx as i64 };
    let y: i64 = if v.y < 0 { -(qy as i64) } else { qy as i64 };
    Vec2 { x, y }
}

/// The quotient `q` of `a / m` and its neighbour bracket `a`: `q * m <= a < (q + 1) * m`.
proof fn lemma_quotient_bracket(a: int, m: int)
    requires
        a >= 0,
        m > 0,
    ensures
        (a / m) * m <= a < (a / m + 1) * m,
        a / m >= 0,
{
    lemma_fundamental_div_mod(a, m);
    lemma_mod_pos_bound(a, m);
    assert(m * (a / m) == (a / m) * m) by (nonlinear_arith);
    assert((a / m + 1) * m == (a / m) * m + m) by (nonlinear_arith);
    if a / m < 0 {
        assert((a / m) * m <= -m) by (nonlinear_arith)
            requires
                a / m <= -1,
                m > 0,
        ;
    }
}

/// Squares of the scaled axes of one direction, summed.
pub open spec fn scaled_sq_len(v: Vec2, len: int) -> int {
    let r = scale_to_spec(v, len);
    r.0 * r.0 + r.1 * r.1
}

/// A vector scaled to `len` is at most 64 millionths of a unit longer than
/// `len`, and less than two millionths shorter.
pub proof fn lemma_scale_to_length(v: Vec2, len: int)
    requires
        dir_ok(v),
        0 <= len <= LEN_LIMIT,
    ensures
        scaled_sq_len(v, len) <= (len + 64) * (len + 64),
        len >= 2 ==> (len - 2) * (len - 2) < scaled_sq_len(v, len),
        abs(scale_to_spec(v, len).0) <= len,
        abs(scale_to_spec(v, len).1) <= len,
{
    if v.x == 0 && v.y == 0 {
        assert(len * len + 0 * 0 <= (len + 64) * (len + 64)) by (nonlinear_arith)
            requires
                len >= 0,
        ;
        assert(len >= 2 ==> (len - 2) * (len - 2) < len * len + 0 * 0) by (nonlinear_arith);
        return;
    }
    let s = DIR_SCALE as int;
    let ax = abs(v.x as int);
    let ay = abs(v.y as int);
    let sx = ax * s;
    let sy = ay * s;
    let n = sx * sx + sy * sy;
    assert(n >= 0) by (nonlinear_arith)
        requires
            n == sx * sx + sy * sy,
    ;
    let m = sqrt_floor(n as nat) as int;
    assert(m == measure(v));
    lemma_sqrt_floor_bounds(n as nat);
    assert(s * s <= n) by (nonlinear_arith)
        requires
            ax >= 1 || ay >= 1,
            ax >= 0,
            ay >= 0,
            s > 0,
            sx == ax * s,
            sy == ay * s,
            n == sx * sx + sy * sy,
    ;
    lemma_sqrt_floor_dominates(n as nat, s as nat);
    lemma_sqrt_floor_dominates(n as nat, sx as nat);
    lemma_sqrt_floor_dominates(n as nat, sy as nat);
    assert(sx >= 0 && sy >= 0) by (nonlinear_arith)
        requires
            ax >= 0,
            ay >= 0,
            sx == ax * s,
            sy == ay * s,
            s > 0,
    ;
    assert(sx * len >= 0 && sy * len >= 0) by (nonlinear_arith)
        requires
            sx >= 0,
            sy >= 0,
            len >= 0,
    ;
    lemma_quotient_bracket(sx * len, m);
    lemma_quotient_bracket(sy * len, m);
    let qx = (sx * len) / m;
    let qy = (sy * len) / m;
    let r = scale_to_spec(v, len);
    assert(r.0 * r.0 == qx * qx) by (nonlinear_arith)
        requires
            r.0 == qx || r.0 == -qx,
    ;
    assert(r.1 * r.1 == qy * qy) by (nonlinear_arith)
        requires
            r.1 == qy || r.1 == -qy,
    ;
    let f = qx * qx + qy * qy;
    assert(qx <= len) by (nonlinear_arith)
        requires
            qx * m <= sx * len,
            sx <= m,
            len >= 0,
            m > 0,
    ;
    assert(qy <= len) by (nonlinear_arith)
        requires
            qy * m <= sy * len,
            sy <= m,
            len >= 0,
            m > 0,
    ;
    // upper bound
    assert(qx * qx * (m * m) <= sx * sx * (len * len)) by (nonlinear_arith)
        requires
            0 <= qx * m <= sx * len,
            qx >= 0,
            m > 0,
    ;
    assert(qy * qy * (m * m) <= sy * sy * (len * len)) by (nonlinear_arith)
        requires
            0 <= qy * m <= sy * len,
            qy >= 0,
            m > 0,
    ;
    assert(f * (m * m) <= n * (len * len)) by (nonlinear_arith)
        requires
            qx * qx * (m * m) <= sx * sx * (len * len),
            qy * qy * (m * m) <= sy * sy * (len * len),
            f == qx * qx + qy * qy,
            n == sx * sx + sy * sy,
    ;
    assert(n * (len * len) <= (m + 1) * (m + 1) * (len * len)) by (nonlinear_arith)
        requires
            n < (m + 1) * (m + 1),
            len >= 0,
    ;
    if f > (len + 64) * (len + 64) {
        let a = (len + 64) * m;
        let b = (m + 1) * len;
        assert(a * a < b * b) by (nonlinear_arith)
            requires
                f > (len + 64) * (len + 64),
                f * (m * m) <= (m + 1) * (m + 1) * (len * len),
                m > 0,
                a == (len + 64) * m,
                b == (m + 1) * len,
        ;
        assert(a < b) by (nonlinear_arith)
            requires
                a * a < b * b,
                a >= 0,
                b >= 0,
        ;
        assert(false) by (nonlinear_arith)
            requires
                a < b,
                a == (len + 64) * m,
                b == (m + 1) * len,
                m >= s,
                s == 1_048_576,
                0 <= len <= 67_108_864,
        ;
    }
    // lower bound
    assert((qx + 1) * (qx + 1) * (m * m) > sx * sx * (len * len)) by (nonlinear_arith)
        requires
            sx * len < (qx + 1) * m,
            sx * len >= 0,
            qx >= 0,
            m > 0,
    ;
    assert((qy + 1) * (qy + 1) * (m * m) > sy * sy * (len * len)) by (nonlinear_arith)
        requires
            sy * len < (qy + 1) * m,
            sy * len >= 0,
            qy >= 0,
            m > 0,
    ;
    assert(((qx + 1) * (qx + 1) + (qy + 1) * (qy + 1)) * (m * m) > (m * m) * (len * len)) by (nonlinear_arith)
        requires
            (qx + 1) * (qx + 1) * (m * m) > sx * sx * (len * len),
            (qy + 1) * (qy + 1) * (m * m) > sy * sy * (len * len),
            n == sx * sx + sy * sy,
            m * m <= n,
            len >= 0,
    ;
    assert((qx + 1) * (qx + 1) + (qy + 1) * (qy + 1) > len * len) by (nonlinear_arith)
        requires
            ((qx + 1) * (qx + 1) + (qy + 1) * (qy + 1)) * (m * m) > (m * m) * (len * len),
            m > 0,
    ;
    if len >= 2 && f <= (len - 2) * (len - 2) {
        assert(qx <= len - 2) by (nonlinear_arith)
            requires
                qx * qx <= f,
                f <= (len - 2) * (len - 2),
                qx >= 0,
                len >= 2,
        ;
        assert(qy <= len - 2) by (nonlinear_arith)
            requires
                qy * qy <= f,
                f <= (len - 2) * (len - 2),
                qy >= 0,
                len >= 2,
        ;
        assert(qx * qx >= 0 && qy * qy >= 0) by (nonlinear_arith);
        assert(false) by (nonlinear_arith)
            requires
                (qx + 1) * (qx + 1) + (qy + 1) * (qy + 1) > len * len,
                f == qx * qx + qy * qy,
                f <= (len - 2) * (len - 2),
                qx <= len - 2,
                qy <= len - 2,
        ;
    }
}

/// A squared length `sq` whose root lies within `TOLERANCE` of `d`.
pub open spec fn near_length(sq: int, d: int) -> bool {
    &&& sq <= (d + TOLERANCE) * (d + TOLERANCE)
    &&& d >= TOLERANCE ==> (d - TOLERANCE) * (d - TOLERANCE) <= sq
}

/// A vector scaled to `len` has a length within `TOLERANCE` of `len`.
pub proof fn lemma_scale_to_near(v: Vec2, len: int)
    requires
        dir_ok(v),
        0 <= len <= LEN_LIMIT,
    ensures
        near_length(scaled_sq_len(v, len), len),
        abs(scale_to_spec(v, len).0) <= len,
        abs(scale_to_spec(v, len).1) <= len,
{
    lemma_scale_to_length(v, len);
    assert((len + 64) * (len + 64) <= (len + 100) * (len + 100)) by (nonlinear_arith)
        requires
            len >= 0,
    ;
    assert(len >= 100 ==> (len - 100) * (len - 100) <= (len - 2) * (len - 2)) by (nonlinear_arith);
}

/// Scaling a vector whose length is already close to `len` (no more than two
/// millionths short, no more than 64 long) moves each axis by at most 70 millionths.
pub proof fn lemma_rescale_close(v: Vec2, len: int)
    requires
        dir_ok(v),
        4 <= len <= LEN_LIMIT,
        (len - 2) * (len - 2) < v.x * v.x + v.y * v.y <= (len + 64) * (len + 64),
    ensures
        abs(scale_to_spec(v, len).0 - v.x) <= 70,
        abs(scale_to_spec(v, len).1 - v.y) <= 70,
{
    let s = DIR_SCALE as int;
    let a = abs(v.x as int);
    let b = abs(v.y as int);
    assert(a * a == v.x * v.x && b * b == v.y * v.y) by (nonlinear_arith)
        requires
            a == v.x || a == -v.x,
            b == v.y || b == -v.y,
    ;
    let l2 = a * a + b * b;
    assert(v.x != 0 || v.y != 0) by (nonlinear_arith)
        requires
            (len - 2) * (len - 2) < v.x * v.x + v.y * v.y,
            len >= 4,
    ;
    let sx = a * s;
    let sy = b * s;
    let n = sx * sx + sy * sy;
    assert(n == s * s * l2) by (nonlinear_arith)
        requires
            sx == a * s,
            sy == b * s,
            n == sx * sx + sy * sy,
            l2 == a * a + b * b,
    ;
    assert(n >= 0) by (nonlinear_arith)
        requires
            n == sx * sx + sy * sy,
    ;
    let m = sqrt_floor(n as nat) as int;
    lemma_sqrt_floor_bounds(n as nat);
    assert(m >= 0);
    // the measured length lies between S * (len - 2) and S * (len + 64)
    assert(m >= s * (len - 2)) by (nonlinear_arith)
        requires
            n < (m + 1) * (m + 1),
            n == s * s * l2,
            l2 > (len - 2) * (len - 2),
            len >= 4,
            s > 0,
            m >= 0,
    ;
    assert(m <= s * (len + 64)) by (nonlinear_arith)
        requires
            m * m <= n,
            n == s * s * l2,
            l2 <= (len + 64) * (len + 64),
            len >= 0,
            s > 0,
            m >= 0,
    ;
    assert(m > 0) by (nonlinear_arith)
        requires
            m >= s * (len - 2),
            len >= 4,
            s > 0,
    ;
    assert(a <= len + 64 && b <= len + 64) by (nonlinear_arith)
        requires
            a * a + b * b <= (len + 64) * (len + 64),
            a >= 0,
            b >= 0,
            len >= 0,
    ;
    assert(sx == a * s && sy == b * s);
    assert(sx * len >= 0 && sy * len >= 0) by (nonlinear_arith)
        requires
            a >= 0,
            b >= 0,
            s > 0,
            len >= 0,
            sx == a * s,
            sy == b * s,
    ;
    lemma_quotient_bracket(sx * len, m);
    lemma_quotient_bracket(sy * len, m);
    lemma_axis_close(a, sx * len / m, m, s, len);
    lemma_axis_close(b, sy * len / m, m, s, len);
    assert(measure(v) == m);
}

/// One axis of `lemma_rescale_close`: with `q * m <= a * s * len < (q + 1) * m`
/// and `m` between `s * (len - 2)` and `s * (len + 64)`, `q` is within 70 of `a`.
proof fn lemma_axis_close(a: int, q: int, m: int, s: int, len: int)
    requires
        0 <= a <= len + 64,
        q >= 0,
        s > 0,
        len >= 4,
        s * (len - 2) <= m <= s * (len + 64),
        q * m <= (a * s) * len,
        (a * s) * len < (q + 1) * m,
    ensures
        -70 <= q - a <= 70,
{
    if q >= a + 71 {
        assert((a + 71) * m <= q * m) by (nonlinear_arith)
            requires
                q >= a + 71,
                m >= 0,
        ;
        assert((a + 71) * (s * (len - 2)) <= (a + 71) * m) by (nonlinear_arith)
            requires
                m >= s * (len - 2),
                a + 71 >= 0,
        ;
        assert(false) by (nonlinear_arith)
            requires
                (a + 71) * (s * (len - 2)) <= (a * s) * len,
                a <= len + 64,
                s > 0,
                len >= 4,
        ;
    }
    if q <= a - 71 {
        assert((a * s) * len < (a - 70) * (s * (len + 64))) by (nonlinear_arith)
            requires
                q + 1 <= a - 70,
                (a * s) * len < (q + 1) * m,
                m <= s * (len + 64),
                q >= 0,
                m >= 0,
        ;
        assert(false) by (nonlinear_arith)
            requires
                (a * s) * len < (a - 70) * (s * (len + 64)),
                a <= len + 64,
                s > 0,
                len >= 4,
        ;
    }
}

} // verus!
