//! Plaintext scene geometry in fixed-point arithmetic (scale `2^32`): vector
//! algebra on points, an exact integer square root, and the closed-form
//! ray/sphere intersection test used to compute witnesses.

use vstd::prelude::*;
use vstd::arithmetic::div_mod::{
    lemma_div_is_ordered,
    lemma_div_nonincreasing,
    lemma_div_pos_is_pos,
};

verus! {

/// Fixed-point multiply: the integer product scaled back down by `2^32`,
/// truncated toward zero.
pub open spec fn fixmul(a: int, b: int) -> int {
    if a * b >= 0 {
        (a * b) / 0x100000000
    } else {
        -((-(a * b)) / 0x100000000)
    }
}

/// Division truncated toward zero, for a positive divisor.
pub open spec fn fixdiv(a: int, b: int) -> int {
    if a >= 0 {
        a / b
    } else {
        -((-a) / b)
    }
}

/// Floor of the square root.
pub open spec fn sqrt_floor(v: nat) -> nat {
    choose|r: nat| (#[trigger] (r * r)) <= v && v < (r + 1) * (r + 1)
}

/// Fixed-point square root: the square root of `v * 2^32` keeps the `2^32`
/// scale.
pub open spec fn fixsqrt(v: int) -> int {
    sqrt_floor((v * 0x100000000) as nat) as int
}

pub proof fn lemma_sqrt_floor_unique(v: nat, r: nat)
    requires
        r * r <= v,
        v < (r + 1) * (r + 1),
    ensures
        sqrt_floor(v) == r,
{
    assert(exists|q: nat| (#[trigger] (q * q)) <= v && v < (q + 1) * (q + 1)) by {
        assert(r * r <= v && v < (r + 1) * (r + 1));
    }
    let r2 = sqrt_floor(v);
    assert(r2 * r2 <= v && v < (r2 + 1) * (r2 + 1));
    if r2 < r {
        assert((r2 + 1) * (r2 + 1) <= r * r) by (nonlinear_arith)
            requires
                r2 + 1 <= r,
        ;
    }
    if r < r2 {
        assert((r + 1) * (r + 1) <= r2 * r2) by (nonlinear_arith)
            requires
                r + 1 <= r2,
        ;
    }
}

/// The magnitude of a truncated scaled product is bounded by the scaled
/// product of the operand magnitudes.
pub proof fn lemma_fixmul_bound(a: int, b: int, m: int)
    requires
        -m <= a <= m,
        -m <= b <= m,
        0 <= m,
    ensures
        -((m * m) / 0x100000000) <= fixmul(a, b) <= (m * m) / 0x100000000,
{
    assert(-(m * m) <= a * b <= m * m) by (nonlinear_arith)
        requires
            -m <= a <= m,
            -m <= b <= m,
            0 <= m,
    ;
    if a * b >= 0 {
        lemma_div_is_ordered(a * b, m * m, 0x100000000);
        lemma_div_pos_is_pos(a * b, 0x100000000);
    } else {
        lemma_div_is_ordered(-(a * b), m * m, 0x100000000);
        lemma_div_pos_is_pos(-(a * b), 0x100000000);
    }
}

/// A square's truncated scale-down is never negative.
pub proof fn lemma_fixmul_sq_nonneg(a: int)
    ensures
        fixmul(a, a) >= 0,
{
    assert(a * a >= 0) by (nonlinear_arith);
    lemma_div_pos_is_pos(a * a, 0x100000000);
}

/// Exact floor of the square root of a 128-bit value, by binary search.
pub fn isqrt(v: u128) -> (r: u64)
    ensures
        (r as nat) * (r as nat) <= v as nat,
        (v as nat) < ((r as nat) + 1) * ((r as nat) + 1),
        r as nat == sqrt_floor(v as nat),
{
    let mut lo: u128 = 0;
    let mut hi: u128 = 0x10000000000000000;
    proof {
        assert((v as nat) < (hi as nat) * (hi as nat)) by (nonlinear_arith)
            requires
                hi == 0x10000000000000000u128,
                v <= 0xffffffffffffffffffffffffffffffffu128,
        ;
    }
    while lo + 1 < hi
        invariant
            lo < hi,
            hi <= 0x10000000000000000,
            (lo as nat) * (lo as nat) <= v as nat,
            (v as nat) < (hi as nat) * (hi as nat),
        decreases hi - lo,
    {
        let mid = lo + (hi - lo) / 2;
        proof {
            assert(lo < mid < hi);
            assert((mid as nat) * (mid as nat) < 0x100000000000000000000000000000000) by (
            nonlinear_arith)
                requires
                    mid < 0x10000000000000000u128,
            ;
        }
        let m2 = mid * mid;
        if m2 <= v {
            lo = mid;
        } else {
            hi = mid;
        }
    }
    proof {
        assert(hi == lo + 1);
        lemma_sqrt_floor_unique(v as nat, lo as nat);
    }
    lo as u64
}

/// Exact fixed-point multiply on machine integers.
pub fn fmul(a: i128, b: i128) -> (r: i128)
    requires
        -0x4000000000000000 <= a <= 0x4000000000000000,
        -0x4000000000000000 <= b <= 0x4000000000000000,
    ensures
        r == fixmul(a as int, b as int),
{
    proof {
        assert(-0x10000000000000000000000000000000 <= a * b
            <= 0x10000000000000000000000000000000) by (nonlinear_arith)
            requires
                -0x4000000000000000 <= a <= 0x4000000000000000,
                -0x4000000000000000 <= b <= 0x4000000000000000,
        ;
    }
    let p: i128 = a * b;
    if p >= 0 {
        let q = (p as u128) / 0x100000000u128;
        proof {
            lemma_div_nonincreasing(p as int, 0x100000000);
            lemma_div_pos_is_pos(p as int, 0x100000000);
        }
        q as i128
    } else {
        let n: i128 = -p;
        let q = (n as u128) / 0x100000000u128;
        proof {
            lemma_div_nonincreasing(n as int, 0x100000000);
            lemma_div_pos_is_pos(n as int, 0x100000000);
        }
        -(q as i128)
    }
}

/// Exact truncated division on machine integers, positive divisor.
pub fn fdiv(a: i128, b: i128) -> (r: i128)
    requires
        b >= 1,
        -0x40000000000000000000000000000000 <= a <= 0x40000000000000000000000000000000,
    ensures
        r == fixdiv(a as int, b as int),
        a >= 0 ==> 0 <= r <= a,
        a < 0 ==> a <= r <= 0,
{
    if a >= 0 {
        let q = (a as u128) / (b as u128);
        proof {
            lemma_div_nonincreasing(a as int, b as int);
            lemma_div_pos_is_pos(a as int, b as int);
        }
        q as i128
    } else {
        let n: i128 = -a;
        let q = (n as u128) / (b as u128);
        proof {
            lemma_div_nonincreasing(n as int, b as int);
            lemma_div_pos_is_pos(n as int, b as int);
        }
        -(q as i128)
    }
}

/// Fixed-point square root on machine integers.
pub fn fsqrt(v: i128) -> (r: i128)
    requires
        0 <= v <= 0x400000000000000000000000,
    ensures
        r == fixsqrt(v as int),
        0 <= r <= 0x8000000000000000,
{
    let x = (v as u128) * 0x100000000u128;
    let s = isqrt(x);
    proof {
        if s > 0x8000000000000000u64 {
            assert((s as nat) * (s as nat) > 0x40000000000000000000000000000000) by (
            nonlinear_arith)
                requires
                    s > 0x8000000000000000u64,
            ;
        }
    }
    s as i128
}

/// A point (or vector) with fixed-point coordinates, scale `2^32`.
#[derive(Clone, Copy)]
pub struct Point {
    pub x: i128,
    pub y: i128,
    pub z: i128,
}

/// The mathematical triple a point stands for.
pub open spec fn pt(p: Point) -> (int, int, int) {
    (p.x as int, p.y as int, p.z as int)
}

pub open spec fn v_add(a: (int, int, int), b: (int, int, int)) -> (int, int, int) {
    (a.0 + b.0, a.1 + b.1, a.2 + b.2)
}

pub open spec fn v_sub(a: (int, int, int), b: (int, int, int)) -> (int, int, int) {
    (a.0 - b.0, a.1 - b.1, a.2 - b.2)
}

pub open spec fn v_scale(a: (int, int, int), s: int) -> (int, int, int) {
    (fixmul(a.0, s), fixmul(a.1, s), fixmul(a.2, s))
}

pub open spec fn v_dot(a: (int, int, int), b: (int, int, int)) -> int {
    fixmul(a.0, b.0) + fixmul(a.1, b.1) + fixmul(a.2, b.2)
}

pub open spec fn v_cross(a: (int, int, int), b: (int, int, int)) -> (int, int, int) {
    (
        fixmul(a.1, b.2) - fixmul(a.2, b.1),
        fixmul(a.2, b.0) - fixmul(a.0, b.2),
        fixmul(a.0, b.1) - fixmul(a.1, b.0),
    )
}

pub open spec fn v_len(a: (int, int, int)) -> int {
    fixsqrt(v_dot(a, a))
}

pub open spec fn v_norm(a: (int, int, int)) -> (int, int, int) {
    (
        fixdiv(a.0 * 0x100000000, v_len(a)),
        fixdiv(a.1 * 0x100000000, v_len(a)),
        fixdiv(a.2 * 0x100000000, v_len(a)),
    )
}

/// Components bounded in magnitude by `m`.
pub open spec fn bounded(a: (int, int, int), m: int) -> bool {
    -m <= a.0 <= m && -m <= a.1 <= m && -m <= a.2 <= m
}

impl Point {
    pub fn new(x: i128, y: i128, z: i128) -> (r: Point)
        ensures
            pt(r) == (x as int, y as int, z as int),
    {
        Point { x, y, z }
    }

    pub fn zero() -> (r: Point)
        ensures
            pt(r) == (0int, 0int, 0int),
    {
        Point { x: 0, y: 0, z: 0 }
    }

    /// The unit vector along the y axis, `1.0` in fixed-point.
    pub fn up() -> (r: Point)
        ensures
            pt(r) == (0int, 0x100000000int, 0int),
    {
        Point { x: 0, y: 0x100000000, z: 0 }
    }

    pub fn add(&self, other: Point) -> (r: Point)
        requires
            bounded(pt(*self), 0x20000000000000000000000000000000),
            bounded(pt(other), 0x20000000000000000000000000000000),
        ensures
            pt(r) == v_add(pt(*self), pt(other)),
    {
        Point { x: self.x + other.x, y: self.y + other.y, z: self.z + other.z }
    }

    pub fn sub(&self, other: Point) -> (r: Point)
        requires
            bounded(pt(*self), 0x20000000000000000000000000000000),
            bounded(pt(other), 0x20000000000000000000000000000000),
        ensures
            pt(r) == v_sub(pt(*self), pt(other)),
    {
        Point { x: self.x - other.x, y: self.y - other.y, z: self.z - other.z }
    }

    /// Uniform scaling by a fixed-point factor.
    pub fn mul(&self, s: i128) -> (r: Point)
        requires
            bounded(pt(*self), 0x4000000000000000),
            -0x4000000000000000 <= s <= 0x4000000000000000,
        ensures
            pt(r) == v_scale(pt(*self), s as int),
    {
        Point { x: fmul(self.x, s), y: fmul(self.y, s), z: fmul(self.z, s) }
    }

    pub fn dot(&self, other: Point) -> (r: i128)
        requires
            bounded(pt(*self), 0x2000000000000000),
            bounded(pt(other), 0x2000000000000000),
        ensures
            r == v_dot(pt(*self), pt(other)),
    {
        proof {
            lemma_fixmul_bound(self.x as int, other.x as int, 0x2000000000000000);
            lemma_fixmul_bound(self.y as int, other.y as int, 0x2000000000000000);
            lemma_fixmul_bound(self.z as int, other.z as int, 0x2000000000000000);
        }
        fmul(self.x, other.x) + fmul(self.y, other.y) + fmul(self.z, other.z)
    }

    pub fn cross(&self, other: Point) -> (r: Point)
        requires
            bounded(pt(*self), 0x2000000000000000),
            bounded(pt(other), 0x2000000000000000),
        ensures
            pt(r) == v_cross(pt(*self), pt(other)),
    {
        proof {
            lemma_fixmul_bound(self.x as int, other.x as int, 0x2000000000000000);
            lemma_fixmul_bound(self.x as int, other.y as int, 0x2000000000000000);
            lemma_fixmul_bound(self.x as int, other.z as int, 0x2000000000000000);
            lemma_fixmul_bound(self.y as int, other.x as int, 0x2000000000000000);
            lemma_fixmul_bound(self.y as int, other.z as int, 0x2000000000000000);
            lemma_fixmul_bound(self.z as int, other.x as int, 0x2000000000000000);
            lemma_fixmul_bound(self.z as int, other.y as int, 0x2000000000000000);
        }
        Point {
            x: fmul(self.y, other.z) - fmul(self.z, other.y),
            y: fmul(self.z, other.x) - fmul(self.x, other.z),
            z: fmul(self.x, other.y) - fmul(self.y, other.x),
        }
    }

    /// Length of the vector, in fixed-point.
    pub fn len(&self) -> (r: i128)
        requires
            bounded(pt(*self), 0x2000000000000000),
        ensures
            r == v_len(pt(*self)),
            0 <= r <= 0x8000000000000000,
    {
        proof {
            lemma_fixmul_sq_nonneg(self.x as int);
            lemma_fixmul_sq_nonneg(self.y as int);
            lemma_fixmul_sq_nonneg(self.z as int);
            lemma_fixmul_bound(self.x as int, self.x as int, 0x2000000000000000);
            lemma_fixmul_bound(self.y as int, self.y as int, 0x2000000000000000);
            lemma_fixmul_bound(self.z as int, self.z as int, 0x2000000000000000);
        }
        let d = self.dot(*self);
        fsqrt(d)
    }

    /// The vector scaled to unit length (in fixed-point); requires a vector
    /// whose squared length is at least one, so the division is meaningful.
    pub fn norm(&self) -> (r: Point)
        requires
            bounded(pt(*self), 0x2000000000000000),
            v_dot(pt(*self), pt(*self)) >= 1,
        ensures
            pt(r) == v_norm(pt(*self)),
    {
        let l = self.len();
        proof {
            let d = v_dot(pt(*self), pt(*self));
            let x = (d * 0x100000000) as nat;
            assert(x >= 0x100000000);
            let s = sqrt_floor(x);
            assert(s * s <= x && x < (s + 1) * (s + 1)) by {
                assert(exists|q: nat| (#[trigger] (q * q)) <= x && x < (q + 1) * (q + 1)) by {
                    lemma_sqrt_exists(x);
                }
            }
            if s == 0 {
                assert(x < (s + 1) * (s + 1));
                assert((s + 1) * (s + 1) == 1) by (nonlinear_arith)
                    requires
                        s == 0,
                ;
            }
            assert(l >= 1);
        }
        Point {
            x: fdiv(self.x * 0x100000000, l),
            y: fdiv(self.y * 0x100000000, l),
            z: fdiv(self.z * 0x100000000, l),
        }
    }
}

/// Every natural number has a floor square root.
pub proof fn lemma_sqrt_exists(v: nat)
    ensures
        exists|q: nat| (#[trigger] (q * q)) <= v && v < (q + 1) * (q + 1),
    decreases v,
{
    if v == 0 {
        assert(0 * 0 <= 0 && 0 < (0 + 1) * (0 + 1)) by (nonlinear_arith);
        assert((0 as nat) * (0 as nat) <= v && v < ((0 as nat) + 1) * ((0 as nat) + 1));
    } else {
        lemma_sqrt_exists((v - 1) as nat);
        let q = choose|q: nat| (#[trigger] (q * q)) <= v - 1 && v - 1 < (q + 1) * (q + 1);
        if v < (q + 1) * (q + 1) {
            assert(q * q <= v && v < (q + 1) * (q + 1));
        } else {
            assert(v == (q + 1) * (q + 1));
            assert((q + 1) * (q + 1) <= v && v < ((q + 1) + 1) * ((q + 1) + 1)) by (
            nonlinear_arith)
                requires
                    v == (q + 1) * (q + 1),
            ;
        }
    }
}

#[derive(Clone, Copy)]
pub struct Ray {
    pub pos: Point,
    pub dir: Point,
}

#[derive(Clone, Copy)]
pub struct Sphere {
    pub center: Point,
    pub radius: i128,
}

/// The closed-form ray/sphere test: reject when the projection of
/// center-minus-origin onto the direction is negative, reject when the
/// perpendicular squared distance exceeds the squared radius, else take the
/// nearer non-negative root.
pub open spec fn intersect_t(
    center: (int, int, int),
    radius: int,
    pos: (int, int, int),
    dir: (int, int, int),
) -> Option<int> {
    let csp = v_sub(center, pos);
    let tca = v_dot(csp, dir);
    if tca < 0 {
        Option::None
    } else {
        let d2 = v_dot(csp, csp) - fixmul(tca, tca);
        let r2 = fixmul(radius, radius);
        if d2 > r2 {
            Option::None
        } else {
            let thc = fixsqrt(r2 - d2);
            let ret = if tca - thc <= tca + thc {
                tca - thc
            } else {
                tca + thc
            };
            if ret < 0 {
                Option::None
            } else {
                Option::Some(ret)
            }
        }
    }
}

impl Sphere {
    pub fn intersects(&self, ray: &Ray) -> (r: Option<i128>)
        requires
            bounded(pt(self.center), 0x200000000000),
            -0x200000000000 <= self.radius <= 0x200000000000,
            bounded(pt(ray.pos), 0x200000000000),
            bounded(pt(ray.dir), 0x200000000000),
        ensures
            r is Some <==> intersect_t(pt(self.center), self.radius as int, pt(ray.pos), pt(ray.dir)) is Some,
            r matches Some(t) ==> intersect_t(
                pt(self.center),
                self.radius as int,
                pt(ray.pos),
                pt(ray.dir),
            ) == Option::Some(t as int) && 0 <= t <= 0x18000000000000000,
    {
        let csp = self.center.sub(ray.pos);
        proof {
            lemma_fixmul_bound(csp.x as int, ray.dir.x as int, 0x400000000000);
            lemma_fixmul_bound(csp.y as int, ray.dir.y as int, 0x400000000000);
            lemma_fixmul_bound(csp.z as int, ray.dir.z as int, 0x400000000000);
            lemma_fixmul_bound(csp.x as int, csp.x as int, 0x400000000000);
            lemma_fixmul_bound(csp.y as int, csp.y as int, 0x400000000000);
            lemma_fixmul_bound(csp.z as int, csp.z as int, 0x400000000000);
        }
        let tca = csp.dot(ray.dir);
        if tca < 0 {
            return None;
        }
        proof {
            lemma_fixmul_bound(tca as int, tca as int, 0x4000000000000000);
            lemma_fixmul_bound(self.radius as int, self.radius as int, 0x200000000000);
            lemma_fixmul_sq_nonneg(tca as int);
            lemma_fixmul_sq_nonneg(self.radius as int);
        }
        let d2 = csp.dot(csp) - fmul(tca, tca);
        let r2 = fmul(self.radius, self.radius);
        if d2 > r2 {
            return None;
        }
        let thc = fsqrt(r2 - d2);
        let a = tca - thc;
        let b = tca + thc;
        let ret = if a <= b {
            a
        } else {
            b
        };
        if ret < 0 {
            None
        } else {
            Some(ret)
        }
    }
}

} // verus!
