//! Scene arithmetization: the three-component vector gadget and the circuit
//! that computes a ray/sphere distance inside the constraint system.
//!
//! The circuit allocates the sphere, the ray and the claimed intersection
//! parameter, computes the intersection point and the squared distance from
//! the sphere center, and enforces only the internal fixed-point relations of
//! those values; it deliberately does not assert the geometric intersection
//! equation itself, nor bind anything to a public input — the constraint
//! graph topology is the same for every instance, as the proving backend's
//! fixed-circuit requirement demands.

use vstd::prelude::*;
use vstd::arithmetic::div_mod::{lemma_div_nonincreasing, lemma_div_pos_is_pos};
use crate::r1cs::{R1cs, SynthesisError};
use crate::float::{
    holds_range,
    lemma_extends_trans,
    lemma_holds_range_extend,
    lemma_num_wf_extend,
    AllocatedFloat,
    Num,
};
use crate::geometry::{pt, bounded, Point, Ray, Sphere};

verus! {

/// A value cast from the reals to an unsigned 64-bit magnitude saturates:
/// negative values become zero, oversized ones the maximum.
pub open spec fn sat64(v: int) -> int {
    if v < 0 {
        0
    } else if v > 0xffffffffffffffff {
        0xffffffffffffffff
    } else {
        v
    }
}

/// Right shift by the fixed-point scale: how a 64-bit-scaled product is
/// brought back to the 32-bit scale.
pub open spec fn shr32(p: int) -> int {
    p / 0x100000000
}

/// One coordinate of the computed intersection point.
pub open spec fn isect_coord(pos: int, dir: int, t: int) -> int {
    sat64(pos) + shr32(sat64(dir) * sat64(t))
}

/// One coordinate of the center-minus-origin vector, as the circuit sees it.
pub open spec fn delta_coord(c: int, p: int) -> int {
    sat64(c) - sat64(p)
}

/// The squared distance from the sphere center to the ray origin, computed in
/// fixed point exactly as the circuit computes it.
pub open spec fn dist_sq_val(center: (int, int, int), pos: (int, int, int)) -> int {
    let dx = delta_coord(center.0, pos.0);
    let dy = delta_coord(center.1, pos.1);
    let dz = delta_coord(center.2, pos.2);
    shr32(dx * dx) + shr32(dy * dy) + shr32(dz * dz)
}

/// Saturating conversion of a fixed-point coordinate to the unsigned 64-bit
/// form in which it is allocated.
fn clamp64(v: i128) -> (r: u64)
    ensures
        r as int == sat64(v as int),
{
    if v < 0 {
        0
    } else if v > 0xffffffffffffffff {
        0xffffffffffffffff
    } else {
        v as u64
    }
}

/// Three fixed-point scalars forming a vector gadget.
pub struct AllocatedVec {
    pub x: AllocatedFloat,
    pub y: AllocatedFloat,
    pub z: AllocatedFloat,
}

impl AllocatedVec {
    pub open spec fn wf(self, r1: R1cs) -> bool {
        self.x.wf(r1) && self.y.wf(r1) && self.z.wf(r1)
    }

    pub open spec fn values(self) -> (int, int, int) {
        (self.x.num.value->0 as int, self.y.num.value->0 as int, self.z.num.value->0 as int)
    }

    pub open spec fn has_values(self) -> bool {
        self.x.num.value is Some && self.y.num.value is Some && self.z.num.value is Some
    }

    /// Allocate a plaintext point component-wise (coordinates saturate to the
    /// unsigned 64-bit range, exactly as the real-to-integer cast does).
    pub fn allocate(r1: &mut R1cs, p: Point) -> (r: Result<AllocatedVec, SynthesisError>)
        requires
            old(r1).wf(),
            old(r1).nvars() + 10 < usize::MAX,
        ensures
            r is Ok,
            r matches Ok(v) ==> {
                &&& final(r1).wf()
                &&& final(r1).extends(*old(r1))
                &&& v.wf(*final(r1))
                &&& final(r1).nvars() == old(r1).nvars() + 3
                &&& final(r1).constraints@.len() == old(r1).constraints@.len() + 3
                &&& (final(r1).witness ==> v.has_values() && v.values() == (
                    sat64(p.x as int),
                    sat64(p.y as int),
                    sat64(p.z as int),
                ) && holds_range(
                    final(r1).constraints@,
                    final(r1).vals@,
                    old(r1).constraints@.len() as int,
                    final(r1).constraints@.len() as int,
                ))
                &&& (!final(r1).witness ==> !v.has_values())
            },
    {
        let ghost s0 = *r1;
        let x = match AllocatedFloat::allocate(r1, clamp64(p.x)) {
            Ok(v) => v,
            Err(e) => {
                proof {
                    assert(false);
                }
                return Err(e);
            },
        };
        let ghost s1 = *r1;
        let y = match AllocatedFloat::allocate(r1, clamp64(p.y)) {
            Ok(v) => v,
            Err(e) => {
                proof {
                    assert(false);
                }
                return Err(e);
            },
        };
        let ghost s2 = *r1;
        let z = match AllocatedFloat::allocate(r1, clamp64(p.z)) {
            Ok(v) => v,
            Err(e) => {
                proof {
                    assert(false);
                }
                return Err(e);
            },
        };
        proof {
            lemma_num_wf_extend(x.num, s1, s2);
            lemma_num_wf_extend(x.num, s2, *r1);
            lemma_num_wf_extend(y.num, s2, *r1);
            lemma_extends_trans(s0, s1, s2);
            lemma_extends_trans(s0, s2, *r1);
            if r1.witness {
                lemma_holds_range_extend(
                    s1,
                    s2,
                    s0.constraints@.len() as int,
                    s1.constraints@.len() as int,
                );
                lemma_holds_range_extend(
                    s2,
                    *r1,
                    s0.constraints@.len() as int,
                    s2.constraints@.len() as int,
                );
            }
        }
        Ok(AllocatedVec { x, y, z })
    }

    /// Component-wise addition.
    pub fn add(&self, r1: &mut R1cs, other: &AllocatedVec) -> (r: Result<
        AllocatedVec,
        SynthesisError,
    >)
        requires
            old(r1).wf(),
            self.wf(*old(r1)),
            other.wf(*old(r1)),
            old(r1).nvars() + 10 < usize::MAX,
            self.has_values() ==> {
                &&& -0x400000000000000000000000000000 <= self.values().0 + other.values().0
                    <= 0x400000000000000000000000000000
                &&& -0x400000000000000000000000000000 <= self.values().1 + other.values().1
                    <= 0x400000000000000000000000000000
                &&& -0x400000000000000000000000000000 <= self.values().2 + other.values().2
                    <= 0x400000000000000000000000000000
            },
        ensures
            r is Ok,
            r matches Ok(v) ==> {
                &&& final(r1).wf()
                &&& final(r1).extends(*old(r1))
                &&& v.wf(*final(r1))
                &&& final(r1).nvars() == old(r1).nvars() + 3
                &&& final(r1).constraints@.len() == old(r1).constraints@.len() + 3
                &&& (final(r1).witness ==> v.has_values() && v.values() == v_add3(
                    self.values(),
                    other.values(),
                ) && holds_range(
                    final(r1).constraints@,
                    final(r1).vals@,
                    old(r1).constraints@.len() as int,
                    final(r1).constraints@.len() as int,
                ))
                &&& (!final(r1).witness ==> !v.has_values())
            },
    {
        let ghost s0 = *r1;
        let x = match self.x.add(r1, &other.x) {
            Ok(v) => v,
            Err(e) => {
                proof {
                    assert(false);
                }
                return Err(e);
            },
        };
        let ghost s1 = *r1;
        proof {
            lemma_num_wf_extend(self.y.num, s0, s1);
            lemma_num_wf_extend(other.y.num, s0, s1);
            lemma_num_wf_extend(self.z.num, s0, s1);
            lemma_num_wf_extend(other.z.num, s0, s1);
        }
        let y = match self.y.add(r1, &other.y) {
            Ok(v) => v,
            Err(e) => {
                proof {
                    assert(false);
                }
                return Err(e);
            },
        };
        let ghost s2 = *r1;
        proof {
            lemma_num_wf_extend(self.z.num, s1, s2);
            lemma_num_wf_extend(other.z.num, s1, s2);
        }
        let z = match self.z.add(r1, &other.z) {
            Ok(v) => v,
            Err(e) => {
                proof {
                    assert(false);
                }
                return Err(e);
            },
        };
        proof {
            lemma_num_wf_extend(x.num, s1, s2);
            lemma_num_wf_extend(x.num, s2, *r1);
            lemma_num_wf_extend(y.num, s2, *r1);
            lemma_extends_trans(s0, s1, s2);
            lemma_extends_trans(s0, s2, *r1);
            if r1.witness {
                lemma_holds_range_extend(
                    s1,
                    s2,
                    s0.constraints@.len() as int,
                    s1.constraints@.len() as int,
                );
                lemma_holds_range_extend(
                    s2,
                    *r1,
                    s0.constraints@.len() as int,
                    s2.constraints@.len() as int,
                );
            }
        }
        Ok(AllocatedVec { x, y, z })
    }

    /// Component-wise subtraction.
    pub fn sub(&self, r1: &mut R1cs, other: &AllocatedVec) -> (r: Result<
        AllocatedVec,
        SynthesisError,
    >)
        requires
            old(r1).wf(),
            self.wf(*old(r1)),
            other.wf(*old(r1)),
            old(r1).nvars() + 10 < usize::MAX,
            self.has_values() ==> {
                &&& -0x400000000000000000000000000000 <= self.values().0 - other.values().0
                    <= 0x400000000000000000000000000000
                &&& -0x400000000000000000000000000000 <= self.values().1 - other.values().1
                    <= 0x400000000000000000000000000000
                &&& -0x400000000000000000000000000000 <= self.values().2 - other.values().2
                    <= 0x400000000000000000000000000000
            },
        ensures
            r is Ok,
            r matches Ok(v) ==> {
                &&& final(r1).wf()
                &&& final(r1).extends(*old(r1))
                &&& v.wf(*final(r1))
                &&& final(r1).nvars() == old(r1).nvars() + 3
                &&& final(r1).constraints@.len() == old(r1).constraints@.len() + 3
                &&& (final(r1).witness ==> v.has_values() && v.values() == v_sub3(
                    self.values(),
                    other.values(),
                ) && holds_range(
                    final(r1).constraints@,
                    final(r1).vals@,
                    old(r1).constraints@.len() as int,
                    final(r1).constraints@.len() as int,
                ))
                &&& (!final(r1).witness ==> !v.has_values())
            },
    {
        let ghost s0 = *r1;
        let x = match self.x.sub(r1, &other.x) {
            Ok(v) => v,
            Err(e) => {
                proof {
                    assert(false);
                }
                return Err(e);
            },
        };
        let ghost s1 = *r1;
        proof {
            lemma_num_wf_extend(self.y.num, s0, s1);
            lemma_num_wf_extend(other.y.num, s0, s1);
            lemma_num_wf_extend(self.z.num, s0, s1);
            lemma_num_wf_extend(other.z.num, s0, s1);
        }
        let y = match self.y.sub(r1, &other.y) {
            Ok(v) => v,
            Err(e) => {
                proof {
                    assert(false);
                }
                return Err(e);
            },
        };
        let ghost s2 = *r1;
        proof {
            lemma_num_wf_extend(self.z.num, s1, s2);
            lemma_num_wf_extend(other.z.num, s1, s2);
        }
        let z = match self.z.sub(r1, &other.z) {
            Ok(v) => v,
            Err(e) => {
                proof {
                    assert(false);
                }
                return Err(e);
            },
        };
        proof {
            lemma_num_wf_extend(x.num, s1, s2);
            lemma_num_wf_extend(x.num, s2, *r1);
            lemma_num_wf_extend(y.num, s2, *r1);
            lemma_extends_trans(s0, s1, s2);
            lemma_extends_trans(s0, s2, *r1);
            if r1.witness {
                lemma_holds_range_extend(
                    s1,
                    s2,
                    s0.constraints@.len() as int,
                    s1.constraints@.len() as int,
                );
                lemma_holds_range_extend(
                    s2,
                    *r1,
                    s0.constraints@.len() as int,
                    s2.constraints@.len() as int,
                );
            }
        }
        Ok(AllocatedVec { x, y, z })
    }

    /// Uniform scaling: each component is multiplied by the same fixed-point
    /// scalar, with the truncation range-checked.
    pub fn mul(&self, r1: &mut R1cs, coeff: &AllocatedFloat) -> (r: Result<
        AllocatedVec,
        SynthesisError,
    >)
        requires
            old(r1).wf(),
            self.wf(*old(r1)),
            coeff.wf(*old(r1)),
            old(r1).nvars() + 200 < usize::MAX,
            self.has_values() ==> {
                &&& 0 <= self.values().0 <= 0x8000000000000000
                &&& 0 <= self.values().1 <= 0x8000000000000000
                &&& 0 <= self.values().2 <= 0x8000000000000000
                &&& 0 <= coeff.num.value->0 <= 0x8000000000000000
            },
        ensures
            r is Ok,
            r matches Ok(v) ==> {
                &&& final(r1).wf()
                &&& final(r1).extends(*old(r1))
                &&& v.wf(*final(r1))
                &&& final(r1).nvars() == old(r1).nvars() + 102
                &&& final(r1).constraints@.len() == old(r1).constraints@.len() + 102
                &&& (final(r1).witness ==> v.has_values() && {
                    let c = coeff.num.value->0 as int;
                    v.values() == (
                        shr32(self.values().0 * c),
                        shr32(self.values().1 * c),
                        shr32(self.values().2 * c),
                    )
                } && final(r1).satisfied_from(old(r1).constraints@.len() as int))
                &&& (!final(r1).witness ==> !v.has_values())
            },
    {
        let ghost s0 = *r1;
        let x = match self.x.mul(r1, coeff) {
            Ok(v) => v,
            Err(e) => {
                proof {
                    assert(false);
                }
                return Err(e);
            },
        };
        let ghost s1 = *r1;
        proof {
            lemma_num_wf_extend(self.y.num, s0, s1);
            lemma_num_wf_extend(self.z.num, s0, s1);
            lemma_num_wf_extend(coeff.num, s0, s1);
        }
        let y = match self.y.mul(r1, coeff) {
            Ok(v) => v,
            Err(e) => {
                proof {
                    assert(false);
                }
                return Err(e);
            },
        };
        let ghost s2 = *r1;
        proof {
            lemma_num_wf_extend(self.z.num, s1, s2);
            lemma_num_wf_extend(coeff.num, s1, s2);
        }
        let z = match self.z.mul(r1, coeff) {
            Ok(v) => v,
            Err(e) => {
                proof {
                    assert(false);
                }
                return Err(e);
            },
        };
        proof {
            lemma_num_wf_extend(x.num, s1, s2);
            lemma_num_wf_extend(x.num, s2, *r1);
            lemma_num_wf_extend(y.num, s2, *r1);
            lemma_extends_trans(s0, s1, s2);
            lemma_extends_trans(s0, s2, *r1);
            if r1.witness {
                lemma_holds_range_extend(
                    s1,
                    s2,
                    s0.constraints@.len() as int,
                    s1.constraints@.len() as int,
                );
                assert(holds_range(
                    s2.constraints@,
                    s2.vals@,
                    s0.constraints@.len() as int,
                    s2.constraints@.len() as int,
                ));
                lemma_holds_range_extend(
                    s2,
                    *r1,
                    s0.constraints@.len() as int,
                    s2.constraints@.len() as int,
                );
                assert(holds_range(
                    r1.constraints@,
                    r1.vals@,
                    s0.constraints@.len() as int,
                    s2.constraints@.len() as int,
                ));
                assert forall|i: int|
                    s0.constraints@.len() <= i < r1.constraints@.len() implies crate::r1cs::constraint_holds(
                    #[trigger] r1.constraints@[i],
                    r1.vals@,
                ) by {
                    if i < s2.constraints@.len() {
                    } else {
                        assert(r1.satisfied_from(s2.constraints@.len() as int));
                    }
                }
            }
            assert(r1.nvars() == s0.nvars() + 102);
            assert(r1.constraints@.len() == s0.constraints@.len() + 102);
            assert(x.wf(*r1) && y.wf(*r1) && z.wf(*r1));
            if r1.witness {
                assert(x.num.value is Some && y.num.value is Some && z.num.value is Some);
                let a0 = self.values().0;
                let a1 = self.values().1;
                let a2 = self.values().2;
                let cc = coeff.num.value->0 as int;
                assert(0 <= a0 * cc <= 0x40000000000000000000000000000000 && 0 <= a1 * cc
                    <= 0x40000000000000000000000000000000 && 0 <= a2 * cc
                    <= 0x40000000000000000000000000000000) by (nonlinear_arith)
                    requires
                        0 <= a0 <= 0x8000000000000000,
                        0 <= a1 <= 0x8000000000000000,
                        0 <= a2 <= 0x8000000000000000,
                        0 <= cc <= 0x8000000000000000,
                ;
                lemma_div_pos_is_pos(a0 * cc, 0x100000000);
                lemma_div_pos_is_pos(a1 * cc, 0x100000000);
                lemma_div_pos_is_pos(a2 * cc, 0x100000000);
                lemma_div_nonincreasing(a0 * cc, 0x100000000);
                lemma_div_nonincreasing(a1 * cc, 0x100000000);
                lemma_div_nonincreasing(a2 * cc, 0x100000000);
                assert(x.num.value->0 as int == shr32(
                    self.values().0 * (coeff.num.value->0 as int),
                ));
                assert(y.num.value->0 as int == shr32(
                    self.values().1 * (coeff.num.value->0 as int),
                ));
                assert(z.num.value->0 as int == shr32(
                    self.values().2 * (coeff.num.value->0 as int),
                ));
                assert(r1.satisfied_from(s0.constraints@.len() as int));
            }
        }
        Ok(AllocatedVec { x, y, z })
    }
}

pub open spec fn v_add3(a: (int, int, int), b: (int, int, int)) -> (int, int, int) {
    (a.0 + b.0, a.1 + b.1, a.2 + b.2)
}

pub open spec fn v_sub3(a: (int, int, int), b: (int, int, int)) -> (int, int, int) {
    (a.0 - b.0, a.1 - b.1, a.2 - b.2)
}

pub proof fn lemma_vec_wf_extend(v: AllocatedVec, r1: R1cs, r2: R1cs)
    requires
        v.wf(r1),
        r2.extends(r1),
    ensures
        v.wf(r2),
{
    lemma_num_wf_extend(v.x.num, r1, r2);
    lemma_num_wf_extend(v.y.num, r1, r2);
    lemma_num_wf_extend(v.z.num, r1, r2);
}

/// Chain satisfaction of an accumulated prefix with a newly emitted segment.
pub proof fn lemma_accum(prev: R1cs, cur: R1cs, base: int)
    requires
        prev.wf(),
        cur.extends(prev),
        0 <= base <= prev.constraints@.len(),
        holds_range(prev.constraints@, prev.vals@, base, prev.constraints@.len() as int),
        holds_range(
            cur.constraints@,
            cur.vals@,
            prev.constraints@.len() as int,
            cur.constraints@.len() as int,
        ),
    ensures
        holds_range(cur.constraints@, cur.vals@, base, cur.constraints@.len() as int),
{
    lemma_holds_range_extend(prev, cur, base, prev.constraints@.len() as int);
}

pub proof fn lemma_shr32_bound(p: int, m: int)
    requires
        0 <= p <= m,
    ensures
        0 <= shr32(p) <= m,
{
    lemma_div_pos_is_pos(p, 0x100000000);
    lemma_div_nonincreasing(p, 0x100000000);
}

/// One circuit instance: the scene data for one pixel.  `collision` is the
/// claimed intersection parameter; it is absent exactly once, at
/// parameter-generation time, when the circuit is built only for its shape.
pub struct RayTracer {
    pub ray: Ray,
    pub collision: Option<i128>,
    pub sphere: Sphere,
    pub color: Point,
}

impl Default for RayTracer {
    /// The representative instance used for parameter generation: an
    /// all-zero scene with no claimed intersection.
    fn default() -> (r: RayTracer)
        ensures
            pt(r.sphere.center) == (0int, 0int, 0int),
            r.sphere.radius == 0,
            pt(r.ray.pos) == (0int, 0int, 0int),
            pt(r.ray.dir) == (0int, 0int, 0int),
            r.collision is None,
            pt(r.color) == (0int, 0int, 0int),
    {
        RayTracer {
            ray: Ray { pos: Point::zero(), dir: Point::zero() },
            collision: None,
            sphere: Sphere { center: Point::zero(), radius: 0 },
            color: Point::zero(),
        }
    }
}

/// Gadget handles for the values the circuit makes available for diagnostic
/// output once a concrete witness is present.
pub struct SynthTrace {
    pub isect: AllocatedVec,
    pub dist: AllocatedFloat,
}

/// All scene magnitudes within the supported fixed-point envelope
/// (coordinates of at most `2^13` in real terms).
pub open spec fn envelope(rt: RayTracer) -> bool {
    &&& bounded(pt(rt.sphere.center), 0x200000000000)
    &&& -0x200000000000 <= rt.sphere.radius <= 0x200000000000
    &&& bounded(pt(rt.ray.pos), 0x200000000000)
    &&& bounded(pt(rt.ray.dir), 0x200000000000)
    &&& (rt.collision matches Some(t) ==> -0x200000000000 <= t <= 0x200000000000)
}

impl RayTracer {
    /// Build the constraint graph for this instance: allocate the sphere
    /// center and radius, the ray, and the claimed parameter `t` (zero when no
    /// witness is supplied); compute `isect = pos + dir * t` and the squared
    /// distance from the sphere center to the ray origin.  The emitted
    /// constraints are always satisfied by the witness the gadgets compute;
    /// the graph shape does not depend on the instance's values.
    pub fn synthesize(&self, r1: &mut R1cs) -> (r: Result<SynthTrace, SynthesisError>)
        requires
            old(r1).wf(),
            old(r1).nvars() + 1000 < usize::MAX,
            envelope(*self),
        ensures
            r is Ok,
            r matches Ok(tr) ==> {
                &&& final(r1).wf()
                &&& final(r1).extends(*old(r1))
                &&& final(r1).nvars() == old(r1).nvars() + 223
                &&& final(r1).constraints@.len() == old(r1).constraints@.len() + 223
                &&& tr.dist.wf(*final(r1))
                &&& tr.isect.wf(*final(r1))
                &&& (final(r1).witness ==> {
                    let t = match self.collision {
                        Some(c) => c as int,
                        None => 0,
                    };
                    &&& final(r1).satisfied_from(old(r1).constraints@.len() as int)
                    &&& tr.dist.num.value matches Some(d) && d as int == dist_sq_val(
                        pt(self.sphere.center),
                        pt(self.ray.pos),
                    )
                    &&& tr.isect.has_values()
                    &&& tr.isect.values() == (
                        isect_coord(pt(self.ray.pos).0, pt(self.ray.dir).0, t),
                        isect_coord(pt(self.ray.pos).1, pt(self.ray.dir).1, t),
                        isect_coord(pt(self.ray.pos).2, pt(self.ray.dir).2, t),
                    )
                })
            },
    {
        let ghost s0 = *r1;
        let ghost base = s0.constraints@.len() as int;
        let sphere_center = AllocatedVec::allocate(r1, self.sphere.center)?;
        let ghost s1 = *r1;
        let _sphere_radius = AllocatedFloat::allocate(
            r1,
            clamp64(self.sphere.radius),
        )?;
        let ghost s2 = *r1;
        let ray_pos = AllocatedVec::allocate(r1, self.ray.pos)?;
        let ghost s3 = *r1;
        let ray_dir = AllocatedVec::allocate(r1, self.ray.dir)?;
        let ghost s4 = *r1;
        let t_raw: i128 = match self.collision {
            Some(c) => c,
            None => 0,
        };
        let f = AllocatedFloat::allocate(r1, clamp64(t_raw))?;
        let ghost s5 = *r1;
        proof {
            lemma_extends_trans(s0, s1, s2);
            lemma_extends_trans(s0, s2, s3);
            lemma_extends_trans(s0, s3, s4);
            lemma_extends_trans(s0, s4, s5);
            lemma_vec_wf_extend(sphere_center, s1, s2);
            lemma_vec_wf_extend(sphere_center, s2, s3);
            lemma_vec_wf_extend(sphere_center, s3, s4);
            lemma_vec_wf_extend(sphere_center, s4, s5);
            lemma_vec_wf_extend(ray_pos, s3, s4);
            lemma_vec_wf_extend(ray_pos, s4, s5);
            lemma_vec_wf_extend(ray_dir, s4, s5);
            if r1.witness {
                lemma_accum(s1, s2, base);
                lemma_accum(s2, s3, base);
                lemma_accum(s3, s4, base);
                lemma_accum(s4, s5, base);
            }
        }
        let mulv = ray_dir.mul(r1, &f)?;
        let ghost s6 = *r1;
        proof {
            lemma_extends_trans(s0, s5, s6);
            lemma_vec_wf_extend(ray_pos, s5, s6);
            lemma_vec_wf_extend(sphere_center, s5, s6);
            if r1.witness {
                assert(holds_range(
                    s6.constraints@,
                    s6.vals@,
                    s5.constraints@.len() as int,
                    s6.constraints@.len() as int,
                ));
                lemma_accum(s5, s6, base);
                let dirv = ray_dir.values();
                let tv = f.num.value->0 as int;
                assert(0 <= dirv.0 * tv <= 0x40000000000000000000000000 && 0 <= dirv.1 * tv
                    <= 0x40000000000000000000000000 && 0 <= dirv.2 * tv
                    <= 0x40000000000000000000000000) by (nonlinear_arith)
                    requires
                        0 <= dirv.0 <= 0x200000000000,
                        0 <= dirv.1 <= 0x200000000000,
                        0 <= dirv.2 <= 0x200000000000,
                        0 <= tv <= 0x200000000000,
                ;
                lemma_shr32_bound(dirv.0 * tv, 0x40000000000000000000000000);
                lemma_shr32_bound(dirv.1 * tv, 0x40000000000000000000000000);
                lemma_shr32_bound(dirv.2 * tv, 0x40000000000000000000000000);
            }
        }
        let isect = ray_pos.add(r1, &mulv)?;
        let ghost s7 = *r1;
        proof {
            lemma_extends_trans(s0, s6, s7);
            lemma_vec_wf_extend(sphere_center, s6, s7);
            lemma_vec_wf_extend(ray_pos, s6, s7);
            if r1.witness {
                lemma_accum(s6, s7, base);
            }
        }
        let delta = sphere_center.sub(r1, &ray_pos)?;
        let ghost s8 = *r1;
        proof {
            lemma_extends_trans(s0, s7, s8);
            lemma_vec_wf_extend(isect, s7, s8);
            if r1.witness {
                lemma_accum(s7, s8, base);
                let d = delta.values();
                assert(0 <= d.0 * d.0 <= 0x10000000000000000000000000 && 0 <= d.1 * d.1
                    <= 0x10000000000000000000000000 && 0 <= d.2 * d.2
                    <= 0x10000000000000000000000000) by (nonlinear_arith)
                    requires
                        -0x200000000000 <= d.0 <= 0x200000000000,
                        -0x200000000000 <= d.1 <= 0x200000000000,
                        -0x200000000000 <= d.2 <= 0x200000000000,
                ;
                lemma_shr32_bound(d.0 * d.0, 0x10000000000000000000000000);
                lemma_shr32_bound(d.1 * d.1, 0x10000000000000000000000000);
                lemma_shr32_bound(d.2 * d.2, 0x10000000000000000000000000);
            }
        }
        let dx2 = delta.x.mul(r1, &delta.x)?;
        let ghost s9 = *r1;
        proof {
            lemma_extends_trans(s0, s8, s9);
            lemma_vec_wf_extend(isect, s8, s9);
            lemma_vec_wf_extend(delta, s8, s9);
            if r1.witness {
                assert(holds_range(
                    s9.constraints@,
                    s9.vals@,
                    s8.constraints@.len() as int,
                    s9.constraints@.len() as int,
                ));
                lemma_accum(s8, s9, base);
            }
        }
        let dy2 = delta.y.mul(r1, &delta.y)?;
        let ghost s10 = *r1;
        proof {
            lemma_extends_trans(s0, s9, s10);
            lemma_vec_wf_extend(isect, s9, s10);
            lemma_vec_wf_extend(delta, s9, s10);
            lemma_num_wf_extend(dx2.num, s9, s10);
            if r1.witness {
                assert(holds_range(
                    s10.constraints@,
                    s10.vals@,
                    s9.constraints@.len() as int,
                    s10.constraints@.len() as int,
                ));
                lemma_accum(s9, s10, base);
            }
        }
        let dz2 = delta.z.mul(r1, &delta.z)?;
        let ghost s11 = *r1;
        proof {
            lemma_extends_trans(s0, s10, s11);
            lemma_vec_wf_extend(isect, s10, s11);
            lemma_num_wf_extend(dx2.num, s10, s11);
            lemma_num_wf_extend(dy2.num, s10, s11);
            if r1.witness {
                assert(holds_range(
                    s11.constraints@,
                    s11.vals@,
                    s10.constraints@.len() as int,
                    s11.constraints@.len() as int,
                ));
                lemma_accum(s10, s11, base);
                let d = delta.values();
                assert(0 <= d.0 * d.0 && 0 <= d.1 * d.1 && 0 <= d.2 * d.2) by (nonlinear_arith);
            }
        }
        let dist0 = dx2.add(r1, &dy2)?;
        let ghost s12 = *r1;
        proof {
            lemma_extends_trans(s0, s11, s12);
            lemma_vec_wf_extend(isect, s11, s12);
            lemma_num_wf_extend(dz2.num, s11, s12);
            if r1.witness {
                lemma_accum(s11, s12, base);
            }
        }
        let dist = dist0.add(r1, &dz2)?;
        proof {
            lemma_extends_trans(s0, s12, *r1);
            lemma_vec_wf_extend(isect, s12, *r1);
            if r1.witness {
                lemma_accum(s12, *r1, base);
            }
        }
        Ok(SynthTrace { isect, dist })
    }
}

/// The product of `v0` with the first `k` elements of a path of witness
/// values.
pub open spec fn chain_val(v0: int, elems: Seq<Num>, k: int) -> int
    decreases k,
{
    if k <= 0 {
        v0
    } else {
        chain_val(v0, elems, k - 1) * (elems[k - 1].value->0 as int)
    }
}

/// A toy two-to-one hash inside the constraint system: the field product of
/// its inputs.
pub fn hash(r1: &mut R1cs, a: &Num, b: &Num) -> (r: Result<Num, SynthesisError>)
    requires
        old(r1).wf(),
        a.wf(*old(r1)),
        b.wf(*old(r1)),
        old(r1).nvars() < usize::MAX,
        a.value matches Some(x) ==> (b.value matches Some(y) ==> (-0x8000000000000000 <= x
            <= 0x8000000000000000 && -0x8000000000000000 <= y <= 0x8000000000000000)),
    ensures
        r is Ok,
        r matches Ok(n) ==> {
            &&& final(r1).wf()
            &&& final(r1).extends(*old(r1))
            &&& n.wf(*final(r1))
            &&& final(r1).nvars() == old(r1).nvars() + 1
            &&& final(r1).constraints@.len() == old(r1).constraints@.len() + 1
            &&& (final(r1).witness ==> (a.value matches Some(x) && b.value matches Some(y)
                && n.value == Some((x * y) as i128) && final(r1).satisfied_from(
                old(r1).constraints@.len() as int,
            )))
        },
{
    let n = a.mul(r1, b);
    Ok(n)
}

/// Walk a claimed authentication path by repeated in-circuit hashing and
/// enforce that the result equals the claimed root.  The closing equality
/// constraint is satisfied exactly when the root value is the chained
/// product.
pub fn check_proof(
    r1: &mut R1cs,
    value: &Num,
    path: &Vec<Num>,
    root: &Num,
    _index: Num,
) -> (r: Result<(), SynthesisError>)
    requires
        old(r1).wf(),
        value.wf(*old(r1)),
        root.wf(*old(r1)),
        forall|i: int| 0 <= i < path@.len() ==> (#[trigger] path@[i]).wf(*old(r1)),
        old(r1).nvars() + path@.len() + 2 < usize::MAX,
        old(r1).witness ==> {
            &&& forall|k: int|
                0 <= k <= path@.len() ==> -0x8000000000000000 <= #[trigger] chain_val(
                    value.value->0 as int,
                    path@,
                    k,
                ) <= 0x8000000000000000
            &&& forall|i: int|
                0 <= i < path@.len() ==> -0x8000000000000000 <= (#[trigger] path@[i]).value->0
                    <= 0x8000000000000000
        },
    ensures
        r is Ok,
        final(r1).wf(),
        final(r1).extends(*old(r1)),
        final(r1).nvars() == old(r1).nvars() + path@.len(),
        final(r1).constraints@.len() == old(r1).constraints@.len() + path@.len() + 1,
        final(r1).witness ==> (final(r1).satisfied_from(old(r1).constraints@.len() as int) <==> (
        root.value->0 as int) == chain_val(value.value->0 as int, path@, path@.len() as int)),
{
    let ghost s0 = *r1;
    let ghost base = s0.constraints@.len() as int;
    let mut curr: Num = *value;
    let mut i: usize = 0;
    while i < path.len()
        invariant
            s0 == *old(r1),
            base == s0.constraints@.len() as int,
            s0.wf(),
            r1.wf(),
            r1.extends(s0),
            i <= path@.len(),
            s0.nvars() + path@.len() + 2 < usize::MAX,
            r1.nvars() == s0.nvars() + i,
            r1.constraints@.len() == s0.constraints@.len() + i,
            curr.wf(*r1),
            root.wf(*r1),
            forall|j: int| 0 <= j < path@.len() ==> (#[trigger] path@[j]).wf(*r1),
            s0.witness ==> {
                &&& forall|k: int|
                    0 <= k <= path@.len() ==> -0x8000000000000000 <= #[trigger] chain_val(
                        value.value->0 as int,
                        path@,
                        k,
                    ) <= 0x8000000000000000
                &&& forall|j: int|
                    0 <= j < path@.len() ==> -0x8000000000000000 <= (#[trigger] path@[j]).value->0
                        <= 0x8000000000000000
                &&& curr.value->0 as int == chain_val(value.value->0 as int, path@, i as int)
                &&& holds_range(r1.constraints@, r1.vals@, base, base + i)
            },
        decreases path@.len() - i,
    {
        let p = path[i];
        let ghost pre = *r1;
        let next = curr.mul(r1, &p);
        proof {
            assert forall|j: int| 0 <= j < path@.len() implies (#[trigger] path@[j]).wf(*r1) by {
                lemma_num_wf_extend(path@[j], pre, *r1);
            }
            lemma_num_wf_extend(*root, pre, *r1);
            if r1.witness {
                lemma_holds_range_extend(pre, *r1, base, base + i);
                let a = chain_val(value.value->0 as int, path@, i as int);
                let b = path@[i as int].value->0 as int;
                assert(chain_val(value.value->0 as int, path@, i + 1) == a * b);
                assert(-0x40000000000000000000000000000000 <= a * b
                    <= 0x40000000000000000000000000000000) by (nonlinear_arith)
                    requires
                        -0x8000000000000000 <= a <= 0x8000000000000000,
                        -0x8000000000000000 <= b <= 0x8000000000000000,
                ;
            }
        }
        curr = next;
        i = i + 1;
    }
    let a_lc = crate::r1cs::Lc::single(root.var, 1);
    let b_lc = crate::r1cs::Lc::single(0, 1);
    let c_lc = crate::r1cs::Lc::single(curr.var, 1);
    let ghost mid = *r1;
    r1.enforce(a_lc, b_lc, c_lc);
    proof {
        lemma_extends_trans(s0, mid, *r1);
        if r1.witness {
            let cn = r1.constraints@.last();
            crate::float::lemma_lc_eval1((root.var, 1i128), r1.vals@);
            crate::float::lemma_lc_eval1((0usize, 1i128), r1.vals@);
            crate::float::lemma_lc_eval1((curr.var, 1i128), r1.vals@);
            let rv = root.value->0 as int;
            let cv = curr.value->0 as int;
            assert(crate::r1cs::lc_eval(cn.a@, r1.vals@) == 1 * rv);
            assert(crate::r1cs::lc_eval(cn.b@, r1.vals@) == 1 * 1);
            assert(crate::r1cs::lc_eval(cn.c@, r1.vals@) == 1 * cv);
            assert((1 * rv) * (1 * 1) == rv) by (nonlinear_arith);
            assert(crate::r1cs::constraint_holds(cn, r1.vals@) <==> rv == cv);
            lemma_holds_range_extend(mid, *r1, base, base + path@.len());
            assert(holds_range(r1.constraints@, r1.vals@, base, base + path@.len()));
            if rv == cv {
                assert forall|j: int| base <= j < r1.constraints@.len() implies crate::r1cs::constraint_holds(
                    #[trigger] r1.constraints@[j],
                    r1.vals@,
                ) by {
                    if j == r1.constraints@.len() - 1 {
                    }
                }
            }
        }
    }
    Ok(())
}

} // verus!
