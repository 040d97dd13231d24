// End-to-end checks against the real proving backend: the library's
// constraint data is replayed into bellman, parameters are generated from the
// shape-only instance, and per-pixel proofs are created and verified.

use bellman::groth16::{
    create_random_proof, generate_random_parameters, prepare_verifying_key, verify_proof,
};
use bellman::{Circuit, ConstraintSystem, SynthesisError};
use bls12_381::{Bls12, Scalar};
use zkrt::geometry::Point;
use zkrt::r1cs::R1cs;
use zkrt::render::render_scene;
use zkrt::tracer::RayTracer;

const ONE: i128 = 1 << 32;

fn u128_to_scalar(v: u128) -> Scalar {
    let two32 = Scalar::from(1u64 << 32);
    Scalar::from((v >> 64) as u64) * two32 * two32 + Scalar::from(v as u64)
}

fn to_scalar(v: i128) -> Scalar {
    if v >= 0 {
        u128_to_scalar(v as u128)
    } else {
        -u128_to_scalar((-v) as u128)
    }
}

struct Replay {
    r: R1cs,
}

impl Circuit<Scalar> for Replay {
    fn synthesize<CS: ConstraintSystem<Scalar>>(self, cs: &mut CS) -> Result<(), SynthesisError> {
        let mut vars = vec![CS::one()];
        for i in 1..self.r.vals.len() {
            let val = if self.r.witness {
                Some(to_scalar(self.r.vals[i]))
            } else {
                None
            };
            let var = cs.alloc(|| "v", || val.ok_or(SynthesisError::AssignmentMissing))?;
            vars.push(var);
        }
        for c in &self.r.constraints {
            let a = c.a.terms.clone();
            let b = c.b.terms.clone();
            let cc = c.c.terms.clone();
            cs.enforce(
                || "c",
                |mut lc| {
                    for (v, k) in &a {
                        lc = lc + (to_scalar(*k), vars[*v]);
                    }
                    lc
                },
                |mut lc| {
                    for (v, k) in &b {
                        lc = lc + (to_scalar(*k), vars[*v]);
                    }
                    lc
                },
                |mut lc| {
                    for (v, k) in &cc {
                        lc = lc + (to_scalar(*k), vars[*v]);
                    }
                    lc
                },
            );
        }
        Ok(())
    }
}

fn scene() -> (Point, Point, zkrt::geometry::Sphere) {
    (
        Point::new(0, 50 * ONE, -100 * ONE),
        Point::zero(),
        zkrt::geometry::Sphere { center: Point::new(0, 30 * ONE, 0), radius: 30 * ONE },
    )
}

fn setup_circuit() -> R1cs {
    let mut cs = R1cs::new(false);
    RayTracer::default().synthesize(&mut cs).unwrap();
    cs
}

fn witness_circuit(rt: &RayTracer) -> R1cs {
    let mut cs = R1cs::new(true);
    rt.synthesize(&mut cs).unwrap();
    assert_eq!(cs.is_satisfied(), Some(true));
    cs
}

// Proof side, on a reduced grid: every pixel of a 4x4 render yields an
// independent proof that verifies against an empty public-input list.
#[test]
fn prove_small_grid() {
    let mut rng = rand::thread_rng();
    let params = generate_random_parameters::<Bls12, _, _>(Replay { r: setup_circuit() }, &mut rng)
        .unwrap();
    let pvk = prepare_verifying_key(&params.vk);
    let (cam, lookat, sphere) = scene();
    let out = render_scene(4, 4, cam, lookat, sphere).unwrap();
    let mut proved = 0;
    for rt in &out.circuits {
        let proof = create_random_proof(Replay { r: witness_circuit(rt) }, &params, &mut rng)
            .unwrap();
        assert!(verify_proof(&pvk, &proof, &[]).is_ok());
        proved += 1;
    }
    assert_eq!(proved, 16);
}

// The parameter-generation circuit and every proving circuit share one
// constraint graph: bellman would reject the proofs otherwise, and the
// constraint lists agree shape-for-shape.
#[test]
fn shape_is_instance_independent() {
    let setup = setup_circuit();
    let (cam, lookat, sphere) = scene();
    let out = render_scene(2, 2, cam, lookat, sphere).unwrap();
    for rt in &out.circuits {
        let w = witness_circuit(rt);
        assert_eq!(w.constraints.len(), setup.constraints.len());
        assert_eq!(w.vals.len(), setup.vals.len());
        for (cw, cs_) in w.constraints.iter().zip(setup.constraints.iter()) {
            assert_eq!(cw.a.terms, cs_.a.terms);
            assert_eq!(cw.b.terms, cs_.b.terms);
            assert_eq!(cw.c.terms, cs_.c.terms);
        }
    }
}

// Blinding independence: proving the same witness twice with fresh randomness yields two proofs
// that both verify — validity is independent of the blinding.
#[test]
fn reproving_verifies() {
    let mut rng = rand::thread_rng();
    let params = generate_random_parameters::<Bls12, _, _>(Replay { r: setup_circuit() }, &mut rng)
        .unwrap();
    let pvk = prepare_verifying_key(&params.vk);
    let (cam, lookat, sphere) = scene();
    let out = render_scene(1, 1, cam, lookat, sphere).unwrap();
    let rt = &out.circuits[0];
    let p1 = create_random_proof(Replay { r: witness_circuit(rt) }, &params, &mut rng).unwrap();
    let p2 = create_random_proof(Replay { r: witness_circuit(rt) }, &params, &mut rng).unwrap();
    assert!(verify_proof(&pvk, &p1, &[]).is_ok());
    assert!(verify_proof(&pvk, &p2, &[]).is_ok());
    assert_ne!(p1, p2);
}

// A tampered witness no longer satisfies the constraints, and the in-library
// checker agrees with what bellman would reject.
#[test]
fn tampered_witness_unsatisfied() {
    let (cam, lookat, sphere) = scene();
    let out = render_scene(1, 1, cam, lookat, sphere).unwrap();
    let mut cs = witness_circuit(&out.circuits[0]);
    let last = cs.vals.len() - 1;
    cs.vals[last] += 1;
    assert_eq!(cs.is_satisfied(), Some(false));
}

