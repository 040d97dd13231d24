use zkrt::float::{assert_num_bits, AllocatedFloat};
use zkrt::r1cs::{Lc, R1cs};

const ONE: i128 = 1 << 32;

// Round trip: allocating two values and adding them decodes to the exact sum.
#[test]
fn add_round_trip() {
    let mut r1 = R1cs::new(true);
    let a = AllocatedFloat::allocate(&mut r1, (3 * ONE) as u64).unwrap();
    let b = AllocatedFloat::allocate(&mut r1, (5 * ONE) as u64 + 12345).unwrap();
    let c = a.add(&mut r1, &b).unwrap();
    assert_eq!(c.num.value, Some(8 * ONE + 12345));
    assert_eq!(r1.is_satisfied(), Some(true));
}

#[test]
fn sub_exact() {
    let mut r1 = R1cs::new(true);
    let a = AllocatedFloat::allocate(&mut r1, (30 * ONE) as u64).unwrap();
    let b = AllocatedFloat::allocate(&mut r1, (50 * ONE) as u64).unwrap();
    let c = a.sub(&mut r1, &b).unwrap();
    // negative differences keep their sign in the integer representative
    assert_eq!(c.num.value, Some(-20 * ONE));
    assert_eq!(r1.is_satisfied(), Some(true));
}

// Multiplication correctness: it decodes to the truncated fixed-point product.
#[test]
fn mul_truncates() {
    let mut r1 = R1cs::new(true);
    // 2.5 * 4.25 = 10.625
    let a_enc = (5 * ONE / 2) as u64;
    let b_enc = (17 * ONE / 4) as u64;
    let a = AllocatedFloat::allocate(&mut r1, a_enc).unwrap();
    let b = AllocatedFloat::allocate(&mut r1, b_enc).unwrap();
    let c = a.mul(&mut r1, &b).unwrap();
    let expected = ((a_enc as i128) * (b_enc as i128)) >> 32;
    assert_eq!(c.num.value, Some(expected));
    assert_eq!(expected, 10 * ONE + ONE * 5 / 8);
    assert_eq!(r1.is_satisfied(), Some(true));
}

// Truncation soundness: substituting a quotient whose implied remainder falls outside
// [0, 2^32) leaves the range check unsatisfiable.
#[test]
fn mul_rejects_bad_quotient() {
    let mut r1 = R1cs::new(true);
    let a = AllocatedFloat::allocate(&mut r1, (3 * ONE) as u64).unwrap();
    let b = AllocatedFloat::allocate(&mut r1, (7 * ONE) as u64).unwrap();
    let c = a.mul(&mut r1, &b).unwrap();
    assert_eq!(r1.is_satisfied(), Some(true));
    // tamper with the witness: claim a quotient one too small
    let var = c.num.var;
    r1.vals[var] -= 1;
    assert_eq!(r1.is_satisfied(), Some(false));
}

// Range-check totality: every k in [0, 2^n) decomposes and satisfies the emitted constraints.
#[test]
fn range_check_accepts_small() {
    for k in [0u64, 1, 2, 3, 15, 255, 0xffff_fffe, 0xffff_ffff] {
        let mut r1 = R1cs::new(true);
        let v = AllocatedFloat::allocate(&mut r1, k).unwrap();
        let lc = Lc::single(v.num.var, 1);
        assert_num_bits(&mut r1, lc, Some(k), 32).unwrap();
        assert_eq!(r1.is_satisfied(), Some(true), "k = {k}");
    }
    // exhaustively for a small width: every k in [0, 2^4)
    for k in 0u64..16 {
        let mut r1 = R1cs::new(true);
        let v = AllocatedFloat::allocate(&mut r1, k).unwrap();
        let lc = Lc::single(v.num.var, 1);
        assert_num_bits(&mut r1, lc, Some(k), 4).unwrap();
        assert_eq!(r1.is_satisfied(), Some(true), "k = {k}");
    }
}

// Range-check totality, the other side: for k >= 2^n no bit assignment satisfies the closing equality.
#[test]
fn range_check_rejects_large() {
    for k in [0x1_0000_0000u64, 0x1_0000_0001, 0xffff_ffff_ffff_ffff] {
        let mut r1 = R1cs::new(true);
        let v = AllocatedFloat::allocate(&mut r1, k).unwrap();
        let lc = Lc::single(v.num.var, 1);
        assert_num_bits(&mut r1, lc, Some(k), 32).unwrap();
        assert_eq!(r1.is_satisfied(), Some(false), "k = {k}");
    }
    for k in 16u64..40 {
        let mut r1 = R1cs::new(true);
        let v = AllocatedFloat::allocate(&mut r1, k).unwrap();
        let lc = Lc::single(v.num.var, 1);
        assert_num_bits(&mut r1, lc, Some(k), 4).unwrap();
        assert_eq!(r1.is_satisfied(), Some(false), "k = {k}");
    }
}

// The range check reports the assignment-missing failure when asked to
// decompose an absent value while building a proof.
#[test]
fn range_check_missing_value() {
    let mut r1 = R1cs::new(true);
    let v = AllocatedFloat::allocate(&mut r1, 7).unwrap();
    let lc = Lc::single(v.num.var, 1);
    assert!(assert_num_bits(&mut r1, lc, None, 32).is_err());
}

// Parameter-generation mode builds the same shape without values.
#[test]
fn setup_mode_shape_matches() {
    let mut setup = R1cs::new(false);
    let mut prove = R1cs::new(true);
    let a0 = AllocatedFloat::allocate(&mut setup, 0).unwrap();
    let b0 = AllocatedFloat::allocate(&mut setup, 0).unwrap();
    let _ = a0.mul(&mut setup, &b0).unwrap();
    let a1 = AllocatedFloat::allocate(&mut prove, (9 * ONE) as u64).unwrap();
    let b1 = AllocatedFloat::allocate(&mut prove, (11 * ONE) as u64).unwrap();
    let c1 = a1.mul(&mut prove, &b1).unwrap();
    assert!(a0.num.value.is_none());
    assert!(c1.num.value.is_some());
    assert_eq!(setup.constraints.len(), prove.constraints.len());
    assert_eq!(setup.vals.len(), prove.vals.len());
}

// The diagnostic decoding renders the scaled value in decimal, and is absent
// at parameter-generation time.
#[test]
fn to_string_decodes() {
    let mut r1 = R1cs::new(true);
    let a = AllocatedFloat::allocate(&mut r1, (5 * ONE / 2) as u64).unwrap();
    assert_eq!(a.to_string().unwrap(), "2.500000000");
    let z = AllocatedFloat::allocate(&mut r1, 0).unwrap();
    assert_eq!(z.to_string().unwrap(), "0.000000000");
    let q = AllocatedFloat::allocate(&mut r1, ONE as u64 / 4).unwrap();
    assert_eq!(q.to_string().unwrap(), "0.250000000");
    let mut setup = R1cs::new(false);
    let n = AllocatedFloat::allocate(&mut setup, 7).unwrap();
    assert!(n.to_string().is_none());
}
