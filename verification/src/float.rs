//! Fixed-point scalar gadget and the bit-decomposition range check.
//!
//! A real number `r` is carried inside the constraint system as the field
//! element `round(r * 2^32)`.  Addition and subtraction are exact; a product
//! of two such values is scaled by `2^64` and must be truncated back, which is
//! where the range check earns its keep: the single algebraic equality
//! `product - result * 2^32 == sum of 32 boolean-constrained bits` both pins
//! the truncated result and stops a prover from smuggling in an out-of-range
//! remainder.

use vstd::prelude::*;
use vstd::string::StringExecFns;
use vstd::arithmetic::power2::{pow2, lemma2_to64, lemma2_to64_rest, lemma_pow2_pos, lemma_pow2_unfold};
use vstd::arithmetic::div_mod::{
    lemma_fundamental_div_mod,
    lemma_fundamental_div_mod_converse,
    lemma_mod_bound,
    lemma_small_mod,
};
use crate::r1cs::{
    constraint_holds,
    constraint_wf,
    lc_eval,
    lc_wf,
    lemma_lc_eval_extend,
    Constraint,
    Lc,
    R1cs,
    SynthesisError,
};

verus! {

/// All constraints with index in `[lo, hi)` hold under `vals`.
pub open spec fn holds_range(cs: Seq<Constraint>, vals: Seq<i128>, lo: int, hi: int) -> bool {
    forall|i: int| lo <= i < hi ==> constraint_holds(#[trigger] cs[i], vals)
}

/// The boolean constraint `(1 - x) * x = 0` on variable `bv`, exactly as the
/// external engine's boolean allocation emits it.
pub open spec fn is_bool_shape(c: Constraint, bv: int) -> bool {
    &&& c.a@.len() == 2
    &&& c.a@[0].0 as int == 0 && c.a@[0].1 == 1i128
    &&& c.a@[1].0 as int == bv && c.a@[1].1 == -1i128
    &&& c.b@.len() == 1 && c.b@[0].0 as int == bv && c.b@[0].1 == 1i128
    &&& c.c@.len() == 0
}

/// The constraint `(sum of 2^j * bit_j) * 1 = v` closing a range check over
/// the `n` bit variables starting at `start`.
pub open spec fn is_bitsum_shape(c: Constraint, start: int, n: nat, v: Seq<(usize, i128)>) -> bool {
    &&& c.a@.len() == n
    &&& forall|j: int|
        0 <= j < n ==> (#[trigger] c.a@[j]).0 as int == start + j && c.a@[j].1 as int == pow2(
            j as nat,
        )
    &&& c.b@.len() == 1 && c.b@[0].0 as int == 0 && c.b@[0].1 == 1i128
    &&& c.c@ == v
}

/// The full shape a range check of width `n` leaves in the constraint list,
/// starting at constraint `k0` with bit variables starting at `start`.
pub open spec fn range_check_emitted(
    cs: Seq<Constraint>,
    k0: int,
    start: int,
    n: nat,
    v: Seq<(usize, i128)>,
) -> bool {
    &&& 0 <= k0 && k0 + n + 1 <= cs.len()
    &&& 0 <= start
    &&& forall|j: int| 0 <= j < n ==> is_bool_shape(#[trigger] cs[k0 + j], start + j)
    &&& is_bitsum_shape(cs[k0 + n], start, n, v)
}

/// Bit `i` of `k`, as a field value.
pub open spec fn bit_val(k: u64, i: nat) -> i128 {
    if ((k as nat) / pow2(i)) % 2 == 1 {
        1i128
    } else {
        0i128
    }
}

/// The weighted sum of the low `n` bits of `k`.
pub open spec fn bits_sum(k: u64, n: nat) -> int
    decreases n,
{
    if n == 0 {
        0
    } else {
        bits_sum(k, (n - 1) as nat) + bit_val(k, (n - 1) as nat) * pow2((n - 1) as nat)
    }
}

pub proof fn lemma_lc_eval1(t0: (usize, i128), vals: Seq<i128>)
    ensures
        lc_eval(seq![t0], vals) == t0.1 * vals[t0.0 as int],
{
    let s = seq![t0];
    assert(s.last() == t0);
    assert(s.drop_last() =~= Seq::<(usize, i128)>::empty());
    assert(lc_eval(s.drop_last(), vals) == 0);
}

pub proof fn lemma_lc_eval2(t0: (usize, i128), t1: (usize, i128), vals: Seq<i128>)
    ensures
        lc_eval(seq![t0, t1], vals) == t0.1 * vals[t0.0 as int] + t1.1 * vals[t1.0 as int],
{
    let s = seq![t0, t1];
    assert(s.last() == t1);
    assert(s.drop_last() =~= seq![t0]);
    lemma_lc_eval1(t0, vals);
}

/// The weighted bit sum reproduces `k` modulo `2^n`.
pub proof fn lemma_bits_sum_is_mod(k: u64, n: nat)
    ensures
        bits_sum(k, n) == (k as int) % (pow2(n) as int),
    decreases n,
{
    if n == 0 {
        assert(pow2(0) == 1) by {
            lemma2_to64();
        }
        assert((k as int) % 1 == 0) by {
            lemma_fundamental_div_mod(k as int, 1);
        }
    } else {
        let m = pow2((n - 1) as nat) as int;
        lemma_pow2_pos((n - 1) as nat);
        lemma_pow2_unfold(n);
        lemma_bits_sum_is_mod(k, (n - 1) as nat);
        let q = (k as int) / m;
        let r = (k as int) % m;
        lemma_fundamental_div_mod(k as int, m);
        lemma_mod_bound(k as int, m);
        lemma_fundamental_div_mod(q, 2);
        lemma_mod_bound(q, 2);
        assert(q >= 0) by (nonlinear_arith)
            requires
                k as int == m * q + r,
                m > 0,
                0 <= r < m,
                k >= 0,
        ;
        let b = q % 2;
        assert(bit_val(k, (n - 1) as nat) == b) by {
            assert((k as nat) / pow2((n - 1) as nat) == q);
        }
        assert(k as int == (2 * m) * (q / 2) + (b * m + r)) by (nonlinear_arith)
            requires
                k as int == m * q + r,
                q == 2 * (q / 2) + b,
        ;
        assert(0 <= b * m + r < 2 * m) by (nonlinear_arith)
            requires
                0 <= b <= 1,
                0 <= r < m,
        ;
        lemma_fundamental_div_mod_converse(k as int, 2 * m, q / 2, b * m + r);
        assert(pow2(n) as int == 2 * m);
        assert(bits_sum(k, n) == r + b * m);
    }
}

/// A sum of boolean-valued variables weighted by successive powers of two is
/// bounded by `2^n`.
proof fn lemma_bounded_bitsum(terms: Seq<(usize, i128)>, vals: Seq<i128>, start: int, n: nat)
    requires
        terms.len() == n,
        0 <= start,
        start + n <= vals.len(),
        forall|j: int|
            0 <= j < n ==> (#[trigger] terms[j]).0 as int == start + j && terms[j].1 as int == pow2(
                j as nat,
            ),
        forall|j: int| 0 <= j < n ==> vals[start + j] == 0 || #[trigger] vals[start + j] == 1,
    ensures
        0 <= lc_eval(terms, vals) < pow2(n),
    decreases n,
{
    lemma_pow2_pos(n);
    if n == 0 {
    } else {
        let prev = terms.drop_last();
        lemma_bounded_bitsum(prev, vals, start, (n - 1) as nat);
        lemma_pow2_unfold(n);
        let t = terms.last();
        let x = vals[t.0 as int];
        assert(x == 0 || x == 1);
        assert(t.1 as int == pow2((n - 1) as nat));
        assert(lc_eval(terms, vals) == lc_eval(prev, vals) + t.1 * x);
        assert(0 <= t.1 * x <= pow2((n - 1) as nat)) by (nonlinear_arith)
            requires
                x == 0 || x == 1,
                t.1 as int == pow2((n - 1) as nat),
                pow2((n - 1) as nat) > 0,
        ;
    }
}

/// Soundness of the range check: any assignment under which the emitted
/// constraints hold gives the checked combination a value in `[0, 2^n)`.
/// In particular no assignment at all satisfies them when the combination's
/// value is `2^n` or larger.
pub proof fn lemma_range_check_sound(
    cs: Seq<Constraint>,
    vals: Seq<i128>,
    k0: int,
    start: int,
    n: nat,
    v: Seq<(usize, i128)>,
)
    requires
        range_check_emitted(cs, k0, start, n, v),
        start + n <= vals.len(),
        vals.len() >= 1,
        vals[0] == 1,
        holds_range(cs, vals, k0, k0 + n + 1),
    ensures
        0 <= lc_eval(v, vals) < pow2(n),
{
    assert forall|j: int| 0 <= j < n implies vals[start + j] == 0 || #[trigger] vals[start + j]
        == 1 by {
        let c = cs[k0 + j];
        assert(is_bool_shape(c, start + j));
        assert(constraint_holds(c, vals));
        assert(c.a@ =~= seq![c.a@[0], c.a@[1]]);
        assert(c.b@ =~= seq![c.b@[0]]);
        lemma_lc_eval2(c.a@[0], c.a@[1], vals);
        lemma_lc_eval1(c.b@[0], vals);
        let x = vals[start + j];
        assert(lc_eval(c.a@, vals) == 1 - x);
        assert(lc_eval(c.b@, vals) == x);
        assert(lc_eval(c.c@, vals) == 0);
        assert((1 - x) * x == 0 ==> x == 0 || x == 1) by (nonlinear_arith);
    }
    let c = cs[k0 + n];
    assert(is_bitsum_shape(c, start, n, v));
    assert(constraint_holds(c, vals));
    assert(c.b@ =~= seq![c.b@[0]]);
    lemma_lc_eval1(c.b@[0], vals);
    assert(lc_eval(c.b@, vals) == 1);
    lemma_bounded_bitsum(c.a@, vals, start, n);
    assert(lc_eval(c.a@, vals) * 1 == lc_eval(c.a@, vals)) by (nonlinear_arith);
}

/// Uniqueness of truncation: if a remainder `p - c * 2^32` is known to lie in
/// `[0, 2^32)` — which is exactly what the range check enforces — then `c`
/// must be `p` shifted right by 32 bits.  A cheating prover cannot pick any
/// other quotient.
pub proof fn lemma_truncation_forced(p: int, c: int)
    requires
        0 <= p - c * 0x100000000 < 0x100000000,
    ensures
        c == p / 0x100000000,
{
    lemma_fundamental_div_mod_converse(p, 0x100000000, c, p - c * 0x100000000);
}


/// The character for one decimal digit.
pub open spec fn digit_char(d: nat) -> char {
    if d == 0 {
        '0'
    } else if d == 1 {
        '1'
    } else if d == 2 {
        '2'
    } else if d == 3 {
        '3'
    } else if d == 4 {
        '4'
    } else if d == 5 {
        '5'
    } else if d == 6 {
        '6'
    } else if d == 7 {
        '7'
    } else if d == 8 {
        '8'
    } else {
        '9'
    }
}

/// The decimal digits of `n`.
pub open spec fn dec_chars(n: nat) -> Seq<char>
    decreases n,
{
    if n < 10 {
        seq![digit_char(n)]
    } else {
        dec_chars(n / 10).push(digit_char(n % 10))
    }
}

/// Exactly `k` decimal digits of `n`, zero-padded on the left.
pub open spec fn frac_chars(n: nat, k: nat) -> Seq<char>
    decreases k,
{
    if k == 0 {
        Seq::empty()
    } else {
        frac_chars(n / 10, (k - 1) as nat).push(digit_char(n % 10))
    }
}

/// The decimal rendering of a fixed-point magnitude: the integer part, a
/// point, and nine fractional digits.
pub open spec fn fixed_display(v: nat) -> Seq<char> {
    dec_chars(v / 0x100000000) + seq!['.'] + frac_chars(
        ((v % 0x100000000) * 1000000000) / 0x100000000,
        9,
    )
}

fn digit_str(d: u64) -> (r: &'static str)
    requires
        d < 10,
    ensures
        r@ == seq![digit_char(d as nat)],
{
    if d == 0 {
        proof {
            reveal_strlit("0");
            assert("0"@ =~= seq![digit_char(0)]);
        }
        "0"
    } else if d == 1 {
        proof {
            reveal_strlit("1");
            assert("1"@ =~= seq![digit_char(1)]);
        }
        "1"
    } else if d == 2 {
        proof {
            reveal_strlit("2");
            assert("2"@ =~= seq![digit_char(2)]);
        }
        "2"
    } else if d == 3 {
        proof {
            reveal_strlit("3");
            assert("3"@ =~= seq![digit_char(3)]);
        }
        "3"
    } else if d == 4 {
        proof {
            reveal_strlit("4");
            assert("4"@ =~= seq![digit_char(4)]);
        }
        "4"
    } else if d == 5 {
        proof {
            reveal_strlit("5");
            assert("5"@ =~= seq![digit_char(5)]);
        }
        "5"
    } else if d == 6 {
        proof {
            reveal_strlit("6");
            assert("6"@ =~= seq![digit_char(6)]);
        }
        "6"
    } else if d == 7 {
        proof {
            reveal_strlit("7");
            assert("7"@ =~= seq![digit_char(7)]);
        }
        "7"
    } else if d == 8 {
        proof {
            reveal_strlit("8");
            assert("8"@ =~= seq![digit_char(8)]);
        }
        "8"
    } else {
        proof {
            reveal_strlit("9");
            assert("9"@ =~= seq![digit_char(9)]);
        }
        "9"
    }
}

fn dec_string(n: u64) -> (r: String)
    ensures
        r@ == dec_chars(n as nat),
    decreases n,
{
    if n < 10 {
        String::from_str(digit_str(n))
    } else {
        let mut s = dec_string(n / 10);
        s.append(digit_str(n % 10));
        proof {
            assert(s@ =~= dec_chars(n as nat));
        }
        s
    }
}

fn frac_string(n: u64, k: usize) -> (r: String)
    ensures
        r@ == frac_chars(n as nat, k as nat),
    decreases k,
{
    if k == 0 {
        String::new()
    } else {
        let mut s = frac_string(n / 10, k - 1);
        s.append(digit_str(n % 10));
        proof {
            assert(s@ =~= frac_chars(n as nat, k as nat));
        }
        s
    }
}

/// A boolean witness variable together with its boolean constraint.
pub struct Bit {
    pub var: usize,
    pub value: Option<bool>,
}

/// Allocate a boolean witness variable constrained to `{0, 1}` by
/// `(1 - x) * x = 0`.
pub fn alloc_bit(r1: &mut R1cs, value: Option<bool>) -> (r: Result<Bit, SynthesisError>)
    requires
        old(r1).wf(),
        old(r1).nvars() < usize::MAX,
    ensures
        r is Ok <==> (value is Some || !old(r1).witness),
        r is Err ==> *final(r1) == *old(r1),
        r matches Ok(b) ==> {
            &&& final(r1).wf()
            &&& final(r1).extends(*old(r1))
            &&& final(r1).nvars() == old(r1).nvars() + 1
            &&& final(r1).constraints@.len() == old(r1).constraints@.len() + 1
            &&& final(r1).constraints@.drop_last() == old(r1).constraints@
            &&& b.var == old(r1).nvars()
            &&& b.value == value
            &&& is_bool_shape(final(r1).constraints@.last(), b.var as int)
            &&& (old(r1).witness ==> (value matches Some(x) && final(r1).vals@ == old(
                r1,
            ).vals@.push(if x { 1i128 } else { 0i128 }) && constraint_holds(
                final(r1).constraints@.last(),
                final(r1).vals@,
            )))
            &&& (!old(r1).witness ==> final(r1).vals@ == old(r1).vals@.push(0i128))
        },
{
    let fv: Option<i128> = match value {
        Some(x) => Some(if x { 1 } else { 0 }),
        None => None,
    };
    let var = match r1.allocate(fv) {
        Ok(v) => v,
        Err(e) => {
            return Err(e);
        },
    };
    let mut a = Lc::new();
    a.plus(0, 1);
    a.plus(var, -1);
    let b = Lc::single(var, 1);
    let c = Lc::new();
    let ghost pre = *r1;
    r1.enforce(a, b, c);
    proof {
        let cn = r1.constraints@.last();
        assert(cn.a@ =~= seq![(0usize, 1i128), (var, -1i128)]);
        if r1.witness {
            let x = value->0;
            let xv: i128 = if x { 1 } else { 0 };
            assert(r1.vals@[var as int] == xv);
            assert(r1.vals@[0] == 1);
            lemma_lc_eval2((0usize, 1i128), (var, -1i128), r1.vals@);
            lemma_lc_eval1((var, 1i128), r1.vals@);
            assert(lc_eval(cn.a@, r1.vals@) == 1 - xv);
            assert(lc_eval(cn.b@, r1.vals@) == xv);
            assert((1 - xv) * xv == 0);
        }
    }
    Ok(Bit { var, value })
}

/// Emit constraints forcing the linear combination `v` to equal the weighted
/// sum of `num_bits` freshly allocated boolean witnesses.  When a concrete
/// value is supplied its low `num_bits` bits become the witnesses; the only
/// enforcement that the value really fits in `num_bits` bits is the final
/// algebraic equality, which the contract exposes: the closing constraint is
/// satisfied exactly when `v` evaluates to the value reduced modulo
/// `2^num_bits`.
pub fn assert_num_bits(r1: &mut R1cs, v: Lc, val: Option<u64>, num_bits: usize) -> (r: Result<
    (),
    SynthesisError,
>)
    requires
        old(r1).wf(),
        lc_wf(v@, old(r1).nvars()),
        num_bits <= 64,
        old(r1).nvars() + num_bits < usize::MAX,
    ensures
        r is Ok <==> (val is Some || !old(r1).witness || num_bits == 0),
        r is Err ==> final(r1).vals@ == old(r1).vals@ && final(r1).constraints@ == old(
            r1,
        ).constraints@ && final(r1).witness == old(r1).witness && r == Result::<
            (),
            SynthesisError,
        >::Err(SynthesisError::AssignmentMissing),
        r is Ok ==> {
            &&& final(r1).wf()
            &&& final(r1).extends(*old(r1))
            &&& final(r1).nvars() == old(r1).nvars() + num_bits
            &&& final(r1).constraints@.len() == old(r1).constraints@.len() + num_bits + 1
            &&& range_check_emitted(
                final(r1).constraints@,
                old(r1).constraints@.len() as int,
                old(r1).nvars() as int,
                num_bits as nat,
                v@,
            )
            &&& (old(r1).witness ==> (val matches Some(k) ==> {
                &&& forall|j: int|
                    0 <= j < num_bits ==> #[trigger] final(r1).vals@[old(r1).nvars() + j]
                        == bit_val(k, j as nat)
                &&& holds_range(
                    final(r1).constraints@,
                    final(r1).vals@,
                    old(r1).constraints@.len() as int,
                    old(r1).constraints@.len() + num_bits,
                )
                &&& (constraint_holds(
                    final(r1).constraints@.last(),
                    final(r1).vals@,
                ) <==> lc_eval(v@, old(r1).vals@) == (k as int) % (pow2(num_bits as nat) as int))
            }))
        },
{
    let ghost r0 = *old(r1);
    let mut all = Lc::new();
    let mut pw: u128 = 1;
    let mut i: usize = 0;
    proof {
        lemma2_to64();
    }
    while i < num_bits
        invariant
            r0 == *old(r1),
            r0.wf(),
            r1.wf(),
            r1.extends(r0),
            lc_wf(v@, r0.nvars()),
            num_bits <= 64,
            r0.nvars() + num_bits < usize::MAX,
            i <= num_bits,
            r1.nvars() == r0.nvars() + i,
            r1.constraints@.len() == r0.constraints@.len() + i,
            pw as nat == pow2(i as nat),
            all@.len() == i,
            forall|j: int|
                0 <= j < i ==> (#[trigger] all@[j]).0 as int == r0.nvars() + j && all@[j].1 as int
                    == pow2(j as nat),
            forall|j: int|
                0 <= j < i ==> is_bool_shape(
                    #[trigger] r1.constraints@[r0.constraints@.len() + j],
                    r0.nvars() + j,
                ),
            i > 0 ==> (val is Some || !r0.witness),
            r0.witness ==> (val is Some ==> {
                &&& forall|j: int|
                    0 <= j < i ==> #[trigger] r1.vals@[r0.nvars() + j] == bit_val(val->0, j as nat)
                &&& holds_range(
                    r1.constraints@,
                    r1.vals@,
                    r0.constraints@.len() as int,
                    r0.constraints@.len() + i,
                )
            }),
        decreases num_bits - i,
    {
        proof {
            lemma_pow2_pos(i as nat);
        }
        let bv: Option<bool> = match val {
            Some(k) => Some(((k as u128) / pw) % 2 == 1),
            None => None,
        };
        let ghost pre = *r1;
        let bit = match alloc_bit(r1, bv) {
            Ok(b) => b,
            Err(e) => {
                proof {
                    assert(i == 0);
                    assert(r1.vals@ =~= r0.vals@);
                    assert(r1.constraints@ =~= r0.constraints@);
                }
                return Err(e);
            },
        };
        proof {
            if (i as nat) < 63 {
                vstd::arithmetic::power2::lemma_pow2_strictly_increases(i as nat, 63);
            }
            lemma2_to64();
            lemma2_to64_rest();
            assert(pw <= 0x8000000000000000u128);
        }
        all.plus(bit.var, pw as i128);
        proof {
            if r1.witness && val is Some {
                let k = val->0;
                assert((k as u128) / pw == (k as nat) / pow2(i as nat));
                assert(bv->0 == (bit_val(k, i as nat) == 1i128));
                assert(r1.vals@[r0.nvars() + i] == bit_val(k, i as nat));
                // earlier bit values and earlier constraints are untouched
                assert forall|j: int| 0 <= j < i + 1 implies #[trigger] r1.vals@[r0.nvars() + j]
                    == bit_val(k, j as nat) by {
                    if j < i {
                        assert(pre.vals@[r0.nvars() + j] == bit_val(k, j as nat));
                        assert(r1.vals@[r0.nvars() + j] == pre.vals@[r0.nvars() + j]);
                    }
                }
                assert forall|ci: int|
                    r0.constraints@.len() <= ci < r0.constraints@.len() + i + 1 implies
                    constraint_holds(#[trigger] r1.constraints@[ci], r1.vals@) by {
                    if ci < r0.constraints@.len() + i {
                        assert(constraint_holds(pre.constraints@[ci], pre.vals@));
                        assert(r1.constraints@[ci] == pre.constraints@[ci]);
                        crate::r1cs::lemma_lc_eval_extend(
                            pre.constraints@[ci].a@,
                            pre.vals@,
                            r1.vals@,
                            pre.nvars(),
                        );
                        crate::r1cs::lemma_lc_eval_extend(
                            pre.constraints@[ci].b@,
                            pre.vals@,
                            r1.vals@,
                            pre.nvars(),
                        );
                        crate::r1cs::lemma_lc_eval_extend(
                            pre.constraints@[ci].c@,
                            pre.vals@,
                            r1.vals@,
                            pre.nvars(),
                        );
                    } else {
                        assert(constraint_holds(r1.constraints@.last(), r1.vals@));
                    }
                }
            }
            assert forall|j: int| 0 <= j < i + 1 implies is_bool_shape(
                #[trigger] r1.constraints@[r0.constraints@.len() + j],
                r0.nvars() + j,
            ) by {
                if j < i {
                    assert(is_bool_shape(pre.constraints@[r0.constraints@.len() + j], r0.nvars() + j));
                    assert(r1.constraints@[r0.constraints@.len() + j] == pre.constraints@[r0.constraints@.len() + j]);
                }
            }
            lemma_pow2_unfold((i + 1) as nat);
        }
        pw = pw * 2;
        i = i + 1;
    }
    let ghost mid = *r1;
    let one_lc = Lc::single(0, 1);
    let ghost all_snap = all@;
    r1.enforce(all, one_lc, v);
    proof {
        let k0 = r0.constraints@.len() as int;
        let start = r0.nvars() as int;
        let n = num_bits as nat;
        let cn = r1.constraints@.last();
        assert(cn.a@ == all_snap);
        assert(cn.b@ =~= seq![(0usize, 1i128)]);
        assert(is_bitsum_shape(cn, start, n, v@));
        assert forall|j: int| 0 <= j < n implies is_bool_shape(
            #[trigger] r1.constraints@[k0 + j],
            start + j,
        ) by {
            assert(r1.constraints@[k0 + j] == mid.constraints@[k0 + j]);
        }
        assert(range_check_emitted(r1.constraints@, k0, start, n, v@));
        if r1.witness && val is Some {
            let k = val->0;
            // carried bit values and bool-constraint satisfaction
            assert forall|ci: int| k0 <= ci < k0 + n implies constraint_holds(
                #[trigger] r1.constraints@[ci],
                r1.vals@,
            ) by {
                assert(constraint_holds(mid.constraints@[ci], mid.vals@));
                assert(r1.constraints@[ci] == mid.constraints@[ci]);
                assert(r1.vals@ == mid.vals@);
            }
            // the closing constraint holds iff eval(v) == k mod 2^n
            lemma_lc_eval1((0usize, 1i128), r1.vals@);
            assert(lc_eval(cn.b@, r1.vals@) == 1);
            assert forall|j: int| 0 <= j < n implies #[trigger] r1.vals@[start + j] == bit_val(
                k,
                j as nat,
            ) by {}
            lemma_eval_of_bit_lc(all_snap, r1.vals@, start, n, k);
            lemma_bits_sum_is_mod(k, n);
            assert(lc_eval(cn.a@, r1.vals@) == (k as int) % (pow2(n) as int));
            assert(lc_eval(cn.a@, r1.vals@) * 1 == lc_eval(cn.a@, r1.vals@)) by (nonlinear_arith);
            lemma_lc_eval_extend(v@, r0.vals@, r1.vals@, r0.nvars());
            assert(constraint_holds(cn, r1.vals@) <==> lc_eval(v@, r0.vals@) == (k as int) % (
            pow2(n) as int));
        }
    }
    Ok(())
}

/// The weighted-sum linear combination over bit variables holding the bits of
/// `k` evaluates to the weighted bit sum of `k`.
proof fn lemma_eval_of_bit_lc(terms: Seq<(usize, i128)>, vals: Seq<i128>, start: int, n: nat, k: u64)
    requires
        terms.len() == n,
        0 <= start,
        start + n <= vals.len(),
        forall|j: int|
            0 <= j < n ==> (#[trigger] terms[j]).0 as int == start + j && terms[j].1 as int == pow2(
                j as nat,
            ),
        forall|j: int| 0 <= j < n ==> #[trigger] vals[start + j] == bit_val(k, j as nat),
    ensures
        lc_eval(terms, vals) == bits_sum(k, n),
    decreases n,
{
    if n > 0 {
        lemma_eval_of_bit_lc(terms.drop_last(), vals, start, (n - 1) as nat, k);
        let t = terms.last();
        assert(t == terms[n - 1]);
        assert(vals[t.0 as int] == bit_val(k, (n - 1) as nat));
    }
}

/// Extension preserves satisfaction of constraints already present: the
/// constraints and the variables they mention are unchanged.
pub proof fn lemma_holds_range_extend(r_mid: R1cs, r_end: R1cs, lo: int, hi: int)
    requires
        r_mid.wf(),
        r_end.extends(r_mid),
        0 <= lo,
        hi <= r_mid.constraints@.len(),
        holds_range(r_mid.constraints@, r_mid.vals@, lo, hi),
    ensures
        holds_range(r_end.constraints@, r_end.vals@, lo, hi),
{
    assert forall|i: int| lo <= i < hi implies constraint_holds(
        #[trigger] r_end.constraints@[i],
        r_end.vals@,
    ) by {
        let c = r_mid.constraints@[i];
        assert(r_end.constraints@[i] == c);
        assert(constraint_wf(c, r_mid.nvars()));
        lemma_lc_eval_extend(c.a@, r_mid.vals@, r_end.vals@, r_mid.nvars());
        lemma_lc_eval_extend(c.b@, r_mid.vals@, r_end.vals@, r_mid.nvars());
        lemma_lc_eval_extend(c.c@, r_mid.vals@, r_end.vals@, r_mid.nvars());
    }
}

pub proof fn lemma_extends_trans(r1: R1cs, r2: R1cs, r3: R1cs)
    requires
        r2.extends(r1),
        r3.extends(r2),
    ensures
        r3.extends(r1),
{
    assert(r1.vals@.is_prefix_of(r3.vals@)) by {
        assert(r1.vals@ =~= r3.vals@.subrange(0, r1.vals@.len() as int));
    }
    assert(r1.constraints@.is_prefix_of(r3.constraints@)) by {
        assert(r1.constraints@ =~= r3.constraints@.subrange(0, r1.constraints@.len() as int));
    }
}

/// A witness variable gadget: an allocated variable together with the value it
/// carries at proving time (absent at parameter generation).
#[derive(Clone, Copy)]
pub struct Num {
    pub var: usize,
    pub value: Option<i128>,
}

impl Num {
    pub open spec fn wf(self, r1: R1cs) -> bool {
        &&& (self.var as int) < r1.nvars()
        &&& (self.value is Some <==> r1.witness)
        &&& (self.value matches Some(v) ==> r1.vals@[self.var as int] == v)
    }

    /// Allocate a variable carrying `value`.  When building a proof the value
    /// must be present; at parameter generation it is dropped.
    pub fn allocate(r1: &mut R1cs, value: Option<i128>) -> (r: Num)
        requires
            old(r1).wf(),
            old(r1).nvars() < usize::MAX,
            old(r1).witness ==> value is Some,
        ensures
            final(r1).wf(),
            final(r1).extends(*old(r1)),
            final(r1).nvars() == old(r1).nvars() + 1,
            final(r1).constraints@ == old(r1).constraints@,
            r.var == old(r1).nvars(),
            r.wf(*final(r1)),
            old(r1).witness ==> r.value == value && final(r1).vals@ == old(r1).vals@.push(
                value->0,
            ),
            !old(r1).witness ==> r.value is None && final(r1).vals@ == old(r1).vals@.push(0i128),
    {
        let var = match r1.allocate(value) {
            Ok(v) => v,
            Err(_) => {
                proof {
                    assert(false);
                }
                0
            },
        };
        let kept: Option<i128> = if r1.witness {
            value
        } else {
            None
        };
        Num { var, value: kept }
    }

    /// Allocate the raw field product of two variables and constrain
    /// `a * b = product`, exactly as the external engine's number gadget does.
    pub fn mul(&self, r1: &mut R1cs, other: &Num) -> (r: Num)
        requires
            old(r1).wf(),
            self.wf(*old(r1)),
            other.wf(*old(r1)),
            old(r1).nvars() < usize::MAX,
            self.value matches Some(a) ==> (other.value matches Some(b) ==> (
            -0x8000000000000000 <= a <= 0x8000000000000000 && -0x8000000000000000 <= b
                <= 0x8000000000000000)),
        ensures
            final(r1).wf(),
            final(r1).extends(*old(r1)),
            r.wf(*final(r1)),
            r.var == old(r1).nvars(),
            final(r1).nvars() == old(r1).nvars() + 1,
            final(r1).constraints@.len() == old(r1).constraints@.len() + 1,
            final(r1).constraints@.drop_last() == old(r1).constraints@,
            final(r1).constraints@.last().a@ =~= seq![(self.var, 1i128)],
            final(r1).constraints@.last().b@ =~= seq![(other.var, 1i128)],
            final(r1).constraints@.last().c@ =~= seq![(r.var, 1i128)],
            old(r1).witness ==> (self.value matches Some(a) && other.value matches Some(b) && {
                &&& r.value == Some((a * b) as i128)
                &&& final(r1).vals@ == old(r1).vals@.push((a * b) as i128)
                &&& constraint_holds(final(r1).constraints@.last(), final(r1).vals@)
            }),
            !old(r1).witness ==> r.value is None,
    {
        let val: Option<i128> = match (self.value, other.value) {
            (Some(a), Some(b)) => {
                proof {
                    assert(-0x40000000000000000000000000000000 <= a * b
                        <= 0x40000000000000000000000000000000) by (nonlinear_arith)
                        requires
                            -0x8000000000000000 <= a <= 0x8000000000000000,
                            -0x8000000000000000 <= b <= 0x8000000000000000,
                    ;
                }
                Some(a * b)
            },
            _ => None,
        };
        let num = Num::allocate(r1, val);
        let a_lc = Lc::single(self.var, 1);
        let b_lc = Lc::single(other.var, 1);
        let c_lc = Lc::single(num.var, 1);
        proof {
            let ghost_pre = *old(r1);
        }
        let ghost mid = *r1;
        r1.enforce(a_lc, b_lc, c_lc);
        proof {
            let cn = r1.constraints@.last();
            if r1.witness {
                let a = self.value->0;
                let b = other.value->0;
                lemma_lc_eval1((self.var, 1i128), r1.vals@);
                lemma_lc_eval1((other.var, 1i128), r1.vals@);
                lemma_lc_eval1((num.var, 1i128), r1.vals@);
                assert(r1.vals@[self.var as int] == a);
                assert(r1.vals@[other.var as int] == b);
                assert(r1.vals@[num.var as int] == a * b);
                assert(lc_eval(cn.a@, r1.vals@) == 1 * a);
                assert(lc_eval(cn.b@, r1.vals@) == 1 * b);
                assert(lc_eval(cn.c@, r1.vals@) == 1 * (a * b) as i128);
                assert((1 * a) * (1 * b) == 1 * (a * b) as i128) by (nonlinear_arith)
                    requires
                        -0x40000000000000000000000000000000 <= a * b
                            <= 0x40000000000000000000000000000000,
                ;
            }
        }
        num
    }
}

pub proof fn lemma_num_wf_extend(n: Num, r1: R1cs, r2: R1cs)
    requires
        n.wf(r1),
        r2.extends(r1),
    ensures
        n.wf(r2),
{
    assert(r2.vals@[n.var as int] == r1.vals@[n.var as int]);
}

/// A fixed-point scalar: a real number carried as `round(r * 2^32)` in one
/// allocated field variable.
pub struct AllocatedFloat {
    pub num: Num,
}

impl AllocatedFloat {
    pub open spec fn wf(self, r1: R1cs) -> bool {
        self.num.wf(r1)
    }

    /// Allocate a fixed-point value from its scaled integer representation
    /// (the caller converts a real number to `round(r * 2^32)` beforehand).
    /// No range constraint is applied: staying within the representable
    /// envelope is the caller's responsibility.
    pub fn allocate(r1: &mut R1cs, f: u64) -> (r: Result<AllocatedFloat, SynthesisError>)
        requires
            old(r1).wf(),
            old(r1).nvars() < usize::MAX,
        ensures
            r is Ok,
            r matches Ok(af) ==> {
                &&& final(r1).wf()
                &&& final(r1).extends(*old(r1))
                &&& af.wf(*final(r1))
                &&& af.num.var == old(r1).nvars()
                &&& final(r1).nvars() == old(r1).nvars() + 1
                &&& final(r1).constraints@.len() == old(r1).constraints@.len() + 1
                &&& (old(r1).witness ==> af.num.value == Some(f as i128))
                &&& (!old(r1).witness ==> af.num.value is None)
                &&& (old(r1).witness ==> holds_range(
                    final(r1).constraints@,
                    final(r1).vals@,
                    old(r1).constraints@.len() as int,
                    final(r1).constraints@.len() as int,
                ))
            },
    {
        let num = Num::allocate(r1, Some(f as i128));
        let a_lc = Lc::single(num.var, 1);
        let b_lc = Lc::single(0, 1);
        let c_lc = Lc::single(num.var, 1);
        r1.enforce(a_lc, b_lc, c_lc);
        proof {
            let cn = r1.constraints@.last();
            if r1.witness {
                lemma_lc_eval1((num.var, 1i128), r1.vals@);
                lemma_lc_eval1((0usize, 1i128), r1.vals@);
                let x = r1.vals@[num.var as int];
                assert(lc_eval(cn.a@, r1.vals@) == 1 * x);
                assert(lc_eval(cn.b@, r1.vals@) == 1 * 1);
                assert((1 * x) * (1 * 1) == 1 * x) by (nonlinear_arith);
            }
        }
        Ok(AllocatedFloat { num })
    }

    /// Exact fixed-point addition: both operands share the `2^32` scale, so a
    /// single linear constraint suffices and the result value is `a + b`.
    pub fn add(&self, r1: &mut R1cs, other: &AllocatedFloat) -> (r: Result<
        AllocatedFloat,
        SynthesisError,
    >)
        requires
            old(r1).wf(),
            self.wf(*old(r1)),
            other.wf(*old(r1)),
            old(r1).nvars() < usize::MAX,
            self.num.value matches Some(a) ==> (other.num.value matches Some(b) ==> (i128::MIN
                <= a + b <= i128::MAX)),
        ensures
            r is Ok,
            r matches Ok(c) ==> {
                &&& final(r1).wf()
                &&& final(r1).extends(*old(r1))
                &&& c.wf(*final(r1))
                &&& c.num.var == old(r1).nvars()
                &&& final(r1).nvars() == old(r1).nvars() + 1
                &&& final(r1).constraints@.len() == old(r1).constraints@.len() + 1
                &&& (old(r1).witness ==> (self.num.value matches Some(a)
                    && other.num.value matches Some(b) && c.num.value == Some((a + b) as i128)
                    && holds_range(
                    final(r1).constraints@,
                    final(r1).vals@,
                    old(r1).constraints@.len() as int,
                    final(r1).constraints@.len() as int,
                )))
                &&& (!old(r1).witness ==> c.num.value is None)
            },
    {
        let val: Option<i128> = match (self.num.value, other.num.value) {
            (Some(a), Some(b)) => Some(a + b),
            _ => None,
        };
        let num = Num::allocate(r1, val);
        let mut a_lc = Lc::new();
        a_lc.plus(self.num.var, 1);
        a_lc.plus(other.num.var, 1);
        let b_lc = Lc::single(0, 1);
        let c_lc = Lc::single(num.var, 1);
        r1.enforce(a_lc, b_lc, c_lc);
        proof {
            let cn = r1.constraints@.last();
            assert(cn.a@ =~= seq![(self.num.var, 1i128), (other.num.var, 1i128)]);
            if r1.witness {
                let a = self.num.value->0;
                let b = other.num.value->0;
                lemma_lc_eval2((self.num.var, 1i128), (other.num.var, 1i128), r1.vals@);
                lemma_lc_eval1((0usize, 1i128), r1.vals@);
                lemma_lc_eval1((num.var, 1i128), r1.vals@);
                assert(r1.vals@[self.num.var as int] == a);
                assert(r1.vals@[other.num.var as int] == b);
                assert(lc_eval(cn.a@, r1.vals@) == 1 * a + 1 * b);
                assert(lc_eval(cn.b@, r1.vals@) == 1 * 1);
                assert(lc_eval(cn.c@, r1.vals@) == 1 * (a + b) as i128);
                assert((1 * a + 1 * b) * (1 * 1) == 1 * (a + b) as i128) by (nonlinear_arith)
                    requires
                        i128::MIN <= a + b <= i128::MAX,
                ;
            }
        }
        Ok(AllocatedFloat { num })
    }

    /// Exact fixed-point subtraction: the result value is `a - b` (negative
    /// differences wrap in the field; the integer representative keeps the
    /// sign).
    pub fn sub(&self, r1: &mut R1cs, other: &AllocatedFloat) -> (r: Result<
        AllocatedFloat,
        SynthesisError,
    >)
        requires
            old(r1).wf(),
            self.wf(*old(r1)),
            other.wf(*old(r1)),
            old(r1).nvars() < usize::MAX,
            self.num.value matches Some(a) ==> (other.num.value matches Some(b) ==> (i128::MIN
                <= a - b <= i128::MAX)),
        ensures
            r is Ok,
            r matches Ok(c) ==> {
                &&& final(r1).wf()
                &&& final(r1).extends(*old(r1))
                &&& c.wf(*final(r1))
                &&& c.num.var == old(r1).nvars()
                &&& final(r1).nvars() == old(r1).nvars() + 1
                &&& final(r1).constraints@.len() == old(r1).constraints@.len() + 1
                &&& (old(r1).witness ==> (self.num.value matches Some(a)
                    && other.num.value matches Some(b) && c.num.value == Some((a - b) as i128)
                    && holds_range(
                    final(r1).constraints@,
                    final(r1).vals@,
                    old(r1).constraints@.len() as int,
                    final(r1).constraints@.len() as int,
                )))
                &&& (!old(r1).witness ==> c.num.value is None)
            },
    {
        let val: Option<i128> = match (self.num.value, other.num.value) {
            (Some(a), Some(b)) => Some(a - b),
            _ => None,
        };
        let num = Num::allocate(r1, val);
        let mut a_lc = Lc::new();
        a_lc.plus(self.num.var, 1);
        a_lc.plus(other.num.var, -1);
        let b_lc = Lc::single(0, 1);
        let c_lc = Lc::single(num.var, 1);
        r1.enforce(a_lc, b_lc, c_lc);
        proof {
            let cn = r1.constraints@.last();
            assert(cn.a@ =~= seq![(self.num.var, 1i128), (other.num.var, -1i128)]);
            if r1.witness {
                let a = self.num.value->0;
                let b = other.num.value->0;
                lemma_lc_eval2((self.num.var, 1i128), (other.num.var, -1i128), r1.vals@);
                lemma_lc_eval1((0usize, 1i128), r1.vals@);
                lemma_lc_eval1((num.var, 1i128), r1.vals@);
                assert(lc_eval(cn.a@, r1.vals@) == 1 * a + (-1i128) * b);
                assert(lc_eval(cn.b@, r1.vals@) == 1 * 1);
                assert(lc_eval(cn.c@, r1.vals@) == 1 * (a - b) as i128);
                assert((1 * a + (-1i128) * b) * (1 * 1) == 1 * (a - b) as i128) by (nonlinear_arith)
                    requires
                        i128::MIN <= a - b <= i128::MAX,
                ;
            }
        }
        Ok(AllocatedFloat { num })
    }

    /// Fixed-point multiplication with proved truncation.  The raw field
    /// product is scaled by `2^64`; the result variable is the product shifted
    /// right 32 bits, and the dropped 32 bits are proved to lie in
    /// `[0, 2^32)` by the range check — without that check the single
    /// algebraic relation `p = c * 2^32 + r` would not bound `r` and a prover
    /// could pick any quotient.
    pub fn mul(&self, r1: &mut R1cs, other: &AllocatedFloat) -> (r: Result<
        AllocatedFloat,
        SynthesisError,
    >)
        requires
            old(r1).wf(),
            self.wf(*old(r1)),
            other.wf(*old(r1)),
            old(r1).nvars() + 40 < usize::MAX,
            self.num.value matches Some(a) ==> (other.num.value matches Some(b) ==> (
            -0x8000000000000000 <= a <= 0x8000000000000000 && -0x8000000000000000 <= b
                <= 0x8000000000000000 && a * b >= 0)),
        ensures
            r is Ok,
            r matches Ok(c) ==> {
                &&& final(r1).wf()
                &&& final(r1).extends(*old(r1))
                &&& c.wf(*final(r1))
                &&& c.num.var == old(r1).nvars() + 1
                &&& final(r1).nvars() == old(r1).nvars() + 34
                &&& final(r1).constraints@.len() == old(r1).constraints@.len() + 34
                &&& range_check_emitted(
                    final(r1).constraints@,
                    old(r1).constraints@.len() + 1int,
                    old(r1).nvars() + 2int,
                    32,
                    seq![
                        (((old(r1).nvars()) as usize), 1i128),
                        (((old(r1).nvars() + 1) as usize), -0x100000000i128),
                    ],
                )
                &&& (old(r1).witness ==> (self.num.value matches Some(a)
                    && other.num.value matches Some(b) && c.num.value == Some(
                    ((a * b) / 0x100000000) as i128,
                ) && final(r1).satisfied_from(old(r1).constraints@.len() as int)))
                &&& (!old(r1).witness ==> c.num.value is None)
            },
    {
        let ghost r_start = *old(r1);
        let prod = self.num.mul(r1, &other.num);
        let ghost r_b = *r1;
        proof {
            if prod.value is Some {
                let a = self.num.value->0;
                let b = other.num.value->0;
                assert(-0x40000000000000000000000000000000 <= a * b
                    <= 0x40000000000000000000000000000000) by (nonlinear_arith)
                    requires
                        -0x8000000000000000 <= a <= 0x8000000000000000,
                        -0x8000000000000000 <= b <= 0x8000000000000000,
                ;
                assert(prod.value->0 == a * b);
                assert(prod.value->0 >= 0);
            }
        }
        let cval: Option<i128> = match prod.value {
            Some(p) => {
                proof {
                    assert(p >= 0);
                    assert((p as u128) / 0x100000000u128 <= p as u128) by (nonlinear_arith)
                        requires
                            p >= 0,
                    ;
                }
                Some(((p as u128) / 0x100000000u128) as i128)
            },
            None => None,
        };
        let cnum = Num::allocate(r1, cval);
        let ghost r_c = *r1;
        let rem: Option<u64> = match prod.value {
            Some(p) => Some((((p as u128) % 0x100000000u128) as u64)),
            None => None,
        };
        let mut v_lc = Lc::new();
        v_lc.plus(prod.var, 1);
        v_lc.plus(cnum.var, -0x100000000);
        let res = assert_num_bits(r1, v_lc, rem, 32);
        match res {
            Ok(()) => {},
            Err(e) => {
                proof {
                    assert(false);
                }
                return Err(e);
            },
        }
        proof {
            lemma_extends_trans(r_start, r_b, r_c);
            lemma_extends_trans(r_start, r_c, *r1);
            lemma_num_wf_extend(cnum, r_c, *r1);
            let k0 = r_start.constraints@.len() as int;
            assert(v_lc@ =~= seq![(prod.var, 1i128), (cnum.var, -0x100000000i128)]);
            if r1.witness {
                let a = self.num.value->0;
                let b = other.num.value->0;
                let p = a * b;
                assert(-0x40000000000000000000000000000000 <= p
                    <= 0x40000000000000000000000000000000) by (nonlinear_arith)
                    requires
                        p == a * b,
                        -0x8000000000000000 <= a <= 0x8000000000000000,
                        -0x8000000000000000 <= b <= 0x8000000000000000,
                ;
                assert(p >= 0);
                lemma_fundamental_div_mod(p, 0x100000000);
                lemma_mod_bound(p, 0x100000000);
                let rr = p % 0x100000000;
                assert(0 <= p / 0x100000000 <= p) by (nonlinear_arith)
                    requires
                        p == 0x100000000 * (p / 0x100000000) + rr,
                        0 <= rr < 0x100000000,
                        p >= 0,
                ;
                let cq = (p as u128 / 0x100000000u128) as i128;
                assert(cq == p / 0x100000000);
                let rm = (p as u128 % 0x100000000u128) as u64;
                assert(rm as int == p % 0x100000000);
                // the product constraint still holds after everything later
                lemma_holds_range_extend(r_b, *r1, k0, k0 + 1);
                // the bit constraints hold by construction
                // the closing constraint: eval of v_lc is exactly the remainder
                lemma_lc_eval2((prod.var, 1i128), (cnum.var, -0x100000000i128), r_c.vals@);
                assert(r_c.vals@[prod.var as int] == p as i128);
                assert(r_c.vals@[cnum.var as int] == cq);
                assert(lc_eval(v_lc@, r_c.vals@) == 1 * (p as i128) + (-0x100000000i128) * cq);
                assert(1 * (p as i128) + (-0x100000000i128) * cq == p - 0x100000000 * (p
                    / 0x100000000)) by (nonlinear_arith)
                    requires
                        cq == p / 0x100000000,
                        -0x40000000000000000000000000000000 <= p
                            <= 0x40000000000000000000000000000000,
                        0 <= cq <= 0x40000000000000000000000000000000,
                ;
                assert(lc_eval(v_lc@, r_c.vals@) == rm as int);
                assert((rm as int) % (pow2(32) as int) == rm as int) by {
                    lemma2_to64();
                    lemma_small_mod(rm as nat, pow2(32));
                }
                assert(constraint_holds(r1.constraints@.last(), r1.vals@));
                // assemble satisfied_from over the three regions
                assert forall|i: int| k0 <= i < r1.constraints@.len() implies constraint_holds(
                    #[trigger] r1.constraints@[i],
                    r1.vals@,
                ) by {
                    if i == k0 {
                    } else if i < r1.constraints@.len() - 1 {
                        assert(constraint_holds(r1.constraints@[i], r1.vals@));
                    }
                }
            }
        }
        Ok(AllocatedFloat { num: cnum })
    }

    /// Decode the witness value for diagnostic display: the unsigned 64-bit
    /// magnitude divided by `2^32`, rendered with nine fractional digits.
    /// Absent when only parameters are being generated.  Callers keep the
    /// value within the unsigned 64-bit envelope; a wrapped negative value has
    /// no meaningful decimal rendering.
    pub fn to_string(&self) -> (r: Option<String>)
        requires
            self.num.value matches Some(v) ==> 0 <= v < 0x10000000000000000,
        ensures
            r is Some <==> self.num.value is Some,
            r matches Some(s) ==> s@ == fixed_display(self.num.value->0 as nat),
    {
        match self.num.value {
            Some(v) => {
                let vu = v as u64;
                let ip = vu / 0x100000000;
                let fr = vu % 0x100000000;
                let fd = (((fr as u128) * 1000000000) / 0x100000000u128) as u64;
                let mut s = dec_string(ip);
                proof {
                    reveal_strlit(".");
                    assert("."@ =~= seq!['.']);
                }
                s.append(".");
                let f = frac_string(fd, 9);
                s.append(f.as_str());
                proof {
                    assert(s@ =~= fixed_display(v as nat));
                }
                Some(s)
            },
            None => None,
        }
    }
}

} // verus!
