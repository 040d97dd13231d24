//! A rank-1 constraint system over a large prime field, modelled with integer
//! witness values.
//!
//! Witness values are kept as `i128` representatives of field elements: within
//! the magnitude envelope that the fixed-point gadgets maintain, no value ever
//! comes near the field modulus, so field arithmetic coincides with integer
//! arithmetic.  Constraint satisfaction is therefore specified over the
//! integers; `lemma_int_zero_iff_mod_zero` relates it to satisfaction modulo
//! the field order for bounded values.

use vstd::prelude::*;
use vstd::arithmetic::div_mod::lemma_fundamental_div_mod;

verus! {

/// A concrete witness value was required but not supplied.
#[derive(Debug)]
pub enum SynthesisError {
    AssignmentMissing,
}

/// The BLS12-381 scalar field modulus.
pub open spec fn field_order() -> int {
    0x73eda753299d7d483339d80809a1d80553bda402fffe5bfeffffffff00000001int
}

/// A linear combination: a sum of coefficient-weighted allocated variables.
/// Variable 0 is the constant-one variable present in every system.
pub struct Lc {
    pub terms: Vec<(usize, i128)>,
}

/// One rank-1 constraint: `eval(a) * eval(b) == eval(c)`.
pub struct Constraint {
    pub a: Lc,
    pub b: Lc,
    pub c: Lc,
}

/// The value of a linear combination under an assignment of variable values.
pub open spec fn lc_eval(terms: Seq<(usize, i128)>, vals: Seq<i128>) -> int
    decreases terms.len(),
{
    if terms.len() == 0 {
        0
    } else {
        lc_eval(terms.drop_last(), vals) + terms.last().1 * vals[terms.last().0 as int]
    }
}

/// Every variable mentioned by the terms is among the first `n` variables.
pub open spec fn lc_wf(terms: Seq<(usize, i128)>, n: nat) -> bool {
    forall|i: int| 0 <= i < terms.len() ==> (#[trigger] terms[i]).0 < n
}

pub open spec fn constraint_wf(c: Constraint, n: nat) -> bool {
    lc_wf(c.a@, n) && lc_wf(c.b@, n) && lc_wf(c.c@, n)
}

/// Integer-level satisfaction of one constraint.
pub open spec fn constraint_holds(c: Constraint, vals: Seq<i128>) -> bool {
    lc_eval(c.a@, vals) * lc_eval(c.b@, vals) == lc_eval(c.c@, vals)
}

/// Satisfaction of one constraint modulo the field order.
pub open spec fn constraint_holds_mod(c: Constraint, vals: Seq<i128>) -> bool {
    (lc_eval(c.a@, vals) * lc_eval(c.b@, vals) - lc_eval(c.c@, vals)) % field_order() == 0
}

/// A linear combination's value does not change when the assignment is
/// extended with further variables.
pub proof fn lemma_lc_eval_extend(
    terms: Seq<(usize, i128)>,
    vals1: Seq<i128>,
    vals2: Seq<i128>,
    n: nat,
)
    requires
        lc_wf(terms, n),
        n <= vals1.len(),
        vals1.is_prefix_of(vals2),
    ensures
        lc_eval(terms, vals2) == lc_eval(terms, vals1),
    decreases terms.len(),
{
    if terms.len() > 0 {
        lemma_lc_eval_extend(terms.drop_last(), vals1, vals2, n);
        assert(terms.last() == terms[terms.len() - 1]);
        assert(vals2[terms.last().0 as int] == vals1[terms.last().0 as int]);
    }
}

/// An integer strictly between `-d` and `d` is divisible by `d` only when it
/// is zero; this ties integer-level constraint satisfaction to satisfaction
/// modulo the field order for envelope-bounded values.
pub proof fn lemma_int_zero_iff_mod_zero(x: int, d: int)
    requires
        0 < d,
        -d < x < d,
    ensures
        x % d == 0 <==> x == 0,
{
    lemma_fundamental_div_mod(x, d);
    if x % d == 0 {
        assert(x == d * (x / d));
        if x / d >= 1 {
            assert(d * (x / d) >= d * 1) by (nonlinear_arith)
                requires d > 0 && x / d >= 1;
        }
        if x / d <= -1 {
            assert(d * (x / d) <= d * (-1)) by (nonlinear_arith)
                requires d > 0 && x / d <= -1;
        }
    }
}

/// A constraint satisfied over the integers is satisfied in the field: the
/// integer model is sound for field-level satisfaction claims.
pub proof fn lemma_holds_int_implies_mod(c: Constraint, vals: Seq<i128>)
    requires
        constraint_holds(c, vals),
    ensures
        constraint_holds_mod(c, vals),
{
    let x = lc_eval(c.a@, vals) * lc_eval(c.b@, vals) - lc_eval(c.c@, vals);
    assert(x == 0);
    lemma_int_zero_iff_mod_zero(x, field_order());
}

impl Lc {
    /// The empty linear combination, with value zero.
    pub fn new() -> (r: Lc)
        ensures
            r.terms@ =~= Seq::<(usize, i128)>::empty(),
    {
        Lc { terms: Vec::new() }
    }

    /// Append one `coeff * variable` term.
    pub fn plus(&mut self, var: usize, coeff: i128)
        ensures
            final(self).terms@ == old(self).terms@.push((var, coeff)),
    {
        self.terms.push((var, coeff));
    }

    /// A linear combination of a single term.
    pub fn single(var: usize, coeff: i128) -> (r: Lc)
        ensures
            r.terms@ =~= seq![(var, coeff)],
    {
        let mut lc = Lc::new();
        lc.plus(var, coeff);
        lc
    }
}

/// The constraint system under construction.  `witness` is true when a proof
/// is being built (every variable carries a concrete value) and false at
/// parameter-generation time (values are ignored; only the shape matters and
/// `vals` records a placeholder zero per variable).
pub struct R1cs {
    pub witness: bool,
    pub vals: Vec<i128>,
    pub constraints: Vec<Constraint>,
}

impl R1cs {
    pub open spec fn nvars(self) -> nat {
        self.vals@.len()
    }

    pub open spec fn wf(self) -> bool {
        &&& self.vals@.len() >= 1
        &&& self.vals@[0] == 1
        &&& forall|i: int|
            0 <= i < self.constraints@.len() ==> constraint_wf(
                #[trigger] self.constraints@[i],
                self.nvars(),
            )
    }

    /// All constraints from index `k` on hold under the current assignment.
    pub open spec fn satisfied_from(self, k: int) -> bool {
        forall|i: int|
            k <= i < self.constraints@.len() ==> constraint_holds(
                #[trigger] self.constraints@[i],
                self.vals@,
            )
    }

    pub open spec fn satisfied(self) -> bool {
        self.satisfied_from(0)
    }

    /// `self` is `prev` with possibly more variables and constraints; nothing
    /// already present has changed.
    pub open spec fn extends(self, prev: R1cs) -> bool {
        &&& self.witness == prev.witness
        &&& prev.vals@.is_prefix_of(self.vals@)
        &&& prev.constraints@.is_prefix_of(self.constraints@)
    }

    pub fn new(witness: bool) -> (r: R1cs)
        ensures
            r.wf(),
            r.witness == witness,
            r.vals@ =~= seq![1i128],
            r.constraints@ =~= Seq::<Constraint>::empty(),
    {
        let mut vals: Vec<i128> = Vec::new();
        vals.push(1);
        R1cs { witness, vals, constraints: Vec::new() }
    }

    /// Allocate one variable.  When building a proof the value must be
    /// present; at parameter generation it is ignored and a placeholder is
    /// recorded, exactly as the external engine ignores value closures there.
    pub fn allocate(&mut self, value: Option<i128>) -> (r: Result<usize, SynthesisError>)
        requires
            old(self).wf(),
            old(self).nvars() < usize::MAX,
        ensures
            final(self).wf(),
            r is Ok <==> (value is Some || !old(self).witness),
            r matches Ok(v) ==> {
                &&& v == old(self).nvars()
                &&& final(self).extends(*old(self))
                &&& final(self).constraints@ == old(self).constraints@
                &&& final(self).nvars() == old(self).nvars() + 1
                &&& (old(self).witness ==> (value matches Some(x) && final(self).vals@ == old(
                    self,
                ).vals@.push(x)))
                &&& (!old(self).witness ==> final(self).vals@ == old(self).vals@.push(0i128))
            },
            r is Err ==> *final(self) == *old(self) && r == Result::<usize, SynthesisError>::Err(
                SynthesisError::AssignmentMissing,
            ),
    {
        if self.witness {
            match value {
                Some(x) => {
                    let idx = self.vals.len();
                    self.vals.push(x);
                    Ok(idx)
                },
                None => Err(SynthesisError::AssignmentMissing),
            }
        } else {
            let idx = self.vals.len();
            self.vals.push(0);
            Ok(idx)
        }
    }

    /// Record the rank-1 constraint `a * b = c`.
    pub fn enforce(&mut self, a: Lc, b: Lc, c: Lc)
        requires
            old(self).wf(),
            lc_wf(a@, old(self).nvars()),
            lc_wf(b@, old(self).nvars()),
            lc_wf(c@, old(self).nvars()),
        ensures
            final(self).wf(),
            final(self).extends(*old(self)),
            final(self).vals@ == old(self).vals@,
            final(self).constraints@.len() == old(self).constraints@.len() + 1,
            final(self).constraints@.last().a@ == a@,
            final(self).constraints@.last().b@ == b@,
            final(self).constraints@.last().c@ == c@,
            final(self).constraints@.drop_last() == old(self).constraints@,
    {
        self.constraints.push(Constraint { a, b, c });
        proof {
            assert(self.constraints@.drop_last() =~= old(self).constraints@);
        }
    }
}


impl R1cs {
    /// Evaluate a linear combination under the current assignment; `None` when
    /// a coefficient or value leaves the guarded range in which the evaluation
    /// is known not to overflow.
    pub fn eval_lc(&self, lc: &Lc) -> (r: Option<i128>)
        requires
            self.wf(),
            lc_wf(lc@, self.nvars()),
        ensures
            r matches Some(v) ==> v == lc_eval(lc@, self.vals@),
    {
        let mut acc: i128 = 0;
        let mut i: usize = 0;
        while i < lc.terms.len()
            invariant
                self.wf(),
                lc_wf(lc@, self.nvars()),
                i <= lc.terms@.len(),
                acc == lc_eval(lc@.take(i as int), self.vals@),
            decreases lc.terms@.len() - i,
        {
            let (var, coeff) = lc.terms[i];
            let v = self.vals[var];
            if coeff < -0x200000000 || coeff > 0x200000000 {
                return None;
            }
            if v < -0x100000000000000000000000 || v > 0x100000000000000000000000 {
                return None;
            }
            if acc < -0x20000000000000000000000000000000 || acc
                > 0x20000000000000000000000000000000 {
                return None;
            }
            proof {
                assert(-0x40000000000000000000000000000000 <= coeff * v
                    <= 0x40000000000000000000000000000000) by (nonlinear_arith)
                    requires
                        -0x200000000 <= coeff <= 0x200000000,
                        -0x100000000000000000000000 <= v <= 0x100000000000000000000000,
                ;
            }
            let term = coeff * v;
            let next = acc + term;
            proof {
                let taken = lc@.take(i + 1);
                assert(taken.drop_last() =~= lc@.take(i as int));
                assert(taken.last() == lc@[i as int]);
            }
            acc = next;
            i = i + 1;
        }
        proof {
            assert(lc@.take(lc@.len() as int) =~= lc@);
        }
        Some(acc)
    }

    /// Check every constraint against the current assignment; `None` when an
    /// evaluation leaves the guarded range.  A `Some(false)` exhibits a
    /// constraint whose equality fails — this is how a bad witness (for
    /// instance an out-of-range remainder smuggled past a range check) is
    /// caught.
    pub fn is_satisfied(&self) -> (r: Option<bool>)
        requires
            self.wf(),
        ensures
            r matches Some(b) ==> (b <==> self.satisfied()),
    {
        let mut i: usize = 0;
        while i < self.constraints.len()
            invariant
                self.wf(),
                i <= self.constraints@.len(),
                forall|j: int|
                    0 <= j < i ==> constraint_holds(#[trigger] self.constraints@[j], self.vals@),
            decreases self.constraints@.len() - i,
        {
            let c = &self.constraints[i];
            let ea = match self.eval_lc(&c.a) {
                Some(v) => v,
                None => {
                    return None;
                },
            };
            let eb = match self.eval_lc(&c.b) {
                Some(v) => v,
                None => {
                    return None;
                },
            };
            let ec = match self.eval_lc(&c.c) {
                Some(v) => v,
                None => {
                    return None;
                },
            };
            let small_small = -0x8000000000000000 <= ea && ea <= 0x8000000000000000
                && -0x8000000000000000 <= eb && eb <= 0x8000000000000000;
            let big_small = -0x40000000000000000000000 <= ea && ea <= 0x40000000000000000000000
                && -0x1000000000 <= eb && eb <= 0x1000000000;
            let small_big = -0x1000000000 <= ea && ea <= 0x1000000000
                && -0x40000000000000000000000 <= eb && eb <= 0x40000000000000000000000;
            if !(small_small || big_small || small_big) {
                return None;
            }
            proof {
                if small_small {
                    assert(-0x40000000000000000000000000000000 <= (ea as int) * (eb as int)
                        <= 0x40000000000000000000000000000000) by (nonlinear_arith)
                        requires
                            -0x8000000000000000 <= ea <= 0x8000000000000000,
                            -0x8000000000000000 <= eb <= 0x8000000000000000,
                    ;
                } else if big_small {
                    assert(-0x40000000000000000000000000000000 <= (ea as int) * (eb as int)
                        <= 0x40000000000000000000000000000000) by (nonlinear_arith)
                        requires
                            -0x40000000000000000000000 <= ea <= 0x40000000000000000000000,
                            -0x1000000000 <= eb <= 0x1000000000,
                    ;
                } else {
                    assert(-0x40000000000000000000000000000000 <= (ea as int) * (eb as int)
                        <= 0x40000000000000000000000000000000) by (nonlinear_arith)
                        requires
                            -0x1000000000 <= ea <= 0x1000000000,
                            -0x40000000000000000000000 <= eb <= 0x40000000000000000000000,
                    ;
                }
            }
            let prod = ea * eb;
            if prod != ec {
                proof {
                    assert(!constraint_holds(self.constraints@[i as int], self.vals@));
                }
                return Some(false);
            }
            i = i + 1;
        }
        Some(true)
    }
}

/// The view of `Lc` is the sequence of its terms.
impl View for Lc {
    type V = Seq<(usize, i128)>;

    open spec fn view(&self) -> Seq<(usize, i128)> {
        self.terms@
    }
}

} // verus!
