//! Constrained field elements: allocated variables and linear-combination
//! numbers.

use vstd::prelude::*;

use crate::cs::{
    c_sat, lc_eval, lc_in_bounds, lemma_lc_eval_append, lemma_lc_eval_push, var_eval,
    var_in_bounds, ConstraintSystem, LinComb, SynthesisError, Term, Var,
};
use crate::boolean::{bit_int, Boolean};
use crate::field::{
    fadd, fmul, fq_add, fq_invert, fq_mul, fq_one, fq_q, lemma_fq_val_bound,
    lemma_mod_eq_iff_diff_zero, Fq,
};

verus! {

/// An allocated field element: a variable together with its optional
/// witness value.
#[derive(Clone, Copy, Debug)]
pub struct AllocatedNum {
    pub var: Var,
    pub value: Option<Fq>,
}

impl AllocatedNum {
    /// The variable holds exactly this number's value in the system.
    pub open spec fn wf(self, cs: ConstraintSystem) -> bool {
        &&& var_in_bounds(self.var, cs.inputs@.len(), cs.aux@.len())
        &&& cs.assignment_of(self.var) == self.value
    }

    /// The integer value, when present.
    pub open spec fn val(self) -> int {
        self.value.unwrap().val()
    }

    /// Allocates a number with an optional witness value and no constraint.
    pub fn allocate(cs: &mut ConstraintSystem, value: Option<Fq>) -> (r: AllocatedNum)
        requires
            old(cs).wf(),
        ensures
            final(cs).wf(),
            final(cs).extends(*old(cs)),
            final(cs).inputs@ == old(cs).inputs@,
            final(cs).constraints@ == old(cs).constraints@,
            r.wf(*final(cs)),
            r.value == value,
    {
        let var = cs.allocate(value);
        AllocatedNum { var, value }
    }

    /// Allocates the product, enforcing `a * b = r`.
    pub fn mul(&self, cs: &mut ConstraintSystem, other: &AllocatedNum) -> (r: AllocatedNum)
        requires
            old(cs).wf(),
            self.wf(*old(cs)),
            other.wf(*old(cs)),
        ensures
            final(cs).wf(),
            final(cs).extends(*old(cs)),
            final(cs).inputs@ == old(cs).inputs@,
            final(cs).constraints@.len() == old(cs).constraints@.len() + 1,
            r.wf(*final(cs)),
            r.value is Some <==> (self.value is Some && other.value is Some),
            r.value is Some ==> r.val() == fmul(self.val(), other.val()),
            (self.value is Some && other.value is Some) ==> final(cs).new_sat(*old(cs)),
    {
        let value: Option<Fq> = match (&self.value, &other.value) {
            (Some(a), Some(b)) => Some(fq_mul(a, b)),
            _ => None,
        };
        let var = cs.allocate(value);
        let one = fq_one();
        let a_lc = LinComb::of_term(self.var, one);
        let b_lc = LinComb::of_term(other.var, one);
        let c_lc = LinComb::of_term(var, one);
        cs.enforce(a_lc, b_lc, c_lc);
        proof {
            if self.value is Some && other.value is Some {
                let ins = cs.inputs@;
                let aux = cs.aux@;
                let cst = cs.constraints@.last();
                lemma_lc_eval_push(
                    Seq::<Term>::empty(),
                    (Term { var: self.var, coeff: one }),
                    ins,
                    aux,
                );
                lemma_lc_eval_push(
                    Seq::<Term>::empty(),
                    (Term { var: other.var, coeff: one }),
                    ins,
                    aux,
                );
                lemma_lc_eval_push(Seq::<Term>::empty(), (Term { var, coeff: one }), ins, aux);
                let q = fq_q();
                let av = self.val();
                let bv = other.val();
                assert(cst.a.terms@ == Seq::<Term>::empty().push(
                    (Term { var: self.var, coeff: one }),
                ));
                assert(cst.b.terms@ == Seq::<Term>::empty().push(
                    (Term { var: other.var, coeff: one }),
                ));
                assert(cst.c.terms@ == Seq::<Term>::empty().push((Term { var, coeff: one })));
                assert(lc_eval(cst.a.terms@, ins, aux) == av);
                assert(lc_eval(cst.b.terms@, ins, aux) == bv);
                assert(lc_eval(cst.c.terms@, ins, aux) == (av * bv) % q);
                lemma_mod_eq_iff_diff_zero(av * bv, (av * bv) % q);
                vstd::arithmetic::div_mod::lemma_mod_twice(av * bv, q);
                assert(c_sat(cst, ins, aux));
            }
        }
        AllocatedNum { var, value }
    }

    /// Allocates the square, enforcing `a * a = r`.
    pub fn square(&self, cs: &mut ConstraintSystem) -> (r: AllocatedNum)
        requires
            old(cs).wf(),
            self.wf(*old(cs)),
        ensures
            final(cs).wf(),
            final(cs).extends(*old(cs)),
            final(cs).inputs@ == old(cs).inputs@,
            final(cs).constraints@.len() == old(cs).constraints@.len() + 1,
            r.wf(*final(cs)),
            r.value is Some <==> self.value is Some,
            r.value is Some ==> r.val() == fmul(self.val(), self.val()),
            self.value is Some ==> final(cs).new_sat(*old(cs)),
    {
        let other = *self;
        self.mul(cs, &other)
    }

    /// Re-exposes the value as a public input, enforcing equality between
    /// the input variable and this one.
    pub fn inputize(&self, cs: &mut ConstraintSystem)
        requires
            old(cs).wf(),
            self.wf(*old(cs)),
        ensures
            final(cs).wf(),
            final(cs).extends(*old(cs)),
            final(cs).inputs@ == old(cs).inputs@.push(self.value),
            final(cs).constraints@.len() == old(cs).constraints@.len() + 1,
            self.value is Some ==> final(cs).new_sat(*old(cs)),
    {
        let input = cs.allocate_input(self.value);
        let one = fq_one();
        let a_lc = LinComb::of_term(input, one);
        let b_lc = LinComb::of_term(ConstraintSystem::one(), one);
        let c_lc = LinComb::of_term(self.var, one);
        cs.enforce(a_lc, b_lc, c_lc);
        proof {
            if self.value is Some {
                let ins = cs.inputs@;
                let aux = cs.aux@;
                let cst = cs.constraints@.last();
                lemma_lc_eval_push(Seq::<Term>::empty(), (Term { var: input, coeff: one }), ins, aux);
                lemma_lc_eval_push(
                    Seq::<Term>::empty(),
                    (Term { var: Var::Input(0), coeff: one }),
                    ins,
                    aux,
                );
                lemma_lc_eval_push(
                    Seq::<Term>::empty(),
                    (Term { var: self.var, coeff: one }),
                    ins,
                    aux,
                );
                let q = fq_q();
                let v = self.val();
                assert(cst.a.terms@ == Seq::<Term>::empty().push((Term { var: input, coeff: one })));
                assert(cst.c.terms@ == Seq::<Term>::empty().push(
                    (Term { var: self.var, coeff: one }),
                ));
                assert(lc_eval(cst.a.terms@, ins, aux) == v);
                assert(lc_eval(cst.b.terms@, ins, aux) == 1);
                assert(lc_eval(cst.c.terms@, ins, aux) == v);
                assert(v * 1 == v) by (nonlinear_arith);
                vstd::arithmetic::div_mod::lemma_small_mod(0nat, q as nat);
                assert(c_sat(cst, ins, aux));
            }
        }
    }

    /// Enforces `a * inv(a) = 1`, which is satisfiable exactly when the
    /// value is nonzero; with a witness present, a zero value surfaces as a
    /// division-by-zero error.
    pub fn assert_nonzero(&self, cs: &mut ConstraintSystem) -> (r: Result<(), SynthesisError>)
        requires
            old(cs).wf(),
            self.wf(*old(cs)),
        ensures
            final(cs).wf(),
            final(cs).extends(*old(cs)),
            final(cs).inputs@ == old(cs).inputs@,
            r is Err <==> (self.value is Some && self.val() == 0),
            r is Err ==> r.unwrap_err() == SynthesisError::DivisionByZero && *final(cs) == *old(
                cs,
            ),
            r is Ok ==> final(cs).constraints@.len() == old(cs).constraints@.len() + 1,
            (self.value is Some && self.val() != 0) ==> final(cs).new_sat(*old(cs)),
    {
        let inv_value: Option<Fq> = match &self.value {
            Some(a) => {
                match fq_invert(a) {
                    Some(i) => Some(i),
                    None => {
                        return Err(SynthesisError::DivisionByZero);
                    },
                }
            },
            None => None,
        };
        let inv = cs.allocate(inv_value);
        let one = fq_one();
        let a_lc = LinComb::of_term(self.var, one);
        let b_lc = LinComb::of_term(inv, one);
        let c_lc = LinComb::of_term(ConstraintSystem::one(), one);
        cs.enforce(a_lc, b_lc, c_lc);
        proof {
            if self.value is Some {
                let ins = cs.inputs@;
                let aux = cs.aux@;
                let cst = cs.constraints@.last();
                lemma_lc_eval_push(
                    Seq::<Term>::empty(),
                    (Term { var: self.var, coeff: one }),
                    ins,
                    aux,
                );
                lemma_lc_eval_push(Seq::<Term>::empty(), (Term { var: inv, coeff: one }), ins, aux);
                lemma_lc_eval_push(
                    Seq::<Term>::empty(),
                    (Term { var: Var::Input(0), coeff: one }),
                    ins,
                    aux,
                );
                let q = fq_q();
                let av = self.val();
                let iv = inv_value.unwrap().val();
                assert(cst.a.terms@ == Seq::<Term>::empty().push(
                    (Term { var: self.var, coeff: one }),
                ));
                assert(cst.b.terms@ == Seq::<Term>::empty().push((Term { var: inv, coeff: one })));
                assert(lc_eval(cst.a.terms@, ins, aux) == av);
                assert(lc_eval(cst.b.terms@, ins, aux) == iv);
                assert(lc_eval(cst.c.terms@, ins, aux) == 1);
                assert((av * iv) % q == 1);
                lemma_mod_eq_iff_diff_zero(av * iv, 1);
                vstd::arithmetic::div_mod::lemma_small_mod(1nat, q as nat);
                assert(c_sat(cst, ins, aux));
            }
        }
        Ok(())
    }
}

/// A field element given as a linear combination over allocated variables,
/// with its optional witness value.
#[derive(Clone, Debug)]
pub struct Num {
    pub lc: LinComb,
    pub value: Option<Fq>,
}

impl Num {
    /// The combination speaks only of allocated variables and, when a value
    /// is tracked, evaluates to it.
    pub open spec fn wf(self, cs: ConstraintSystem) -> bool {
        &&& lc_in_bounds(self.lc.terms@, cs.inputs@.len(), cs.aux@.len())
        &&& self.value is Some ==> lc_eval(self.lc.terms@, cs.inputs@, cs.aux@) % fq_q()
            == self.value.unwrap().val()
        &&& cs.full() ==> self.value is Some
    }

    /// The integer value, when present.
    pub open spec fn val(self) -> int {
        self.value.unwrap().val()
    }

    /// The zero number.
    pub fn zero() -> (r: Num)
        ensures
            r.lc.terms@ =~= Seq::<Term>::empty(),
            r.value is Some,
            r.val() == 0,
    {
        Num { lc: LinComb::empty(), value: Some(crate::field::fq_zero()) }
    }

    /// The number standing for one allocated variable.
    pub fn from_num(n: &AllocatedNum) -> (r: Num)
        ensures
            r.value == n.value,
            r.lc.terms@.len() == 1,
            forall|cs: ConstraintSystem| n.wf(cs) && (#[trigger] cs.wf()) ==> r.wf(cs),
    {
        let one = fq_one();
        let r = Num { lc: LinComb::of_term(n.var, one), value: n.value };
        proof {
            assert forall|cs: ConstraintSystem| n.wf(cs) && (#[trigger] cs.wf()) implies r.wf(
                cs,
            ) by {
                let ins = cs.inputs@;
                let aux = cs.aux@;
                lemma_lc_eval_push(Seq::<Term>::empty(), (Term { var: n.var, coeff: one }), ins, aux);
                assert(r.lc.terms@ == Seq::<Term>::empty().push((Term { var: n.var, coeff: one })));
                if r.value is Some {
                    let v = n.value.unwrap().val();
                    assert(lc_eval(r.lc.terms@, ins, aux) == 1 * v);
                    assert(1 * v == v) by (nonlinear_arith);
                    lemma_fq_val_bound(n.value.unwrap());
                    vstd::arithmetic::div_mod::lemma_small_mod(v as nat, fq_q() as nat);
                }
            }
        }
        r
    }

    /// This number plus `coeff` times a bit.
    pub fn add_bool_with_coeff(self, bit: &Boolean, coeff: &Fq) -> (r: Num)
        ensures
            r.value is Some <==> (self.value is Some && bit.value_spec() is Some),
            r.value is Some ==> r.val() == fadd(
                self.val(),
                coeff.val() * bit_int(bit.value_spec().unwrap()),
            ),
            forall|cs: ConstraintSystem|
                (#[trigger] cs.wf()) && self.wf(cs) && bit.wf(cs) ==> r.wf(cs),
    {
        let value: Option<Fq> = match (&self.value, bit.get_value()) {
            (Some(v), Some(b)) => Some(
                if b {
                    fq_add(v, coeff)
                } else {
                    *v
                },
            ),
            _ => None,
        };
        let bit_lc = bit.lc(coeff);
        let mut lc = self.lc;
        lc.extend_with(&bit_lc);
        let r = Num { lc, value };
        proof {
            let q = fq_q();
            if value is Some {
                if bit.value_spec().unwrap() {
                    assert(value.unwrap().val() == fadd(self.val(), coeff.val() * 1)) by {
                        assert(coeff.val() * 1 == coeff.val()) by (nonlinear_arith);
                    }
                } else {
                    lemma_fq_val_bound(self.value.unwrap());
                    vstd::arithmetic::div_mod::lemma_small_mod(self.val() as nat, q as nat);
                    assert(coeff.val() * 0 == 0) by (nonlinear_arith);
                    assert(value.unwrap().val() == fadd(self.val(), 0));
                }
            }
            assert forall|cs: ConstraintSystem|
                (#[trigger] cs.wf()) && self.wf(cs) && bit.wf(cs) implies r.wf(cs) by {
                let ins = cs.inputs@;
                let aux = cs.aux@;
                lemma_lc_eval_append(self.lc.terms@, bit_lc.terms@, ins, aux);
                if r.value is Some {
                    let es = lc_eval(self.lc.terms@, ins, aux);
                    let eb = lc_eval(bit_lc.terms@, ins, aux);
                    let bv = bit_int(bit.value_spec().unwrap());
                    assert(eb % q == (coeff.val() * bv) % q);
                    assert((es + eb) % q == (self.val() + coeff.val() * bv) % q) by {
                        vstd::arithmetic::div_mod::lemma_add_mod_noop(es, eb, q);
                        vstd::arithmetic::div_mod::lemma_add_mod_noop(
                            self.val(),
                            coeff.val() * bv,
                            q,
                        );
                        lemma_fq_val_bound(self.value.unwrap());
                        vstd::arithmetic::div_mod::lemma_small_mod(self.val() as nat, q as nat);
                    }
                }
                if cs.full() {
                    if bit.value_spec() is None {
                        match *bit {
                            Boolean::Is(b) => {
                                assert(cs.assignment_of(b.var) is None);
                                assert(false);
                            },
                            Boolean::Not(b) => {
                                assert(cs.assignment_of(b.var) is None);
                                assert(false);
                            },
                            Boolean::Constant(_) => {
                                assert(false);
                            },
                        }
                    }
                }
            }
        }
        r
    }
}

impl Num {
    /// This number's combination with every coefficient multiplied by `k`.
    pub fn lc_scaled(&self, k: &Fq) -> (r: LinComb)
        ensures
            r.terms@.len() == self.lc.terms@.len(),
            forall|i: int|
                0 <= i < self.lc.terms@.len() ==> (#[trigger] r.terms@[i]).var
                    == self.lc.terms@[i].var && r.terms@[i].coeff.val() == (k.val()
                    * self.lc.terms@[i].coeff.val()) % fq_q(),
    {
        self.lc.scaled(k)
    }
}

/// A coefficient-scaled copy of a number's combination evaluates, modulo
/// the field modulus, to the scale times the number's value.
pub proof fn lemma_num_scaled_eval(n: Num, k: Fq, t: Seq<Term>, cs: ConstraintSystem)
    requires
        n.wf(cs),
        n.value is Some,
        t.len() == n.lc.terms@.len(),
        forall|i: int|
            0 <= i < n.lc.terms@.len() ==> (#[trigger] t[i]).var == n.lc.terms@[i].var
                && t[i].coeff.val() == (k.val() * n.lc.terms@[i].coeff.val()) % fq_q(),
    ensures
        lc_eval(t, cs.inputs@, cs.aux@) % fq_q() == (k.val() * n.val()) % fq_q(),
{
    let q = fq_q();
    crate::cs::lemma_lc_eval_scaled(n.lc.terms@, t, k.val(), cs.inputs@, cs.aux@);
    let e = lc_eval(n.lc.terms@, cs.inputs@, cs.aux@);
    vstd::arithmetic::div_mod::lemma_mul_mod_noop_right(k.val(), e, q);
    assert((k.val() * (e % q)) % q == (k.val() * e) % q);
    assert(e % q == n.val());
}

/// A well-formed allocated number stays well formed as the system grows.
pub proof fn lemma_num_wf_extend(a: AllocatedNum, o: ConstraintSystem, n: ConstraintSystem)
    requires
        a.wf(o),
        n.extends(o),
    ensures
        a.wf(n),
{
    crate::cs::lemma_extends_assignment(n, o, a.var);
}

/// A well-formed linear-combination number stays well formed as the system
/// grows.
pub proof fn lemma_lcnum_wf_extend(a: Num, o: ConstraintSystem, n: ConstraintSystem)
    requires
        a.wf(o),
        n.extends(o),
    ensures
        a.wf(n),
{
    crate::cs::lemma_lc_eval_extend(a.lc.terms@, o.inputs@, o.aux@, n.inputs@, n.aux@);
    if n.full() {
        crate::cs::lemma_full_of_extension(n, o);
    }
}

} // verus!
