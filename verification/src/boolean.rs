//! Constrained bits: allocated boolean variables and the `Boolean` wrapper
//! that also covers compile-time constants and negated views.

use vstd::prelude::*;

use crate::cs::{
    c_sat, lc_eval, lc_in_bounds, lemma_lc_eval_push, var_eval, var_in_bounds, ConstraintSystem,
    LinComb, Term, Var,
};
use crate::field::{fq_neg, fq_one, fq_q, fq_zero, Fq};

verus! {

/// The field value of a bit.
pub open spec fn bit_int(b: bool) -> int {
    if b {
        1
    } else {
        0
    }
}

/// A variable constrained to be zero or one.
#[derive(Clone, Copy, Debug)]
pub struct AllocatedBit {
    pub var: Var,
    pub value: Option<bool>,
}

impl AllocatedBit {
    /// The bit's variable holds exactly the bit's value in the system.
    pub open spec fn wf(self, cs: ConstraintSystem) -> bool {
        &&& var_in_bounds(self.var, cs.inputs@.len(), cs.aux@.len())
        &&& match self.value {
            Some(b) => cs.assignment_of(self.var) is Some && cs.assignment_of(
                self.var,
            ).unwrap().val() == bit_int(b),
            None => cs.assignment_of(self.var) is None,
        }
    }

    /// Allocates a bit and enforces `(1 - a) * a = 0`, so the variable can
    /// only hold zero or one.
    pub fn allocate(cs: &mut ConstraintSystem, value: Option<bool>) -> (r: AllocatedBit)
        requires
            old(cs).wf(),
        ensures
            final(cs).wf(),
            final(cs).extends(*old(cs)),
            final(cs).inputs@ == old(cs).inputs@,
            final(cs).constraints@.len() == old(cs).constraints@.len() + 1,
            final(cs).new_sat(*old(cs)),
            r.wf(*final(cs)),
            r.value == value,
    {
        let fq_value: Option<Fq> = match value {
            Some(b) => Some(if b { fq_one() } else { fq_zero() }),
            None => None,
        };
        let var = cs.allocate(fq_value);
        let one = fq_one();
        let neg_one = fq_neg(&one);
        let mut a_lc = LinComb::of_term(ConstraintSystem::one(), one);
        a_lc.push_term(var, neg_one);
        let b_lc = LinComb::of_term(var, one);
        let c_lc = LinComb::empty();
        cs.enforce(a_lc, b_lc, c_lc);
        proof {
            let ins = cs.inputs@;
            let aux = cs.aux@;
            let cst = cs.constraints@.last();
            let t1 = (Term { var: Var::Input(0), coeff: one });
            let t2 = (Term { var, coeff: neg_one });
            lemma_lc_eval_push(Seq::<Term>::empty(), t1, ins, aux);
            lemma_lc_eval_push(Seq::<Term>::empty().push(t1), t2, ins, aux);
            lemma_lc_eval_push(Seq::<Term>::empty(), (Term { var, coeff: one }), ins, aux);
            let q = fq_q();
            let bv = var_eval(var, ins, aux);
            assert(cs.assignment_of(var) == fq_value);
            assert(bv == crate::cs::opt_val(fq_value));
            assert(var_eval(Var::Input(0), ins, aux) == 1);
            assert(lc_eval(cst.a.terms@, ins, aux) == 1 + (q - 1) * bv);
            assert(cst.b.terms@ == Seq::<Term>::empty().push((Term { var, coeff: one })));
            assert(lc_eval(cst.b.terms@, ins, aux) == 0 + one.val() * bv);
            assert(lc_eval(cst.b.terms@, ins, aux) == bv);
            assert(lc_eval(cst.c.terms@, ins, aux) == 0);
            assert(bv == 0 || bv == 1);
            assert(((1 + (q - 1) * bv) * bv - 0) % q == 0) by (nonlinear_arith)
                requires
                    q > 2,
                    bv == 0 || bv == 1,
            ;
            assert(c_sat(cst, ins, aux));
        }
        AllocatedBit { var, value }
    }

    /// Allocates a bit with the booleanity constraint weakened to
    /// `(1 - m - a) * a = 0`: when `m` holds, the bit is forced to zero.
    pub fn alloc_conditionally(
        cs: &mut ConstraintSystem,
        value: Option<bool>,
        must_be_false: &AllocatedBit,
    ) -> (r: AllocatedBit)
        requires
            old(cs).wf(),
            must_be_false.wf(*old(cs)),
        ensures
            final(cs).wf(),
            final(cs).extends(*old(cs)),
            final(cs).inputs@ == old(cs).inputs@,
            final(cs).constraints@.len() == old(cs).constraints@.len() + 1,
            r.wf(*final(cs)),
            r.value == value,
            (value is Some && must_be_false.value is Some) ==> (final(cs).new_sat(*old(cs)) <==> !(
            value.unwrap() && must_be_false.value.unwrap())),
    {
        let fq_value: Option<Fq> = match value {
            Some(b) => Some(if b { fq_one() } else { fq_zero() }),
            None => None,
        };
        let var = cs.allocate(fq_value);
        let one = fq_one();
        let neg_one = fq_neg(&one);
        let mut a_lc = LinComb::of_term(ConstraintSystem::one(), one);
        a_lc.push_term(must_be_false.var, neg_one);
        a_lc.push_term(var, neg_one);
        let b_lc = LinComb::of_term(var, one);
        let c_lc = LinComb::empty();
        cs.enforce(a_lc, b_lc, c_lc);
        proof {
            if value is Some && must_be_false.value is Some {
                let ins = cs.inputs@;
                let aux = cs.aux@;
                let cst = cs.constraints@.last();
                let t1 = (Term { var: Var::Input(0), coeff: one });
                let t2 = (Term { var: must_be_false.var, coeff: neg_one });
                let t3 = (Term { var, coeff: neg_one });
                lemma_lc_eval_push(Seq::<Term>::empty(), t1, ins, aux);
                lemma_lc_eval_push(Seq::<Term>::empty().push(t1), t2, ins, aux);
                lemma_lc_eval_push(Seq::<Term>::empty().push(t1).push(t2), t3, ins, aux);
                lemma_lc_eval_push(Seq::<Term>::empty(), (Term { var, coeff: one }), ins, aux);
                let q = fq_q();
                let bv = var_eval(var, ins, aux);
                let mv = var_eval(must_be_false.var, ins, aux);
                assert(bv == bit_int(value.unwrap()));
                assert(mv == bit_int(must_be_false.value.unwrap()));
                assert(lc_eval(cst.a.terms@, ins, aux) == 1 + (q - 1) * mv + (q - 1) * bv);
                assert(lc_eval(cst.b.terms@, ins, aux) == bv);
                assert(lc_eval(cst.c.terms@, ins, aux) == 0);
                assert(((1 + (q - 1) * mv + (q - 1) * bv) * bv - 0) % q == (
                if bv == 1 && mv == 1 {
                    q - 1
                } else {
                    0
                })) by (nonlinear_arith)
                    requires
                        q > 2,
                        bv == 0 || bv == 1,
                        mv == 0 || mv == 1,
                ;
                if !(value.unwrap() && must_be_false.value.unwrap()) {
                    assert(c_sat(cst, ins, aux));
                } else {
                    assert(!c_sat(cst, ins, aux));
                }
            }
        }
        AllocatedBit { var, value }
    }

    /// Allocates the conjunction of two bits, enforcing `a * b = r`.
    pub fn and(cs: &mut ConstraintSystem, a: &AllocatedBit, b: &AllocatedBit) -> (r: AllocatedBit)
        requires
            old(cs).wf(),
            a.wf(*old(cs)),
            b.wf(*old(cs)),
        ensures
            final(cs).wf(),
            final(cs).extends(*old(cs)),
            final(cs).inputs@ == old(cs).inputs@,
            final(cs).constraints@.len() == old(cs).constraints@.len() + 1,
            r.wf(*final(cs)),
            r.value is Some <==> (a.value is Some && b.value is Some),
            r.value is Some ==> r.value.unwrap() == (a.value.unwrap() && b.value.unwrap()),
            (a.value is Some && b.value is Some) ==> final(cs).new_sat(*old(cs)),
    {
        let value: Option<bool> = match (a.value, b.value) {
            (Some(x), Some(y)) => Some(x && y),
            _ => None,
        };
        let fq_value: Option<Fq> = match value {
            Some(x) => Some(if x { fq_one() } else { fq_zero() }),
            None => None,
        };
        let var = cs.allocate(fq_value);
        let one = fq_one();
        let a_lc = LinComb::of_term(a.var, one);
        let b_lc = LinComb::of_term(b.var, one);
        let c_lc = LinComb::of_term(var, one);
        cs.enforce(a_lc, b_lc, c_lc);
        proof {
            if a.value is Some && b.value is Some {
                let ins = cs.inputs@;
                let aux = cs.aux@;
                let cst = cs.constraints@.last();
                lemma_lc_eval_push(Seq::<Term>::empty(), (Term { var: a.var, coeff: one }), ins, aux);
                lemma_lc_eval_push(Seq::<Term>::empty(), (Term { var: b.var, coeff: one }), ins, aux);
                lemma_lc_eval_push(Seq::<Term>::empty(), (Term { var, coeff: one }), ins, aux);
                let av = bit_int(a.value.unwrap());
                let bv = bit_int(b.value.unwrap());
                let rv = bit_int(a.value.unwrap() && b.value.unwrap());
                assert(lc_eval(cst.a.terms@, ins, aux) == av);
                assert(lc_eval(cst.b.terms@, ins, aux) == bv);
                assert(lc_eval(cst.c.terms@, ins, aux) == rv);
                let q = fq_q();
                assert((av * bv - rv) % q == 0) by (nonlinear_arith)
                    requires
                        q > 2,
                        av == 0 || av == 1,
                        bv == 0 || bv == 1,
                        rv == (if av == 1 && bv == 1 {
                            1int
                        } else {
                            0int
                        }),
                ;
                assert(c_sat(cst, ins, aux));
            }
        }
        AllocatedBit { var, value }
    }
    /// Allocates `a && !b`, enforcing `a * (1 - b) = r`.
    pub fn and_not(cs: &mut ConstraintSystem, a: &AllocatedBit, b: &AllocatedBit) -> (r:
        AllocatedBit)
        requires
            old(cs).wf(),
            a.wf(*old(cs)),
            b.wf(*old(cs)),
        ensures
            final(cs).wf(),
            final(cs).extends(*old(cs)),
            final(cs).inputs@ == old(cs).inputs@,
            final(cs).constraints@.len() == old(cs).constraints@.len() + 1,
            r.wf(*final(cs)),
            r.value is Some <==> (a.value is Some && b.value is Some),
            r.value is Some ==> r.value.unwrap() == (a.value.unwrap() && !b.value.unwrap()),
            (a.value is Some && b.value is Some) ==> final(cs).new_sat(*old(cs)),
    {
        let value: Option<bool> = match (a.value, b.value) {
            (Some(x), Some(y)) => Some(x && !y),
            _ => None,
        };
        let fq_value: Option<Fq> = match value {
            Some(x) => Some(if x { fq_one() } else { fq_zero() }),
            None => None,
        };
        let var = cs.allocate(fq_value);
        let one = fq_one();
        let neg_one = fq_neg(&one);
        let a_lc = LinComb::of_term(a.var, one);
        let mut b_lc = LinComb::of_term(ConstraintSystem::one(), one);
        b_lc.push_term(b.var, neg_one);
        let c_lc = LinComb::of_term(var, one);
        cs.enforce(a_lc, b_lc, c_lc);
        proof {
            if a.value is Some && b.value is Some {
                let ins = cs.inputs@;
                let aux = cs.aux@;
                let cst = cs.constraints@.last();
                let t1 = (Term { var: Var::Input(0), coeff: one });
                let t2 = (Term { var: b.var, coeff: neg_one });
                lemma_lc_eval_push(Seq::<Term>::empty(), (Term { var: a.var, coeff: one }), ins, aux);
                lemma_lc_eval_push(Seq::<Term>::empty(), t1, ins, aux);
                lemma_lc_eval_push(Seq::<Term>::empty().push(t1), t2, ins, aux);
                lemma_lc_eval_push(Seq::<Term>::empty(), (Term { var, coeff: one }), ins, aux);
                let q = fq_q();
                let av = bit_int(a.value.unwrap());
                let bv = bit_int(b.value.unwrap());
                let rv = bit_int(a.value.unwrap() && !b.value.unwrap());
                assert(cst.a.terms@ == Seq::<Term>::empty().push((Term { var: a.var, coeff: one })));
                assert(cst.c.terms@ == Seq::<Term>::empty().push((Term { var, coeff: one })));
                assert(lc_eval(cst.a.terms@, ins, aux) == av);
                assert(lc_eval(cst.b.terms@, ins, aux) == 1 + (q - 1) * bv);
                assert(lc_eval(cst.c.terms@, ins, aux) == rv);
                assert((av * (1 + (q - 1) * bv) - rv) % q == 0) by (nonlinear_arith)
                    requires
                        q > 2,
                        av == 0 || av == 1,
                        bv == 0 || bv == 1,
                        rv == (if av == 1 && bv == 0 {
                            1int
                        } else {
                            0int
                        }),
                ;
                assert(c_sat(cst, ins, aux));
            }
        }
        AllocatedBit { var, value }
    }

    /// Allocates `!a && !b`, enforcing `(1 - a) * (1 - b) = r`.
    pub fn nor(cs: &mut ConstraintSystem, a: &AllocatedBit, b: &AllocatedBit) -> (r: AllocatedBit)
        requires
            old(cs).wf(),
            a.wf(*old(cs)),
            b.wf(*old(cs)),
        ensures
            final(cs).wf(),
            final(cs).extends(*old(cs)),
            final(cs).inputs@ == old(cs).inputs@,
            final(cs).constraints@.len() == old(cs).constraints@.len() + 1,
            r.wf(*final(cs)),
            r.value is Some <==> (a.value is Some && b.value is Some),
            r.value is Some ==> r.value.unwrap() == (!a.value.unwrap() && !b.value.unwrap()),
            (a.value is Some && b.value is Some) ==> final(cs).new_sat(*old(cs)),
    {
        let value: Option<bool> = match (a.value, b.value) {
            (Some(x), Some(y)) => Some(!x && !y),
            _ => None,
        };
        let fq_value: Option<Fq> = match value {
            Some(x) => Some(if x { fq_one() } else { fq_zero() }),
            None => None,
        };
        let var = cs.allocate(fq_value);
        let one = fq_one();
        let neg_one = fq_neg(&one);
        let mut a_lc = LinComb::of_term(ConstraintSystem::one(), one);
        a_lc.push_term(a.var, neg_one);
        let mut b_lc = LinComb::of_term(ConstraintSystem::one(), one);
        b_lc.push_term(b.var, neg_one);
        let c_lc = LinComb::of_term(var, one);
        cs.enforce(a_lc, b_lc, c_lc);
        proof {
            if a.value is Some && b.value is Some {
                let ins = cs.inputs@;
                let aux = cs.aux@;
                let cst = cs.constraints@.last();
                let t1 = (Term { var: Var::Input(0), coeff: one });
                let ta = (Term { var: a.var, coeff: neg_one });
                let tb = (Term { var: b.var, coeff: neg_one });
                lemma_lc_eval_push(Seq::<Term>::empty(), t1, ins, aux);
                lemma_lc_eval_push(Seq::<Term>::empty().push(t1), ta, ins, aux);
                lemma_lc_eval_push(Seq::<Term>::empty().push(t1), tb, ins, aux);
                lemma_lc_eval_push(Seq::<Term>::empty(), (Term { var, coeff: one }), ins, aux);
                let q = fq_q();
                let av = bit_int(a.value.unwrap());
                let bv = bit_int(b.value.unwrap());
                let rv = bit_int(!a.value.unwrap() && !b.value.unwrap());
                assert(cst.c.terms@ == Seq::<Term>::empty().push((Term { var, coeff: one })));
                assert(lc_eval(cst.a.terms@, ins, aux) == 1 + (q - 1) * av);
                assert(lc_eval(cst.b.terms@, ins, aux) == 1 + (q - 1) * bv);
                assert(lc_eval(cst.c.terms@, ins, aux) == rv);
                let ea = 1 + (q - 1) * av;
                let eb = 1 + (q - 1) * bv;
                if av == 0 && bv == 0 {
                    assert((ea * eb - rv) % q == 0) by {
                        assert(ea == 1 && eb == 1 && rv == 1);
                        vstd::arithmetic::div_mod::lemma_small_mod(0nat, q as nat);
                    }
                } else if av == 1 {
                    assert((ea * eb - rv) % q == 0) by {
                        assert(ea == q && rv == 0);
                        vstd::arithmetic::div_mod::lemma_mod_multiples_basic(eb, q);
                        assert(q * eb == eb * q) by (nonlinear_arith);
                    }
                } else {
                    assert((ea * eb - rv) % q == 0) by {
                        assert(eb == q && rv == 0);
                        vstd::arithmetic::div_mod::lemma_mod_multiples_basic(ea, q);
                        assert(ea * q == ea * q);
                    }
                }
                assert(c_sat(cst, ins, aux));
            }
        }
        AllocatedBit { var, value }
    }
}

/// A constrained bit: a compile-time constant, an allocated bit, or the
/// negated view of an allocated bit.
#[derive(Clone, Copy, Debug)]
pub enum Boolean {
    Is(AllocatedBit),
    Not(AllocatedBit),
    Constant(bool),
}

impl Boolean {
    /// The allocated bit behind this boolean, if any, is well formed.
    pub open spec fn wf(self, cs: ConstraintSystem) -> bool {
        match self {
            Boolean::Is(b) => b.wf(cs),
            Boolean::Not(b) => b.wf(cs),
            Boolean::Constant(_) => true,
        }
    }

    /// The bit's value, when known.
    pub open spec fn value_spec(self) -> Option<bool> {
        match self {
            Boolean::Is(b) => b.value,
            Boolean::Not(b) => match b.value {
                Some(x) => Some(!x),
                None => None,
            },
            Boolean::Constant(c) => Some(c),
        }
    }

    /// The negated view of this bit.
    pub open spec fn negate_spec(self) -> Boolean {
        match self {
            Boolean::Is(b) => Boolean::Not(b),
            Boolean::Not(b) => Boolean::Is(b),
            Boolean::Constant(c) => Boolean::Constant(!c),
        }
    }

    /// A constant bit.
    pub fn constant(c: bool) -> (r: Self)
        ensures
            r == Boolean::Constant(c),
    {
        Boolean::Constant(c)
    }

    /// The bit's value, when known.
    pub fn get_value(&self) -> (r: Option<bool>)
        ensures
            r == self.value_spec(),
    {
        match self {
            Boolean::Is(b) => b.value,
            Boolean::Not(b) => match b.value {
                Some(x) => Some(!x),
                None => None,
            },
            Boolean::Constant(c) => Some(*c),
        }
    }

    /// Negation, free of constraints.
    pub fn negate(&self) -> (r: Self)
        ensures
            r == self.negate_spec(),
    {
        match self {
            Boolean::Is(b) => Boolean::Not(b.clone()),
            Boolean::Not(b) => Boolean::Is(b.clone()),
            Boolean::Constant(c) => Boolean::Constant(!*c),
        }
    }

    /// The linear combination `coeff * bit`.
    pub fn lc(&self, coeff: &Fq) -> (r: LinComb)
        ensures
            forall|c: ConstraintSystem|
                (#[trigger] c.wf()) && self.wf(c) ==> lc_in_bounds(
                    r.terms@,
                    c.inputs@.len(),
                    c.aux@.len(),
                ),
            forall|c: ConstraintSystem|
                (#[trigger] c.wf()) && self.wf(c) && self.value_spec() is Some ==> lc_eval(
                    r.terms@,
                    c.inputs@,
                    c.aux@,
                ) % fq_q() == (coeff.val() * bit_int(self.value_spec().unwrap())) % fq_q(),
    {
        let one_var = ConstraintSystem::one();
        let r = match self {
            Boolean::Constant(c) => {
                if *c {
                    LinComb::of_term(one_var, *coeff)
                } else {
                    LinComb::empty()
                }
            },
            Boolean::Is(b) => LinComb::of_term(b.var, *coeff),
            Boolean::Not(b) => {
                let mut l = LinComb::of_term(one_var, *coeff);
                l.push_term(b.var, fq_neg(coeff));
                l
            },
        };
        proof {
            lemma_boolean_lc(*self, *coeff, r);
        }
        r
    }
}

/// Relates the linear combination built for a bit to its evaluation.
proof fn lemma_boolean_lc(bl: Boolean, coeff: Fq, r: LinComb)
    requires
        match bl {
            Boolean::Constant(c) => r.terms@ == if c {
                Seq::<Term>::empty().push((Term { var: Var::Input(0), coeff }))
            } else {
                Seq::<Term>::empty()
            },
            Boolean::Is(b) => r.terms@ == Seq::<Term>::empty().push(
                (Term { var: b.var, coeff }),
            ),
            Boolean::Not(b) => r.terms@.len() == 2 && r.terms@[0] == (Term {
                var: Var::Input(0),
                coeff,
            }) && r.terms@[1].var == b.var && r.terms@[1].coeff.val() == (0 - coeff.val()) % fq_q(),
        },
    ensures
        forall|c: ConstraintSystem|
            (#[trigger] c.wf()) && bl.wf(c) ==> lc_in_bounds(
                r.terms@,
                c.inputs@.len(),
                c.aux@.len(),
            ),
        forall|c: ConstraintSystem|
            (#[trigger] c.wf()) && bl.wf(c) && bl.value_spec() is Some ==> lc_eval(
                r.terms@,
                c.inputs@,
                c.aux@,
            ) % fq_q() == (coeff.val() * bit_int(bl.value_spec().unwrap())) % fq_q(),
{
    let q = fq_q();
    assert forall|c: ConstraintSystem| (#[trigger] c.wf()) && bl.wf(c) implies lc_in_bounds(
        r.terms@,
        c.inputs@.len(),
        c.aux@.len(),
    ) by {
        match bl {
            Boolean::Constant(cc) => {
                if cc {
                    assert(r.terms@[0].var == Var::Input(0));
                }
            },
            Boolean::Is(b) => {
                assert(r.terms@[0].var == b.var);
            },
            Boolean::Not(b) => {},
        }
    }
    assert forall|c: ConstraintSystem|
        (#[trigger] c.wf()) && bl.wf(c) && bl.value_spec() is Some implies lc_eval(
        r.terms@,
        c.inputs@,
        c.aux@,
    ) % q == (coeff.val() * bit_int(bl.value_spec().unwrap())) % q by {
        let ins = c.inputs@;
        let aux = c.aux@;
        let cv = coeff.val();
        match bl {
            Boolean::Constant(cc) => {
                if cc {
                    lemma_lc_eval_push(
                        Seq::<Term>::empty(),
                        (Term { var: Var::Input(0), coeff }),
                        ins,
                        aux,
                    );
                    assert(lc_eval(r.terms@, ins, aux) == cv * 1);
                } else {
                    assert(lc_eval(r.terms@, ins, aux) == 0);
                    assert(cv * 0 == 0) by (nonlinear_arith);
                }
            },
            Boolean::Is(b) => {
                lemma_lc_eval_push(Seq::<Term>::empty(), (Term { var: b.var, coeff }), ins, aux);
                assert(lc_eval(r.terms@, ins, aux) == cv * bit_int(bl.value_spec().unwrap()));
            },
            Boolean::Not(b) => {
                let t0 = r.terms@[0];
                let t1 = r.terms@[1];
                assert(r.terms@ == Seq::<Term>::empty().push(t0).push(t1));
                lemma_lc_eval_push(Seq::<Term>::empty(), t0, ins, aux);
                lemma_lc_eval_push(Seq::<Term>::empty().push(t0), t1, ins, aux);
                let bv = bit_int(b.value.unwrap());
                let rv = bit_int(bl.value_spec().unwrap());
                assert(var_eval(t1.var, ins, aux) == bv);
                assert(lc_eval(r.terms@, ins, aux) == cv + t1.coeff.val() * bv);
                assert((cv + ((0 - cv) % q) * bv) % q == (cv * rv) % q) by {
                    if bv == 0 {
                        assert(((0 - cv) % q) * 0 == 0) by (nonlinear_arith);
                        assert(rv == 1);
                        assert(cv * 1 == cv) by (nonlinear_arith);
                    } else {
                        assert(rv == 0);
                        assert(((0 - cv) % q) * 1 == (0 - cv) % q) by (nonlinear_arith);
                        vstd::arithmetic::div_mod::lemma_add_mod_noop_right(cv, 0 - cv, q);
                        assert(cv + (0 - cv) == 0);
                        assert(cv * 0 == 0) by (nonlinear_arith);
                        vstd::arithmetic::div_mod::lemma_small_mod(0nat, q as nat);
                    }
                }
            },
        }
    }
}

/// Allocates the conjunction of two bits, folding constants like the
/// corresponding gate on allocated bits.
pub fn boolean_and(cs: &mut ConstraintSystem, a: &Boolean, b: &Boolean) -> (r: Boolean)
    requires
        old(cs).wf(),
        a.wf(*old(cs)),
        b.wf(*old(cs)),
    ensures
        final(cs).wf(),
        final(cs).extends(*old(cs)),
        final(cs).inputs@ == old(cs).inputs@,
        final(cs).constraints@.len() <= old(cs).constraints@.len() + 1,
        r.wf(*final(cs)),
        (a.value_spec() is Some && b.value_spec() is Some) ==> (r.value_spec() is Some
            && r.value_spec().unwrap() == (a.value_spec().unwrap() && b.value_spec().unwrap())),
        (a.value_spec() is Some && b.value_spec() is Some) ==> final(cs).new_sat(*old(cs)),
    {
    match (a, b) {
        (Boolean::Constant(false), _) | (_, Boolean::Constant(false)) => Boolean::Constant(false),
        (Boolean::Constant(true), x) | (x, Boolean::Constant(true)) => x.clone(),
        (Boolean::Is(ia), Boolean::Not(nb)) => Boolean::Is(
            AllocatedBit::and_not(cs, ia, nb),
        ),
        (Boolean::Not(na), Boolean::Is(ib)) => Boolean::Is(
            AllocatedBit::and_not(cs, ib, na),
        ),
        (Boolean::Not(na), Boolean::Not(nb)) => Boolean::Is(AllocatedBit::nor(cs, na, nb)),
        (Boolean::Is(ia), Boolean::Is(ib)) => Boolean::Is(AllocatedBit::and(cs, ia, ib)),
    }
}

/// Whether every allocated bit of a sequence is well formed in the system.
pub open spec fn abits_wf(s: Seq<AllocatedBit>, cs: ConstraintSystem) -> bool {
    forall|i: int| 0 <= i < s.len() ==> (#[trigger] s[i]).wf(cs)
}

/// Well-formed allocated bits stay well formed as the system grows.
pub proof fn lemma_abits_wf_extend(s: Seq<AllocatedBit>, o: ConstraintSystem, n: ConstraintSystem)
    requires
        abits_wf(s, o),
        n.extends(o),
    ensures
        abits_wf(s, n),
{
    assert forall|i: int| 0 <= i < s.len() implies (#[trigger] s[i]).wf(n) by {
        lemma_bit_wf_extend(s[i], o, n);
    }
}

/// Whether every bit of a sequence carries a value.
pub open spec fn bits_all_known(s: Seq<Boolean>) -> bool {
    forall|i: int| 0 <= i < s.len() ==> (#[trigger] s[i]).value_spec() is Some
}

/// The values of a sequence of bits, each of which must carry one.
pub open spec fn bits_values(s: Seq<Boolean>) -> Seq<bool> {
    s.map_values(|b: Boolean| b.value_spec().unwrap())
}

/// Whether every bit of a sequence is well formed in the system.
pub open spec fn bits_wf(s: Seq<Boolean>, cs: ConstraintSystem) -> bool {
    forall|i: int| 0 <= i < s.len() ==> (#[trigger] s[i]).wf(cs)
}

/// Well-formed bits stay well formed as the system grows.
pub proof fn lemma_bits_wf_extend(s: Seq<Boolean>, o: ConstraintSystem, n: ConstraintSystem)
    requires
        bits_wf(s, o),
        n.extends(o),
    ensures
        bits_wf(s, n),
{
    assert forall|i: int| 0 <= i < s.len() implies (#[trigger] s[i]).wf(n) by {
        lemma_boolean_wf_extend(s[i], o, n);
    }
}

/// A well-formed bit stays well formed as the system grows.
pub proof fn lemma_bit_wf_extend(b: AllocatedBit, o: ConstraintSystem, n: ConstraintSystem)
    requires
        b.wf(o),
        n.extends(o),
    ensures
        b.wf(n),
{
    crate::cs::lemma_extends_assignment(n, o, b.var);
}

/// A well-formed boolean stays well formed as the system grows.
pub proof fn lemma_boolean_wf_extend(b: Boolean, o: ConstraintSystem, n: ConstraintSystem)
    requires
        b.wf(o),
        n.extends(o),
    ensures
        b.wf(n),
{
    match b {
        Boolean::Is(bit) => lemma_bit_wf_extend(bit, o, n),
        Boolean::Not(bit) => lemma_bit_wf_extend(bit, o, n),
        Boolean::Constant(_) => {},
    }
}

} // verus!
