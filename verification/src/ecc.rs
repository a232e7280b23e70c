//! Gadgets implementing Jubjub elliptic curve operations: twisted-Edwards
//! points with unified addition, doubling, conditional selection and scalar
//! multiplication, and Montgomery-form points used as scratch form for
//! window lookups.

use vstd::prelude::*;

use crate::boolean::{bit_int, Boolean};
use crate::cs::{
    c_sat, lc_eval, lc_in_bounds, lemma_lc_eval_push, lemma_lc_in_bounds_append, var_eval,
    ConstraintSystem, LinComb, SynthesisError, Term, Var,
};
use crate::field::{
    fadd, fdiv, finv, fmul, fneg, fq_add, fq_invert, fq_mul, fq_neg, fq_one, fq_q, fq_sub, fsub,
    lemma_div_constraint, lemma_fq_val_bound, lemma_inv_is_finv, lemma_mod_eq_iff_diff_zero,
    lemma_modl_add, lemma_modl_sub, lemma_modr_add, lemma_modr_sub, opt_add, opt_mul, Fq,
};
use crate::num::{lemma_num_wf_extend, AllocatedNum, Num};

verus! {

/// The twisted-Edwards curve coefficient `d` of Jubjub.
pub open spec fn edwards_d_int() -> int {
    0x2a9318e74bfa2b48f5fd9207e6bd7fd4292d7f6d37579d2601065fd6d6343eb1int
}

/// The Montgomery curve coefficient `A` of Jubjub.
pub open spec fn montgomery_a_int() -> int {
    40962
}

/// The scaling factor of the birational map from Montgomery to Edwards
/// form; its square is `-(A + 2)`.
pub open spec fn montgomery_scale_int() -> int {
    0x2762de61e862645e31de341e77d764e5ce4069703da88abd8f4535f7cf82b8d9int
}

/// The Edwards coefficient `d` as a field element.
pub fn edwards_d() -> (r: Fq)
    ensures
        r.val() == edwards_d_int(),
{
    let bytes: [u8; 32] = [
        177, 62, 52, 214, 214, 95, 6, 1, 38, 157, 87, 55, 109, 127, 45, 41, 212, 127, 189, 230, 7,
        146, 253, 245, 72, 43, 250, 75, 231, 24, 147, 42,
    ];
    proof {
        reveal_with_fuel(crate::field::le_val, 33);
        vstd::arithmetic::div_mod::lemma_small_mod(edwards_d_int() as nat, fq_q() as nat);
    }
    crate::field::fq_from_canonical_bytes(bytes)
}

/// The Montgomery coefficient `A` as a field element.
pub fn montgomery_a() -> (r: Fq)
    ensures
        r.val() == montgomery_a_int(),
{
    let bytes: [u8; 32] = [
        2, 160, 0, 0, 0, 0, 0, 0, 0, 0, 0, 0, 0, 0, 0, 0, 0, 0, 0, 0, 0, 0, 0, 0, 0, 0, 0, 0, 0,
        0, 0, 0,
    ];
    proof {
        reveal_with_fuel(crate::field::le_val, 33);
        vstd::arithmetic::div_mod::lemma_small_mod(montgomery_a_int() as nat, fq_q() as nat);
    }
    crate::field::fq_from_canonical_bytes(bytes)
}

/// The Montgomery-to-Edwards scaling factor as a field element.
pub fn montgomery_scale() -> (r: Fq)
    ensures
        r.val() == montgomery_scale_int(),
{
    let bytes: [u8; 32] = [
        217, 184, 130, 207, 247, 53, 69, 143, 189, 138, 168, 61, 112, 105, 64, 206, 229, 100, 215,
        119, 30, 52, 222, 49, 94, 100, 98, 232, 97, 222, 98, 39,
    ];
    proof {
        reveal_with_fuel(crate::field::le_val, 33);
        vstd::arithmetic::div_mod::lemma_small_mod(montgomery_scale_int() as nat, fq_q() as nat);
    }
    crate::field::fq_from_canonical_bytes(bytes)
}

/// Whether `(u, v)` satisfies the twisted-Edwards curve equation
/// `-u^2 + v^2 = 1 + d u^2 v^2` over the field.
pub open spec fn on_curve(u: int, v: int) -> bool {
    ((v * v - u * u) - (1 + edwards_d_int() * (u * u) * (v * v))) % fq_q() == 0
}

/// The affine coordinates of a curve point, as plain field elements.
#[derive(Clone, Copy, Debug, PartialEq, Eq)]
pub struct PointValue {
    pub u: Fq,
    pub v: Fq,
}

/// A point on the Jubjub curve inside the constraint system, in twisted
/// Edwards form.
#[derive(Clone, Copy, Debug)]
pub struct EdwardsPoint {
    pub u: AllocatedNum,
    pub v: AllocatedNum,
}

impl EdwardsPoint {
    /// Both coordinates are backed by the system's assignment.
    pub open spec fn wf(self, cs: ConstraintSystem) -> bool {
        self.u.wf(cs) && self.v.wf(cs)
    }

    /// Whether both coordinates carry witness values.
    pub open spec fn has_value(self) -> bool {
        self.u.value is Some && self.v.value is Some
    }

    /// The coordinate values, when present.
    pub open spec fn value(self) -> (int, int) {
        (self.u.val(), self.v.val())
    }

    /// The `u` coordinate.
    pub fn get_u(&self) -> (r: &AllocatedNum)
        ensures
            r == &self.u,
    {
        &self.u
    }

    /// Interprets two allocated numbers as a point, enforcing the curve
    /// equation; with both witness values present, the system stays
    /// satisfiable exactly when the values lie on the curve.
    pub fn interpret(cs: &mut ConstraintSystem, u: &AllocatedNum, v: &AllocatedNum) -> (r:
        EdwardsPoint)
        requires
            old(cs).wf(),
            u.wf(*old(cs)),
            v.wf(*old(cs)),
        ensures
            final(cs).wf(),
            final(cs).extends(*old(cs)),
            final(cs).inputs@ == old(cs).inputs@,
            r.u == *u,
            r.v == *v,
            r.wf(*final(cs)),
            (u.value is Some && v.value is Some) ==> (final(cs).satisfied() <==> (old(
                cs,
            ).satisfied() && on_curve(u.val(), v.val()))),
    {
        let ghost pre = *old(cs);
        let u2 = u.square(cs);
        let ghost csa = *cs;
        proof {
            lemma_num_wf_extend(*v, pre, csa);
        }
        let v2 = v.square(cs);
        let ghost cs1 = *cs;
        proof {
            lemma_num_wf_extend(u2, csa, cs1);
            if u.value is Some && v.value is Some {
                crate::cs::lemma_new_sat_trans(pre, csa, cs1);
            }
        }
        let u2v2 = u2.mul(cs, &v2);
        let ghost cs2 = *cs;
        let one = fq_one();
        let neg_one = fq_neg(&one);
        let d = edwards_d();
        let mut a_lc = LinComb::of_term(u2.var, neg_one);
        a_lc.push_term(v2.var, one);
        let b_lc = LinComb::of_term(ConstraintSystem::one(), one);
        let mut c_lc = LinComb::of_term(ConstraintSystem::one(), one);
        c_lc.push_term(u2v2.var, d);
        proof {
            lemma_num_wf_extend(u2, cs1, cs2);
            lemma_num_wf_extend(v2, cs1, cs2);
        }
        cs.enforce(a_lc, b_lc, c_lc);
        proof {
            lemma_num_wf_extend(*u, pre, *cs);
            lemma_num_wf_extend(*v, pre, *cs);
            if u.value is Some && v.value is Some {
                let q = fq_q();
                let ins = cs.inputs@;
                let aux = cs.aux@;
                let uv = u.val();
                let vv = v.val();
                let vu2 = u2.val();
                let vv2 = v2.val();
                let vuv = u2v2.val();
                let dd = edwards_d_int();
                let cst = cs.constraints@.last();
                let ta = (Term { var: u2.var, coeff: neg_one });
                let tb = (Term { var: v2.var, coeff: one });
                lemma_lc_eval_push(Seq::<Term>::empty(), ta, ins, aux);
                lemma_lc_eval_push(Seq::<Term>::empty().push(ta), tb, ins, aux);
                lemma_lc_eval_push(
                    Seq::<Term>::empty(),
                    (Term { var: Var::Input(0), coeff: one }),
                    ins,
                    aux,
                );
                let tc = (Term { var: Var::Input(0), coeff: one });
                let td = (Term { var: u2v2.var, coeff: d });
                lemma_lc_eval_push(Seq::<Term>::empty().push(tc), td, ins, aux);
                let ea = lc_eval(cst.a.terms@, ins, aux);
                let eb = lc_eval(cst.b.terms@, ins, aux);
                let ec = lc_eval(cst.c.terms@, ins, aux);
                assert(neg_one.val() == q - 1) by {
                    crate::field::lemma_fneg_val(1);
                }
                assert(cst.a.terms@ == Seq::<Term>::empty().push(ta).push(tb));
                assert(cst.b.terms@ == Seq::<Term>::empty().push(tc));
                assert(cst.c.terms@ == Seq::<Term>::empty().push(tc).push(td));
                assert(var_eval(u2.var, ins, aux) == vu2);
                assert(var_eval(v2.var, ins, aux) == vv2);
                assert(var_eval(u2v2.var, ins, aux) == vuv);
                assert(var_eval(Var::Input(0), ins, aux) == 1);
                assert(one.val() == 1);
                assert(lc_eval(Seq::<Term>::empty().push(ta), ins, aux) == neg_one.val() * vu2);
                assert(lc_eval(Seq::<Term>::empty().push(ta).push(tb), ins, aux) == neg_one.val()
                    * vu2 + one.val() * vv2);
                assert(ea == (q - 1) * vu2 + 1 * vv2);
                assert(1 * vv2 == vv2) by (nonlinear_arith);
                assert(ea == (q - 1) * vu2 + vv2);
                assert(eb == 1);
                assert(ec == 1 + dd * vuv);
                // The last constraint holds exactly when the raw coordinates
                // satisfy the curve equation.
                assert((ea * eb - ec) % q == ((vv2 - vu2) - (1 + dd * vuv)) % q) by {
                    assert(ea * eb == ea) by (nonlinear_arith)
                        requires
                            eb == 1,
                    ;
                    assert((q - 1) * vu2 == q * vu2 - 1 * vu2) by {
                        vstd::arithmetic::mul::lemma_mul_is_distributive_sub(vu2, q, 1);
                        vstd::arithmetic::mul::lemma_mul_is_commutative(vu2, q - 1);
                        vstd::arithmetic::mul::lemma_mul_is_commutative(vu2, q);
                    }
                    assert(ea - ec == q * vu2 + ((vv2 - vu2) - (1 + dd * vuv)));
                    vstd::arithmetic::div_mod::lemma_mod_multiples_vanish(
                        vu2,
                        (vv2 - vu2) - (1 + dd * vuv),
                        q,
                    );
                }
                assert(((vv2 - vu2) - (1 + dd * vuv)) % q == ((vv * vv - uv * uv) - (1 + dd * (uv
                    * uv) * (vv * vv))) % q) by {
                    lemma_curve_residues(uv, vv, vu2, vv2, vuv);
                }
                assert(c_sat(cst, ins, aux) == on_curve(uv, vv));
                assert forall|i: int|
                    0 <= i < cs2.constraints@.len() implies (c_sat(
                    #[trigger] cs.constraints@[i],
                    ins,
                    aux,
                ) == c_sat(cs2.constraints@[i], cs2.inputs@, cs2.aux@)) by {
                    assert(cs.constraints@[i] == cs2.constraints@[i]);
                    crate::cs::lemma_c_sat_extend(
                        cs2.constraints@[i],
                        cs2.inputs@,
                        cs2.aux@,
                        ins,
                        aux,
                    );
                }
                if cs2.satisfied() && on_curve(uv, vv) {
                    assert forall|i: int| 0 <= i < cs.constraints@.len() implies c_sat(
                        #[trigger] cs.constraints@[i],
                        ins,
                        aux,
                    ) by {
                        if i < cs2.constraints@.len() {
                            assert(c_sat(cs2.constraints@[i], cs2.inputs@, cs2.aux@));
                        } else {
                            assert(cs.constraints@[i] == cst);
                        }
                    }
                    assert(cs.satisfied());
                }
                if cs.satisfied() {
                    assert forall|i: int| 0 <= i < cs2.constraints@.len() implies c_sat(
                        #[trigger] cs2.constraints@[i],
                        cs2.inputs@,
                        cs2.aux@,
                    ) by {
                        assert(c_sat(cs.constraints@[i], ins, aux));
                    }
                    assert(cs2.satisfied());
                    assert(c_sat(cst, ins, aux));
                    assert(on_curve(uv, vv));
                }
                // The three squaring and product constraints are satisfied
                // by construction, so satisfiability before the curve check
                // reduces to satisfiability at entry.
                lemma_sat_iff_through(pre, cs1, cs2);
            }
        }
        EdwardsPoint { u: *u, v: *v }
    }
}

impl EdwardsPoint {
    /// Witnesses a point from optional affine coordinates and enforces the
    /// curve equation; with a witness present, the system stays satisfiable
    /// exactly when the coordinates lie on the curve.
    pub fn witness(cs: &mut ConstraintSystem, p: Option<PointValue>) -> (r: EdwardsPoint)
    requires
        old(cs).wf(),
    ensures
        final(cs).wf(),
        final(cs).extends(*old(cs)),
        final(cs).inputs@ == old(cs).inputs@,
        r.wf(*final(cs)),
        p is Some ==> r.u.value == Some(p.unwrap().u) && r.v.value == Some(p.unwrap().v),
        p is None ==> r.u.value is None && r.v.value is None,
        p is Some ==> (final(cs).satisfied() <==> (old(cs).satisfied() && on_curve(
            p.unwrap().u.val(),
            p.unwrap().v.val(),
        ))),
{
    let ghost pre = *old(cs);
    let (uval, vval): (Option<Fq>, Option<Fq>) = match &p {
        Some(pv) => (Some(pv.u), Some(pv.v)),
        None => (None, None),
    };
    let u = AllocatedNum::allocate(cs, uval);
    let ghost mid = *cs;
    let v = AllocatedNum::allocate(cs, vval);
    proof {
        lemma_num_wf_extend(u, mid, *cs);
        if p is Some {
            // No constraint was recorded yet, so satisfaction at this point
            // mirrors satisfaction at entry.
            assert forall|i: int| 0 <= i < pre.constraints@.len() implies (c_sat(
                #[trigger] cs.constraints@[i],
                cs.inputs@,
                cs.aux@,
            ) == c_sat(pre.constraints@[i], pre.inputs@, pre.aux@)) by {
                assert(cs.constraints@[i] == pre.constraints@[i]);
                crate::cs::lemma_c_sat_extend(
                    pre.constraints@[i],
                    pre.inputs@,
                    pre.aux@,
                    cs.inputs@,
                    cs.aux@,
                );
            }
        }
    }
    let ghost cs2 = *cs;
    let r = EdwardsPoint::interpret(cs, &u, &v);
    proof {
        if p is Some {
            if pre.satisfied() {
                assert(cs2.satisfied());
            }
            if cs2.satisfied() {
                assert(pre.satisfied());
            }
        }
    }
        r
    }
}

impl EdwardsPoint {
    /// Returns `self` when the condition holds and the neutral element
    /// `(0, 1)` otherwise, with both branches present as constraints.
    pub fn conditionally_select(&self, cs: &mut ConstraintSystem, condition: &Boolean) -> (r:
        EdwardsPoint)
        requires
            old(cs).wf(),
            self.wf(*old(cs)),
            condition.wf(*old(cs)),
        ensures
            final(cs).wf(),
            final(cs).extends(*old(cs)),
            final(cs).inputs@ == old(cs).inputs@,
            r.wf(*final(cs)),
            condition.value_spec() is None ==> (r.u.value is None && r.v.value is None),
            condition.value_spec() == Some(true) ==> (r.u.value == self.u.value && r.v.value
                == self.v.value),
            condition.value_spec() == Some(false) ==> (r.has_value() && r.value() == (0int, 1int)),
            (self.has_value() && condition.value_spec() is Some) ==> final(cs).new_sat(*old(cs)),
    {
        let ghost pre = *old(cs);
        let u_prime_val: Option<Fq> = match condition.get_value() {
            None => None,
            Some(true) => self.u.value,
            Some(false) => Some(crate::field::fq_zero()),
        };
        let v_prime_val: Option<Fq> = match condition.get_value() {
            None => None,
            Some(true) => self.v.value,
            Some(false) => Some(fq_one()),
        };
        let u_prime = AllocatedNum::allocate(cs, u_prime_val);
        let ghost mid = *cs;
        let v_prime = AllocatedNum::allocate(cs, v_prime_val);
        proof {
            lemma_num_wf_extend(u_prime, mid, *cs);
            crate::boolean::lemma_boolean_wf_extend(*condition, pre, *cs);
            lemma_num_wf_extend(self.u, pre, *cs);
            lemma_num_wf_extend(self.v, pre, *cs);
        }
        let one = fq_one();
        let neg_one = fq_neg(&one);
        // condition * u = u': the selected coordinate is u when the
        // condition holds and zero otherwise.
        let a1 = LinComb::of_term(self.u.var, one);
        let b1 = condition.lc(&one);
        let c1 = LinComb::of_term(u_prime.var, one);
        let ghost mid2 = *cs;
        cs.enforce(a1, b1, c1);
        proof {
            if self.has_value() && condition.value_spec() is Some {
                lemma_fq_val_bound(self.u.value.unwrap());
                lemma_fq_val_bound(u_prime_val.unwrap());
                lemma_select_constraint_sat(
                    *cs,
                    mid2,
                    self.u.var,
                    u_prime.var,
                    condition.value_spec().unwrap(),
                    self.u.val(),
                    u_prime_val.unwrap().val(),
                    one,
                );
            }
        }
        // condition * v = v' - (1 - condition): the selected coordinate is
        // v when the condition holds and one otherwise.
        let a2 = LinComb::of_term(self.v.var, one);
        let b2 = condition.lc(&one);
        let notc = condition.negate();
        let mut c2 = LinComb::of_term(v_prime.var, one);
        let not_lc = notc.lc(&neg_one);
        c2.extend_with(&not_lc);
        proof {
            let ni = cs.inputs@.len();
            let na = cs.aux@.len();
            assert(cs.wf());
            assert(lc_in_bounds(not_lc.terms@, ni, na));
            let s0 = Seq::<Term>::empty().push((Term { var: v_prime.var, coeff: one }));
            assert(lc_in_bounds(s0, ni, na)) by {
                assert(s0[0].var == v_prime.var);
            }
            lemma_lc_in_bounds_append(s0, not_lc.terms@, ni, na);
        }
        let ghost mid3 = *cs;
        cs.enforce(a2, b2, c2);
        proof {
            lemma_num_wf_extend(u_prime, mid, *cs);
            lemma_num_wf_extend(v_prime, mid3, *cs);
            if self.has_value() && condition.value_spec() is Some {
                let q = fq_q();
                let ins = cs.inputs@;
                let aux = cs.aux@;
                let cv = condition.value_spec().unwrap();
                let cst = cs.constraints@.last();
                let vv = self.v.val();
                let vvp = v_prime_val.unwrap().val();
                lemma_lc_eval_push(
                    Seq::<Term>::empty(),
                    (Term { var: self.v.var, coeff: one }),
                    ins,
                    aux,
                );
                lemma_lc_eval_push(
                    Seq::<Term>::empty(),
                    (Term { var: v_prime.var, coeff: one }),
                    ins,
                    aux,
                );
                let s0 = Seq::<Term>::empty().push((Term { var: v_prime.var, coeff: one }));
                crate::cs::lemma_lc_eval_append(s0, not_lc.terms@, ins, aux);
                let ea = lc_eval(cst.a.terms@, ins, aux);
                let eb = lc_eval(cst.b.terms@, ins, aux);
                let en = lc_eval(not_lc.terms@, ins, aux);
                let ec = lc_eval(cst.c.terms@, ins, aux);
                assert(cst.a.terms@ == Seq::<Term>::empty().push(
                    (Term { var: self.v.var, coeff: one }),
                ));
                assert(cst.c.terms@ == s0 + not_lc.terms@);
                assert(ea == 1 * vv);
                assert(1 * vv == vv) by (nonlinear_arith);
                assert(ec == 1 * vvp + en);
                assert(eb % q == (1 * bit_int(cv)) % q);
                assert(en % q == (neg_one.val() * bit_int(!cv)) % q);
                assert(neg_one.val() == q - 1) by {
                    crate::field::lemma_fneg_val(1);
                }
                lemma_fq_val_bound(self.v.value.unwrap());
                lemma_fq_val_bound(v_prime_val.unwrap());
                lemma_select_v_sat(ea, eb, en, ec, cv, vv, vvp);
                assert(c_sat(cst, ins, aux));
                assert forall|i: int|
                    pre.constraints@.len() <= i < cs.constraints@.len() implies c_sat(
                    #[trigger] cs.constraints@[i],
                    ins,
                    aux,
                ) by {
                    if i < mid3.constraints@.len() {
                        assert(cs.constraints@[i] == mid3.constraints@[i]);
                        crate::cs::lemma_c_sat_extend(
                            mid3.constraints@[i],
                            mid3.inputs@,
                            mid3.aux@,
                            ins,
                            aux,
                        );
                        assert(c_sat(mid3.constraints@[i], mid3.inputs@, mid3.aux@));
                    }
                }
            }
        }
        EdwardsPoint { u: u_prime, v: v_prime }
    }
}

/// The unified twisted-Edwards addition formula on coordinate values:
/// `u3 = (A + B) / (1 + C)` and `v3 = (U - A - B) / (1 - C)` with
/// `U = (u1 + v1)(u2 + v2)`, `A = v2 u1`, `B = u2 v1` and `C = d A B`;
/// absent when a denominator vanishes.
#[verifier::opaque]
pub open spec fn edw_add_c(p: (int, int), o: (int, int)) -> Option<(int, int)> {
    let bigu = fmul(fadd(p.0, p.1), fadd(o.0, o.1));
    let a = fmul(o.1, p.0);
    let b = fmul(o.0, p.1);
    let c = fmul(fmul(a, b), edwards_d_int());
    let du = fadd(1, c);
    let dv = fsub(1, c);
    if du == 0 || dv == 0 {
        None
    } else {
        Some((fdiv(fadd(a, b), du), fdiv(fsub(fsub(bigu, a), b), dv)))
    }
}

/// The doubling formula on coordinate values: the addition formula
/// specialised to equal operands, with `T = (u + v)^2` in place of the
/// cross term.
#[verifier::opaque]
pub open spec fn edw_double_c(p: (int, int)) -> Option<(int, int)> {
    let t = fmul(fadd(p.0, p.1), fadd(p.0, p.1));
    let a = fmul(p.0, p.1);
    let c = fmul(fmul(a, a), edwards_d_int());
    let du = fadd(1, c);
    let dv = fsub(1, c);
    if du == 0 || dv == 0 {
        None
    } else {
        Some((fdiv(fadd(a, a), du), fdiv(fadd(fneg(fadd(a, a)), t), dv)))
    }
}

/// Doubling agrees with adding a point to itself: the two formulas compute
/// the same coordinates, and fail on the same points.
pub proof fn lemma_double_matches_add(p: (int, int))
    ensures
        edw_double_c(p) == edw_add_c(p, p),
{
    reveal(edw_add_c);
    reveal(edw_double_c);
    let q = fq_q();
    let u = p.0;
    let v = p.1;
    assert(v * u == u * v) by (nonlinear_arith);
    let a = fmul(u, v);
    assert(fmul(v, u) == a);
    let t = fmul(fadd(u, v), fadd(u, v));
    let c = fmul(fmul(a, a), edwards_d_int());
    let du = fadd(1, c);
    let dv = fsub(1, c);
    if !(du == 0 || dv == 0) {
        // The v-coordinate numerators agree modulo the field modulus.
        let n1 = fadd(fneg(fadd(a, a)), t);
        let n2 = fsub(fsub(t, a), a);
        assert(n1 == n2) by {
            lemma_modl_add(0 - ((a + a) % q), t);
            lemma_modr_sub(0 - (a + a) + t, 0);
            assert(n1 == ((0 - ((a + a) % q)) % q + t) % q);
            assert(((0 - ((a + a) % q)) + t) % q == (t - ((a + a) % q)) % q);
            crate::field::lemma_modr_sub(t, a + a);
            assert((t - (a + a)) % q == n1);
            lemma_modl_sub(t - a, a);
            assert(n2 == ((t - a) % q - a) % q);
            assert((t - a - a) % q == n2);
        }
    }
}

impl EdwardsPoint {
    /// Doubles the point with the unified formula, saving one cross-term
    /// multiplication. With a witness present, the result carries exactly
    /// the coordinates of the doubling formula, a vanishing denominator
    /// surfaces as a division-by-zero error, and every recorded constraint
    /// is satisfied by the witness.
    pub fn double(&self, cs: &mut ConstraintSystem) -> (r: Result<EdwardsPoint, SynthesisError>)
        requires
            old(cs).wf(),
            self.wf(*old(cs)),
        ensures
            final(cs).wf(),
            final(cs).extends(*old(cs)),
            final(cs).inputs@ == old(cs).inputs@,
            r is Ok ==> r.unwrap().wf(*final(cs)),
            !self.has_value() ==> (r is Ok && r.unwrap().u.value is None && r.unwrap().v.value
                is None),
            self.has_value() ==> (match edw_double_c(self.value()) {
                Some(pv) => r is Ok && r.unwrap().has_value() && r.unwrap().value() == pv
                    && final(cs).new_sat(*old(cs)),
                None => r is Err && r.unwrap_err() == SynthesisError::DivisionByZero,
            }),
    {
        proof {
            reveal(edw_double_c);
        }
        let ghost pre = *old(cs);
        let one = fq_one();
        let neg_one = fq_neg(&one);
        let d = edwards_d();
        // T = (u + v)^2.
        let t_val = opt_mul(
            &opt_add(&self.u.value, &self.v.value),
            &opt_add(&self.u.value, &self.v.value),
        );
        let t = AllocatedNum::allocate(cs, t_val);
        let mut ta_lc = LinComb::of_term(self.u.var, one);
        ta_lc.push_term(self.v.var, one);
        let mut tb_lc = LinComb::of_term(self.u.var, one);
        tb_lc.push_term(self.v.var, one);
        let tc_lc = LinComb::of_term(t.var, one);
        proof {
            crate::num::lemma_num_wf_extend(self.u, pre, *cs);
            crate::num::lemma_num_wf_extend(self.v, pre, *cs);
        }
        cs.enforce(ta_lc, tb_lc, tc_lc);
        let ghost cs1 = *cs;
        proof {
            crate::num::lemma_num_wf_extend(self.u, pre, cs1);
            crate::num::lemma_num_wf_extend(self.v, pre, cs1);
            if self.has_value() {
                let ins = cs1.inputs@;
                let aux = cs1.aux@;
                let cst = cs1.constraints@.last();
                crate::cs::lemma_lc_eval_pair1(self.u.var, self.v.var, one, ins, aux);
                crate::cs::lemma_lc_eval_single1(t.var, one, ins, aux);
                let s = self.u.val() + self.v.val();
                assert(lc_eval(cst.a.terms@, ins, aux) == s);
                assert(lc_eval(cst.b.terms@, ins, aux) == s);
                assert(lc_eval(cst.c.terms@, ins, aux) == t.val());
                crate::field::lemma_prod_mod_zero(s, s, t.val());
                assert(c_sat(cst, ins, aux));
            }
        }
        // A = u v.
        let a = self.u.mul(cs, &self.v);
        let ghost cs2 = *cs;
        proof {
            lemma_num_wf_extend(t, cs1, cs2);
            if self.has_value() {
                crate::cs::lemma_new_sat_trans(pre, cs1, cs2);
            }
        }
        // C = d A A.
        let c_val = opt_mul(&opt_mul(&a.value, &a.value), &Some(d));
        let c_num = AllocatedNum::allocate(cs, c_val);
        let ca_lc = LinComb::of_term(a.var, d);
        let cb_lc = LinComb::of_term(a.var, one);
        let cc_lc = LinComb::of_term(c_num.var, one);
        cs.enforce(ca_lc, cb_lc, cc_lc);
        let ghost cs3 = *cs;
        proof {
            lemma_num_wf_extend(t, cs2, cs3);
            lemma_num_wf_extend(a, cs2, cs3);
            crate::num::lemma_num_wf_extend(self.u, pre, cs3);
            crate::num::lemma_num_wf_extend(self.v, pre, cs3);
            if self.has_value() {
                let ins = cs3.inputs@;
                let aux = cs3.aux@;
                let cst = cs3.constraints@.last();
                lemma_lc_eval_push(Seq::<Term>::empty(), (Term { var: a.var, coeff: d }), ins, aux);
                crate::cs::lemma_lc_eval_single1(a.var, one, ins, aux);
                crate::cs::lemma_lc_eval_single1(c_num.var, one, ins, aux);
                assert(cst.a.terms@ == Seq::<Term>::empty().push((Term { var: a.var, coeff: d })));
                assert(lc_eval(cst.a.terms@, ins, aux) == d.val() * a.val());
                assert(lc_eval(cst.b.terms@, ins, aux) == a.val());
                assert(lc_eval(cst.c.terms@, ins, aux) == c_num.val());
                crate::field::lemma_scaled_prod_zero(
                    edwards_d_int(),
                    a.val(),
                    a.val(),
                    c_num.val(),
                );
                assert(c_sat(cst, ins, aux));
                crate::cs::lemma_new_sat_trans(pre, cs2, cs3);
            }
        }
        // u3 = 2A / (1 + C).
        let u3_val: Option<Fq> = match (&a.value, &c_num.value) {
            (Some(av), Some(cv)) => {
                let den = fq_add(&one, cv);
                let inv = match fq_invert(&den) {
                    Some(i) => i,
                    None => {
                        return Err(SynthesisError::DivisionByZero);
                    },
                };
                let num = fq_add(av, av);
                proof {
                    lemma_fq_val_bound(inv);
                    lemma_inv_is_finv(den.val(), inv.val());
                }
                Some(fq_mul(&num, &inv))
            },
            _ => None,
        };
        let u3 = AllocatedNum::allocate(cs, u3_val);
        let mut ua_lc = LinComb::of_term(ConstraintSystem::one(), one);
        ua_lc.push_term(c_num.var, one);
        let ub_lc = LinComb::of_term(u3.var, one);
        let mut uc_lc = LinComb::of_term(a.var, one);
        uc_lc.push_term(a.var, one);
        cs.enforce(ua_lc, ub_lc, uc_lc);
        let ghost cs4 = *cs;
        proof {
            lemma_num_wf_extend(t, cs3, cs4);
            lemma_num_wf_extend(a, cs3, cs4);
            lemma_num_wf_extend(c_num, cs3, cs4);
            if self.has_value() {
                let ins = cs4.inputs@;
                let aux = cs4.aux@;
                let cst = cs4.constraints@.last();
                crate::cs::lemma_lc_eval_one_and(c_num.var, one, one, ins, aux);
                crate::cs::lemma_lc_eval_single1(u3.var, one, ins, aux);
                crate::cs::lemma_lc_eval_pair1(a.var, a.var, one, ins, aux);
                let vc = c_num.val();
                assert(lc_eval(cst.a.terms@, ins, aux) == 1 + 1 * var_eval(c_num.var, ins, aux));
                assert(1 * vc == vc) by (nonlinear_arith);
                assert(lc_eval(cst.a.terms@, ins, aux) == 1 + vc);
                assert(lc_eval(cst.b.terms@, ins, aux) == u3.val());
                assert(lc_eval(cst.c.terms@, ins, aux) == a.val() + a.val());
                lemma_div_constraint(
                    1 + vc,
                    a.val() + a.val(),
                    (1 + vc) % fq_q(),
                    finv(fadd(1, vc)),
                    u3.val(),
                );
                assert(c_sat(cst, ins, aux));
                crate::cs::lemma_new_sat_trans(pre, cs3, cs4);
            }
        }
        // v3 = (T - 2A) / (1 - C).
        let v3_val: Option<Fq> = match (&a.value, &c_num.value, &t.value) {
            (Some(av), Some(cv), Some(tv)) => {
                let den = fq_sub(&one, cv);
                let inv = match fq_invert(&den) {
                    Some(i) => i,
                    None => {
                        return Err(SynthesisError::DivisionByZero);
                    },
                };
                let num = fq_add(&fq_neg(&fq_add(av, av)), tv);
                proof {
                    lemma_fq_val_bound(inv);
                    lemma_inv_is_finv(den.val(), inv.val());
                    let q = fq_q();
                    let s = av.val() + av.val();
                    // The witnessed numerator is `T - 2A` reduced.
                    assert(num.val() == (tv.val() - s) % q) by {
                        lemma_modl_add(0 - (s % q), tv.val());
                        assert(num.val() == ((0 - (s % q)) % q + tv.val()) % q);
                        assert(((0 - (s % q)) + tv.val()) % q == (tv.val() - (s % q)) % q);
                        crate::field::lemma_modr_sub(tv.val(), s);
                    }
                }
                Some(fq_mul(&num, &inv))
            },
            _ => None,
        };
        let v3 = AllocatedNum::allocate(cs, v3_val);
        let mut va_lc = LinComb::of_term(ConstraintSystem::one(), one);
        va_lc.push_term(c_num.var, neg_one);
        let vb_lc = LinComb::of_term(v3.var, one);
        let mut vc_lc = LinComb::of_term(t.var, one);
        vc_lc.push_term(a.var, neg_one);
        vc_lc.push_term(a.var, neg_one);
        cs.enforce(va_lc, vb_lc, vc_lc);
        proof {
            lemma_num_wf_extend(u3, cs4, *cs);
            if self.has_value() {
                let q = fq_q();
                let ins = cs.inputs@;
                let aux = cs.aux@;
                let cst = cs.constraints@.last();
                crate::cs::lemma_lc_eval_one_and(c_num.var, neg_one, one, ins, aux);
                crate::cs::lemma_lc_eval_single1(v3.var, one, ins, aux);
                crate::cs::lemma_lc_eval_triple(t.var, one, a.var, neg_one, a.var, neg_one, ins, aux);
                let vc = c_num.val();
                let va = a.val();
                let vt = t.val();
                assert(neg_one.val() == q - 1) by {
                    crate::field::lemma_fneg_val(1);
                }
                let ea = lc_eval(cst.a.terms@, ins, aux);
                let eb = lc_eval(cst.b.terms@, ins, aux);
                let ec = lc_eval(cst.c.terms@, ins, aux);
                assert(ea == 1 + (q - 1) * vc);
                assert(eb == v3.val());
                assert(ec == 1 * vt + (q - 1) * va + (q - 1) * va) by {
                    assert(var_eval(t.var, ins, aux) == vt);
                    assert(var_eval(a.var, ins, aux) == va);
                }
                assert(1 * vt == vt) by (nonlinear_arith);
                lemma_double_v3_sat(ea, eb, ec, vc, va, vt, v3.val());
                assert(c_sat(cst, ins, aux));
                crate::cs::lemma_new_sat_trans(pre, cs4, *cs);
            }
        }
        Ok(EdwardsPoint { u: u3, v: v3 })
    }
}

impl EdwardsPoint {
    /// Adds two points with the unified formula, valid for any pair of
    /// curve points. With witnesses present, the result carries exactly the
    /// coordinates of the addition formula, a vanishing denominator
    /// surfaces as a division-by-zero error, and every recorded constraint
    /// is satisfied by the witness.
    pub fn add(&self, cs: &mut ConstraintSystem, other: &EdwardsPoint) -> (r: Result<
        EdwardsPoint,
        SynthesisError,
    >)
        requires
            old(cs).wf(),
            self.wf(*old(cs)),
            other.wf(*old(cs)),
        ensures
            final(cs).wf(),
            final(cs).extends(*old(cs)),
            final(cs).inputs@ == old(cs).inputs@,
            r is Ok ==> r.unwrap().wf(*final(cs)),
            !(self.has_value() && other.has_value()) ==> (r is Ok && r.unwrap().u.value is None
                && r.unwrap().v.value is None),
            (self.has_value() && other.has_value()) ==> (match edw_add_c(
                self.value(),
                other.value(),
            ) {
                Some(pv) => r is Ok && r.unwrap().has_value() && r.unwrap().value() == pv
                    && final(cs).new_sat(*old(cs)),
                None => r is Err && r.unwrap_err() == SynthesisError::DivisionByZero,
            }),
    {
        proof {
            reveal(edw_add_c);
        }
        let ghost pre = *old(cs);
        let one = fq_one();
        let neg_one = fq_neg(&one);
        let d = edwards_d();
        // U = (u1 + v1)(u2 + v2).
        let bigu_val = opt_mul(
            &opt_add(&self.u.value, &self.v.value),
            &opt_add(&other.u.value, &other.v.value),
        );
        let bigu = AllocatedNum::allocate(cs, bigu_val);
        let mut ua_lc = LinComb::of_term(self.u.var, one);
        ua_lc.push_term(self.v.var, one);
        let mut ub_lc = LinComb::of_term(other.u.var, one);
        ub_lc.push_term(other.v.var, one);
        let uc_lc = LinComb::of_term(bigu.var, one);
        proof {
            crate::num::lemma_num_wf_extend(self.u, pre, *cs);
            crate::num::lemma_num_wf_extend(self.v, pre, *cs);
            crate::num::lemma_num_wf_extend(other.u, pre, *cs);
            crate::num::lemma_num_wf_extend(other.v, pre, *cs);
        }
        cs.enforce(ua_lc, ub_lc, uc_lc);
        let ghost cs1 = *cs;
        proof {
            crate::num::lemma_num_wf_extend(self.u, pre, cs1);
            crate::num::lemma_num_wf_extend(self.v, pre, cs1);
            crate::num::lemma_num_wf_extend(other.u, pre, cs1);
            crate::num::lemma_num_wf_extend(other.v, pre, cs1);
            if self.has_value() && other.has_value() {
                let ins = cs1.inputs@;
                let aux = cs1.aux@;
                let cst = cs1.constraints@.last();
                crate::cs::lemma_lc_eval_pair1(self.u.var, self.v.var, one, ins, aux);
                crate::cs::lemma_lc_eval_pair1(other.u.var, other.v.var, one, ins, aux);
                crate::cs::lemma_lc_eval_single1(bigu.var, one, ins, aux);
                let s1 = self.u.val() + self.v.val();
                let s2 = other.u.val() + other.v.val();
                assert(lc_eval(cst.a.terms@, ins, aux) == s1);
                assert(lc_eval(cst.b.terms@, ins, aux) == s2);
                assert(lc_eval(cst.c.terms@, ins, aux) == bigu.val());
                crate::field::lemma_prod_mod_zero(s1, s2, bigu.val());
                assert(c_sat(cst, ins, aux));
            }
        }
        // A = v2 u1 and B = u2 v1.
        let a = other.v.mul(cs, &self.u);
        let ghost cs2 = *cs;
        proof {
            lemma_num_wf_extend(other.u, cs1, cs2);
            lemma_num_wf_extend(self.v, cs1, cs2);
            lemma_num_wf_extend(bigu, cs1, cs2);
            if self.has_value() && other.has_value() {
                crate::cs::lemma_new_sat_trans(pre, cs1, cs2);
            }
        }
        let b = other.u.mul(cs, &self.v);
        let ghost cs3 = *cs;
        proof {
            lemma_num_wf_extend(a, cs2, cs3);
            lemma_num_wf_extend(bigu, cs2, cs3);
            if self.has_value() && other.has_value() {
                crate::cs::lemma_new_sat_trans(pre, cs2, cs3);
            }
        }
        // C = d A B.
        let c_val = opt_mul(&opt_mul(&a.value, &b.value), &Some(d));
        let c_num = AllocatedNum::allocate(cs, c_val);
        let ca_lc = LinComb::of_term(a.var, d);
        let cb_lc = LinComb::of_term(b.var, one);
        let cc_lc = LinComb::of_term(c_num.var, one);
        cs.enforce(ca_lc, cb_lc, cc_lc);
        let ghost cs4 = *cs;
        proof {
            lemma_num_wf_extend(a, cs3, cs4);
            lemma_num_wf_extend(b, cs3, cs4);
            lemma_num_wf_extend(bigu, cs3, cs4);
            if self.has_value() && other.has_value() {
                let ins = cs4.inputs@;
                let aux = cs4.aux@;
                let cst = cs4.constraints@.last();
                lemma_lc_eval_push(Seq::<Term>::empty(), (Term { var: a.var, coeff: d }), ins, aux);
                crate::cs::lemma_lc_eval_single1(b.var, one, ins, aux);
                crate::cs::lemma_lc_eval_single1(c_num.var, one, ins, aux);
                assert(cst.a.terms@ == Seq::<Term>::empty().push((Term { var: a.var, coeff: d })));
                assert(lc_eval(cst.a.terms@, ins, aux) == d.val() * a.val());
                assert(lc_eval(cst.b.terms@, ins, aux) == b.val());
                assert(lc_eval(cst.c.terms@, ins, aux) == c_num.val());
                crate::field::lemma_scaled_prod_zero(
                    edwards_d_int(),
                    a.val(),
                    b.val(),
                    c_num.val(),
                );
                assert(c_sat(cst, ins, aux));
                crate::cs::lemma_new_sat_trans(pre, cs3, cs4);
            }
        }
        // u3 = (A + B) / (1 + C).
        let u3_val: Option<Fq> = match (&a.value, &b.value, &c_num.value) {
            (Some(av), Some(bv), Some(cv)) => {
                let den = fq_add(&one, cv);
                let inv = match fq_invert(&den) {
                    Some(i) => i,
                    None => {
                        return Err(SynthesisError::DivisionByZero);
                    },
                };
                let num = fq_add(av, bv);
                proof {
                    lemma_fq_val_bound(inv);
                    lemma_inv_is_finv(den.val(), inv.val());
                }
                Some(fq_mul(&num, &inv))
            },
            _ => None,
        };
        let u3 = AllocatedNum::allocate(cs, u3_val);
        let mut u3a_lc = LinComb::of_term(ConstraintSystem::one(), one);
        u3a_lc.push_term(c_num.var, one);
        let u3b_lc = LinComb::of_term(u3.var, one);
        let mut u3c_lc = LinComb::of_term(a.var, one);
        u3c_lc.push_term(b.var, one);
        cs.enforce(u3a_lc, u3b_lc, u3c_lc);
        let ghost cs5 = *cs;
        proof {
            lemma_num_wf_extend(a, cs4, cs5);
            lemma_num_wf_extend(b, cs4, cs5);
            lemma_num_wf_extend(bigu, cs4, cs5);
            lemma_num_wf_extend(c_num, cs4, cs5);
            if self.has_value() && other.has_value() {
                let ins = cs5.inputs@;
                let aux = cs5.aux@;
                let cst = cs5.constraints@.last();
                crate::cs::lemma_lc_eval_one_and(c_num.var, one, one, ins, aux);
                crate::cs::lemma_lc_eval_single1(u3.var, one, ins, aux);
                crate::cs::lemma_lc_eval_pair1(a.var, b.var, one, ins, aux);
                let vc = c_num.val();
                assert(lc_eval(cst.a.terms@, ins, aux) == 1 + 1 * var_eval(c_num.var, ins, aux));
                assert(1 * vc == vc) by (nonlinear_arith);
                assert(lc_eval(cst.a.terms@, ins, aux) == 1 + vc);
                assert(lc_eval(cst.b.terms@, ins, aux) == u3.val());
                assert(lc_eval(cst.c.terms@, ins, aux) == a.val() + b.val());
                lemma_div_constraint(
                    1 + vc,
                    a.val() + b.val(),
                    (1 + vc) % fq_q(),
                    finv(fadd(1, vc)),
                    u3.val(),
                );
                assert(c_sat(cst, ins, aux));
                crate::cs::lemma_new_sat_trans(pre, cs4, cs5);
            }
        }
        // v3 = (U - A - B) / (1 - C).
        let v3_val: Option<Fq> = match (&a.value, &b.value, &c_num.value, &bigu.value) {
            (Some(av), Some(bv), Some(cv), Some(uv)) => {
                let den = fq_sub(&one, cv);
                let inv = match fq_invert(&den) {
                    Some(i) => i,
                    None => {
                        return Err(SynthesisError::DivisionByZero);
                    },
                };
                let num = fq_sub(&fq_sub(uv, av), bv);
                proof {
                    lemma_fq_val_bound(inv);
                    lemma_inv_is_finv(den.val(), inv.val());
                    let q = fq_q();
                    // The witnessed numerator is `U - A - B` reduced.
                    assert(num.val() == (uv.val() - av.val() - bv.val()) % q) by {
                        lemma_modl_sub(uv.val() - av.val(), bv.val());
                    }
                }
                Some(fq_mul(&num, &inv))
            },
            _ => None,
        };
        let v3 = AllocatedNum::allocate(cs, v3_val);
        let mut v3a_lc = LinComb::of_term(ConstraintSystem::one(), one);
        v3a_lc.push_term(c_num.var, neg_one);
        let v3b_lc = LinComb::of_term(v3.var, one);
        let mut v3c_lc = LinComb::of_term(bigu.var, one);
        v3c_lc.push_term(a.var, neg_one);
        v3c_lc.push_term(b.var, neg_one);
        cs.enforce(v3a_lc, v3b_lc, v3c_lc);
        proof {
            lemma_num_wf_extend(u3, cs5, *cs);
            if self.has_value() && other.has_value() {
                let q = fq_q();
                let ins = cs.inputs@;
                let aux = cs.aux@;
                let cst = cs.constraints@.last();
                crate::cs::lemma_lc_eval_one_and(c_num.var, neg_one, one, ins, aux);
                crate::cs::lemma_lc_eval_single1(v3.var, one, ins, aux);
                crate::cs::lemma_lc_eval_triple(
                    bigu.var,
                    one,
                    a.var,
                    neg_one,
                    b.var,
                    neg_one,
                    ins,
                    aux,
                );
                let vc = c_num.val();
                let va = a.val();
                let vb = b.val();
                let vu = bigu.val();
                assert(neg_one.val() == q - 1) by {
                    crate::field::lemma_fneg_val(1);
                }
                let ea = lc_eval(cst.a.terms@, ins, aux);
                let eb = lc_eval(cst.b.terms@, ins, aux);
                let ec = lc_eval(cst.c.terms@, ins, aux);
                assert(ea == 1 + (q - 1) * vc);
                assert(eb == v3.val());
                assert(ec == 1 * vu + (q - 1) * va + (q - 1) * vb) by {
                    assert(var_eval(bigu.var, ins, aux) == vu);
                    assert(var_eval(a.var, ins, aux) == va);
                    assert(var_eval(b.var, ins, aux) == vb);
                }
                assert(1 * vu == vu) by (nonlinear_arith);
                lemma_add_v3_sat(ea, eb, ec, vc, va, vb, vu, v3.val());
                assert(c_sat(cst, ins, aux));
                crate::cs::lemma_new_sat_trans(pre, cs5, *cs);
            }
        }
        Ok(EdwardsPoint { u: u3, v: v3 })
    }
}

/// The conditionally selected point: the point itself when the bit holds,
/// the neutral element otherwise.
pub open spec fn edw_select(p: (int, int), b: bool) -> (int, int) {
    if b {
        p
    } else {
        (0int, 1int)
    }
}

/// One double-and-add pass over the remaining bits: the running base is
/// doubled at each position, the selected base is accumulated by unified
/// addition; absent when a step's formula degenerates.
#[verifier::opaque]
pub open spec fn mul_loop_c(base: (int, int), acc: (int, int), bits: Seq<bool>) -> Option<
    (int, int),
>
    decreases bits.len(),
{
    if bits.len() == 0 {
        Some(acc)
    } else {
        match edw_double_c(base) {
            None => None,
            Some(nb) => match edw_add_c(acc, edw_select(nb, bits[0])) {
                None => None,
                Some(na) => mul_loop_c(nb, na, bits.drop_first()),
            },
        }
    }
}

/// Variable-base scalar multiplication on coordinate values, over a
/// nonempty little-endian bit sequence: the accumulator is seeded with the
/// selection at the lowest bit and double-and-add handles the rest.
#[verifier::opaque]
pub open spec fn edw_mul_c(p: (int, int), bits: Seq<bool>) -> Option<(int, int)>
    recommends
        bits.len() > 0,
{
    mul_loop_c(p, edw_select(p, bits[0]), bits.drop_first())
}

impl EdwardsPoint {
    /// Multiplies the point by a scalar given as little-endian bits, by
    /// repeated doubling, conditional selection and unified addition. An
    /// empty bit sequence reports a missing assignment; with witnesses
    /// present the result carries exactly the double-and-add value, a
    /// degenerate step surfaces as division by zero, and every recorded
    /// constraint is satisfied by the witness.
    #[verifier::rlimit(60)]
    pub fn mul(&self, cs: &mut ConstraintSystem, by: &Vec<Boolean>) -> (r: Result<
        EdwardsPoint,
        SynthesisError,
    >)
        requires
            old(cs).wf(),
            self.wf(*old(cs)),
            crate::boolean::bits_wf(by@, *old(cs)),
        ensures
            final(cs).wf(),
            final(cs).extends(*old(cs)),
            final(cs).inputs@ == old(cs).inputs@,
            (by@.len() == 0) <==> (r is Err && r.unwrap_err()
                == SynthesisError::AssignmentMissing),
            r is Ok ==> r.unwrap().wf(*final(cs)),
            (by@.len() > 0 && self.has_value() && crate::boolean::bits_all_known(by@)) ==> (
            match edw_mul_c(self.value(), crate::boolean::bits_values(by@)) {
                Some(pv) => r is Ok && r.unwrap().has_value() && r.unwrap().value() == pv
                    && final(cs).new_sat(*old(cs)),
                None => r is Err && r.unwrap_err() == SynthesisError::DivisionByZero,
            }),
    {
        proof {
            reveal(mul_loop_c);
            reveal(edw_mul_c);
        }
        if by.len() == 0 {
            return Err(SynthesisError::AssignmentMissing);
        }
        let ghost pre = *old(cs);
        let ghost bvals = crate::boolean::bits_values(by@);
        let ghost wmode = self.has_value() && crate::boolean::bits_all_known(by@);
        let mut curbase = *self;
        let result0 = self.conditionally_select(cs, &by[0]);
        let mut result = result0;
        proof {
            crate::num::lemma_num_wf_extend(self.u, pre, *cs);
            crate::num::lemma_num_wf_extend(self.v, pre, *cs);
            crate::boolean::lemma_bits_wf_extend(by@, pre, *cs);
            if wmode {
                assert(bvals.skip(1) =~= bvals.drop_first());
                assert(result.value() == edw_select(self.value(), bvals[0]));
            }
        }
        let mut i: usize = 1;
        while i < by.len()
            invariant
                pre == *old(cs),
                1 <= i <= by@.len(),
                cs.wf(),
                cs.extends(pre),
                cs.inputs@ == pre.inputs@,
                crate::boolean::bits_wf(by@, *cs),
                curbase.wf(*cs),
                result.wf(*cs),
                wmode == (self.has_value() && crate::boolean::bits_all_known(by@)),
                bvals == crate::boolean::bits_values(by@),
                by@.len() > 0,
                wmode ==> (curbase.has_value() && result.has_value() && cs.new_sat(pre)
                    && mul_loop_c(curbase.value(), result.value(), bvals.skip(i as int))
                    == edw_mul_c(self.value(), bvals)),
            decreases by@.len() - i,
        {
            let ghost cs0 = *cs;
            let newbase = match curbase.double(cs) {
                Ok(t) => t,
                Err(e) => {
                    proof {
                        reveal(mul_loop_c);
                        crate::cs::lemma_extends_trans(pre, cs0, *cs);
                        if wmode {
                            assert(bvals.skip(i as int).len() > 0);
                        }
                    }
                    return Err(e);
                },
            };
            let ghost cs1 = *cs;
            proof {
                crate::boolean::lemma_bits_wf_extend(by@, cs0, cs1);
                crate::num::lemma_num_wf_extend(result.u, cs0, cs1);
                crate::num::lemma_num_wf_extend(result.v, cs0, cs1);
            }
            let thisbase = newbase.conditionally_select(cs, &by[i]);
            let ghost cs2 = *cs;
            proof {
                crate::boolean::lemma_bits_wf_extend(by@, cs1, cs2);
                crate::num::lemma_num_wf_extend(result.u, cs1, cs2);
                crate::num::lemma_num_wf_extend(result.v, cs1, cs2);
                crate::num::lemma_num_wf_extend(newbase.u, cs1, cs2);
                crate::num::lemma_num_wf_extend(newbase.v, cs1, cs2);
                if wmode {
                    assert(by@[i as int].value_spec() is Some);
                    assert(bvals[i as int] == by@[i as int].value_spec().unwrap());
                    assert(thisbase.value() == edw_select(newbase.value(), bvals[i as int]));
                    assert(thisbase.has_value());
                }
            }
            let newresult = match result.add(cs, &thisbase) {
                Ok(t) => t,
                Err(e) => {
                    proof {
                        reveal(mul_loop_c);
                        crate::cs::lemma_extends_trans(cs0, cs1, cs2);
                        crate::cs::lemma_extends_trans(cs0, cs2, *cs);
                        crate::cs::lemma_extends_trans(pre, cs0, *cs);
                        if wmode {
                            assert(bvals.skip(i as int).len() > 0);
                            assert(bvals.skip(i as int)[0] == bvals[i as int]);
                        }
                    }
                    return Err(e);
                },
            };
            let ghost cs3 = *cs;
            proof {
                crate::boolean::lemma_bits_wf_extend(by@, cs2, cs3);
                crate::num::lemma_num_wf_extend(newbase.u, cs2, cs3);
                crate::num::lemma_num_wf_extend(newbase.v, cs2, cs3);
                crate::cs::lemma_extends_trans(cs0, cs1, cs2);
                crate::cs::lemma_extends_trans(cs0, cs2, cs3);
                crate::cs::lemma_extends_trans(pre, cs0, cs3);
                if wmode {
                    reveal(mul_loop_c);
                    crate::cs::lemma_new_sat_trans(pre, cs0, cs1);
                    crate::cs::lemma_new_sat_trans(pre, cs1, cs2);
                    crate::cs::lemma_new_sat_trans(pre, cs2, cs3);
                    assert(bvals.skip(i as int).len() > 0);
                    assert(bvals.skip(i as int)[0] == bvals[i as int]);
                    assert(bvals.skip(i as int).drop_first() =~= bvals.skip(i as int + 1));
                    assert(mul_loop_c(newbase.value(), newresult.value(), bvals.skip(i as int + 1))
                        == edw_mul_c(self.value(), bvals));
                }
            }
            curbase = newbase;
            result = newresult;
            i = i + 1;
        }
        proof {
            reveal(mul_loop_c);
            if wmode {
                assert(bvals.skip(by@.len() as int).len() == 0);
            }
        }
        Ok(result)
    }
}

/// Three doublings in sequence, on coordinate values: the multiplication
/// of a point by the curve's cofactor eight.
#[verifier::opaque]
pub open spec fn edw_double3_c(p: (int, int)) -> Option<(int, int)> {
    match edw_double_c(p) {
        None => None,
        Some(p1) => match edw_double_c(p1) {
            None => None,
            Some(p2) => edw_double_c(p2),
        },
    }
}

impl EdwardsPoint {
    /// Doubles the point three times and asserts the resulting `u`
    /// coordinate nonzero, which excludes the small-order subgroup: among
    /// points fixed by multiplication by the cofactor, only those with
    /// `u = 0` remain, and the neutral element is the only one reachable
    /// by three doublings. With a witness, the check fails exactly when
    /// the tripled doubling degenerates or ends at `u = 0`.
    pub fn assert_not_small_order(&self, cs: &mut ConstraintSystem) -> (r: Result<
        (),
        SynthesisError,
    >)
        requires
            old(cs).wf(),
            self.wf(*old(cs)),
        ensures
            final(cs).wf(),
            final(cs).extends(*old(cs)),
            final(cs).inputs@ == old(cs).inputs@,
            !self.has_value() ==> r is Ok,
            r is Err ==> r.unwrap_err() == SynthesisError::DivisionByZero,
            self.has_value() ==> (match edw_double3_c(self.value()) {
                None => r is Err,
                Some(pv) => (if pv.0 == 0 {
                    r is Err
                } else {
                    r is Ok && final(cs).new_sat(*old(cs))
                }),
            }),
    {
        proof {
            reveal(edw_double3_c);
        }
        let ghost pre = *old(cs);
        let t1 = match self.double(cs) {
            Ok(t) => t,
            Err(e) => {
                return Err(e);
            },
        };
        let ghost cs1 = *cs;
        let t2 = match t1.double(cs) {
            Ok(t) => t,
            Err(e) => {
                return Err(e);
            },
        };
        let ghost cs2 = *cs;
        proof {
            if self.has_value() && t1.has_value() && t2.has_value() {
                crate::cs::lemma_new_sat_trans(pre, cs1, cs2);
            }
        }
        let t3 = match t2.double(cs) {
            Ok(t) => t,
            Err(e) => {
                return Err(e);
            },
        };
        let ghost cs3 = *cs;
        proof {
            if self.has_value() && t1.has_value() && t2.has_value() && t3.has_value() {
                crate::cs::lemma_new_sat_trans(pre, cs2, cs3);
            }
        }
        let r = t3.u.assert_nonzero(cs);
        proof {
            if self.has_value() && t1.has_value() && t2.has_value() && t3.has_value() && r is Ok {
                crate::cs::lemma_new_sat_trans(pre, cs3, *cs);
            }
        }
        r
    }

    /// Re-exposes both coordinates as public inputs, `u` first.
    pub fn inputize(&self, cs: &mut ConstraintSystem)
        requires
            old(cs).wf(),
            self.wf(*old(cs)),
        ensures
            final(cs).wf(),
            final(cs).extends(*old(cs)),
            final(cs).inputs@ == old(cs).inputs@.push(self.u.value).push(self.v.value),
            self.has_value() ==> final(cs).new_sat(*old(cs)),
    {
        let ghost pre = *old(cs);
        self.u.inputize(cs);
        let ghost cs1 = *cs;
        proof {
            crate::num::lemma_num_wf_extend(self.v, pre, cs1);
        }
        self.v.inputize(cs);
        proof {
            if self.has_value() {
                crate::cs::lemma_new_sat_trans(pre, cs1, *cs);
            }
        }
    }
}

/// Satisfaction of the addition constraint `(1 - C) v3 = U - A - B`, given
/// the witnessed quotient.
proof fn lemma_add_v3_sat(
    ea: int,
    eb: int,
    ec: int,
    vc: int,
    va: int,
    vb: int,
    vu: int,
    res: int,
)
    requires
        ea == 1 + (fq_q() - 1) * vc,
        eb == res,
        ec == vu + (fq_q() - 1) * va + (fq_q() - 1) * vb,
        res == (((vu - va - vb) % fq_q()) * finv((1 - vc) % fq_q())) % fq_q(),
        ((((1 - vc) % fq_q()) * finv((1 - vc) % fq_q())) % fq_q()) == 1,
    ensures
        (ea * eb - ec) % fq_q() == 0,
{
    let q = fq_q();
    let den_raw = 1 - vc;
    let n_raw = vu - va - vb;
    lemma_div_constraint(den_raw, n_raw, den_raw % q, finv(den_raw % q), res);
    assert((q - 1) * vc == q * vc - vc) by (nonlinear_arith);
    assert((q - 1) * va == q * va - va) by (nonlinear_arith);
    assert((q - 1) * vb == q * vb - vb) by (nonlinear_arith);
    assert(ea == den_raw + q * vc);
    assert(ec == n_raw + q * (va + vb)) by {
        assert(q * (va + vb) == q * va + q * vb) by (nonlinear_arith);
    }
    assert(ea * eb == den_raw * res + q * (vc * res)) by (nonlinear_arith)
        requires
            ea == den_raw + q * vc,
            eb == res,
    ;
    assert((den_raw * res + q * (vc * res) - (n_raw + q * (va + vb))) % q == ((den_raw * res
        - n_raw) + q * (vc * res - (va + vb))) % q) by {
        assert(den_raw * res + q * (vc * res) - (n_raw + q * (va + vb)) == (den_raw * res - n_raw)
            + q * (vc * res - (va + vb))) by (nonlinear_arith);
    }
    vstd::arithmetic::div_mod::lemma_mod_multiples_vanish(
        vc * res - (va + vb),
        den_raw * res - n_raw,
        q,
    );
}

/// Satisfaction of the doubling constraint `(1 - C) v3 = T - 2A`, given
/// the witnessed quotient.
proof fn lemma_double_v3_sat(ea: int, eb: int, ec: int, vc: int, va: int, vt: int, res: int)
    requires
        ea == 1 + (fq_q() - 1) * vc,
        eb == res,
        ec == vt + (fq_q() - 1) * va + (fq_q() - 1) * va,
        res == (((vt - (va + va)) % fq_q()) * finv((1 - vc) % fq_q())) % fq_q(),
        ((((1 - vc) % fq_q()) * finv((1 - vc) % fq_q())) % fq_q()) == 1,
    ensures
        (ea * eb - ec) % fq_q() == 0,
{
    let q = fq_q();
    let den_raw = 1 - vc;
    let n_raw = vt - (va + va);
    lemma_div_constraint(den_raw, n_raw, den_raw % q, finv(den_raw % q), res);
    // Rewrite the raw linear-combination evaluations into the same shape.
    assert((q - 1) * vc == q * vc - vc) by (nonlinear_arith);
    assert((q - 1) * va == q * va - va) by (nonlinear_arith);
    assert(ea == den_raw + q * vc);
    assert(ec == n_raw + q * (va + va)) by {
        assert(q * (va + va) == q * va + q * va) by (nonlinear_arith);
    }
    assert(ea * eb == den_raw * res + q * (vc * res)) by (nonlinear_arith)
        requires
            ea == den_raw + q * vc,
            eb == res,
    ;
    assert((den_raw * res + q * (vc * res) - (n_raw + q * (va + va))) % q == ((den_raw * res
        - n_raw) + q * (vc * res - (va + va))) % q) by {
        assert(den_raw * res + q * (vc * res) - (n_raw + q * (va + va)) == (den_raw * res - n_raw)
            + q * (vc * res - (va + va))) by (nonlinear_arith);
    }
    vstd::arithmetic::div_mod::lemma_mod_multiples_vanish(
        vc * res - (va + va),
        den_raw * res - n_raw,
        q,
    );
}

/// A bit of the scalar stream, with positions past the end reading as
/// constant false.
pub open spec fn stream_bit(bits: Seq<bool>, i: int) -> bool {
    if 0 <= i < bits.len() {
        bits[i]
    } else {
        false
    }
}

/// The table entry of a window, as coordinate values.
pub open spec fn fb_entry(w: Seq<(Fq, Fq)>, idx: int) -> (int, int) {
    (w[idx].0.val(), w[idx].1.val())
}

/// The number of three-bit chunks of a bit sequence.
pub open spec fn chunk_count(nbits: int) -> int {
    (nbits + 2) / 3
}

/// The accumulation of fixed-base window lookups from chunk `i` on: each
/// chunk selects one table entry of its window, accumulated by unified
/// addition; absent when an addition degenerates.
#[verifier::opaque]
pub open spec fn fb_loop_c(
    table: Seq<Vec<(Fq, Fq)>>,
    bits: Seq<bool>,
    i: int,
    n: int,
    acc: (int, int),
) -> Option<(int, int)>
    decreases n - i,
{
    if i >= n {
        Some(acc)
    } else {
        let idx = crate::lookup::lookup3_index(
            stream_bit(bits, 3 * i),
            stream_bit(bits, 3 * i + 1),
            stream_bit(bits, 3 * i + 2),
        );
        match edw_add_c(acc, fb_entry(table[i]@, idx)) {
            None => None,
            Some(na) => fb_loop_c(table, bits, i + 1, n, na),
        }
    }
}

/// Fixed-base scalar multiplication on coordinate values: the first chunk
/// seeds the accumulator with its window's entry and the remaining chunks
/// are accumulated by unified addition.
#[verifier::opaque]
pub open spec fn fixed_base_c(table: Seq<Vec<(Fq, Fq)>>, bits: Seq<bool>) -> Option<(int, int)> {
    let n = if table.len() < chunk_count(bits.len() as int) {
        table.len() as int
    } else {
        chunk_count(bits.len() as int)
    };
    let idx0 = crate::lookup::lookup3_index(
        stream_bit(bits, 0),
        stream_bit(bits, 1),
        stream_bit(bits, 2),
    );
    fb_loop_c(table, bits, 1, n, fb_entry(table[0]@, idx0))
}

/// Performs a fixed-base scalar multiplication over a precomputed window
/// table, with `by` in little-endian bit order: each three-bit chunk looks
/// its window entry up and the entries are accumulated by unified
/// addition. An empty chunk or window sequence reports a missing
/// assignment; with all bits known, the result carries exactly the
/// windowed accumulation and a degenerate addition surfaces as division by
/// zero.
#[verifier::rlimit(60)]
pub fn fixed_base_multiplication(
    cs: &mut ConstraintSystem,
    base: &Vec<Vec<(Fq, Fq)>>,
    by: &Vec<Boolean>,
) -> (r: Result<EdwardsPoint, SynthesisError>)
    requires
        old(cs).wf(),
        crate::boolean::bits_wf(by@, *old(cs)),
        forall|i: int| 0 <= i < base@.len() ==> (#[trigger] base@[i])@.len() == 8,
        by@.len() + 2 < usize::MAX,
    ensures
        final(cs).wf(),
        final(cs).extends(*old(cs)),
        final(cs).inputs@ == old(cs).inputs@,
        (by@.len() == 0 || base@.len() == 0) <==> (r is Err && r.unwrap_err()
            == SynthesisError::AssignmentMissing),
        r is Err ==> (r.unwrap_err() == SynthesisError::AssignmentMissing || r.unwrap_err()
            == SynthesisError::DivisionByZero),
        r is Ok ==> r.unwrap().wf(*final(cs)),
        (by@.len() > 0 && base@.len() > 0 && crate::boolean::bits_all_known(by@)) ==> (
        match fixed_base_c(base@, crate::boolean::bits_values(by@)) {
            Some(pv) => r is Ok && r.unwrap().has_value() && r.unwrap().value() == pv
                && final(cs).new_sat(*old(cs)),
            None => r is Err && r.unwrap_err() == SynthesisError::DivisionByZero,
        }),
{
    proof {
        reveal(fixed_base_c);
        reveal(fb_loop_c);
    }
    if by.len() == 0 || base.len() == 0 {
        return Err(SynthesisError::AssignmentMissing);
    }
    let ghost pre = *old(cs);
    let ghost bvals = crate::boolean::bits_values(by@);
    let ghost wmode = crate::boolean::bits_all_known(by@);
    let nchunks = (by.len() + 2) / 3;
    let n = if nchunks < base.len() {
        nchunks
    } else {
        base.len()
    };
    let ghost gn = n as int;
    let p0 = fixed_base_window(cs, base, by, 0);
    let mut result = p0;
    proof {
        if wmode {
            assert(result.value() == fb_entry(
                base@[0]@,
                crate::lookup::lookup3_index(
                    stream_bit(bvals, 0),
                    stream_bit(bvals, 1),
                    stream_bit(bvals, 2),
                ),
            ));
        }
    }
    let mut i: usize = 1;
    while i < n
        invariant
            pre == *old(cs),
            1 <= i <= gn,
            gn == n,
            n == (if (by@.len() + 2) as int / 3 < base@.len() as int {
                (by@.len() + 2) as int / 3
            } else {
                base@.len() as int
            }),
            by@.len() > 0,
            base@.len() > 0,
            by@.len() + 2 < usize::MAX,
            forall|j: int| 0 <= j < base@.len() ==> (#[trigger] base@[j])@.len() == 8,
            cs.wf(),
            cs.extends(pre),
            cs.inputs@ == pre.inputs@,
            crate::boolean::bits_wf(by@, *cs),
            result.wf(*cs),
            wmode == crate::boolean::bits_all_known(by@),
            bvals == crate::boolean::bits_values(by@),
            wmode ==> (result.has_value() && cs.new_sat(pre) && fb_loop_c(
                base@,
                bvals,
                i as int,
                gn,
                result.value(),
            ) == fixed_base_c(base@, bvals)),
        decreases gn - i,
    {
        let ghost cs0 = *cs;
        let p = fixed_base_window(cs, base, by, i);
        let ghost cs1 = *cs;
        proof {
            crate::boolean::lemma_bits_wf_extend(by@, cs0, cs1);
            crate::num::lemma_num_wf_extend(result.u, cs0, cs1);
            crate::num::lemma_num_wf_extend(result.v, cs0, cs1);
        }
        let newresult = match result.add(cs, &p) {
            Ok(t) => t,
            Err(e) => {
                proof {
                    reveal(fb_loop_c);
                    crate::cs::lemma_extends_trans(pre, cs0, cs1);
                    crate::cs::lemma_extends_trans(pre, cs1, *cs);
                }
                return Err(e);
            },
        };
        proof {
            reveal(fb_loop_c);
            crate::boolean::lemma_bits_wf_extend(by@, cs1, *cs);
            crate::cs::lemma_extends_trans(pre, cs0, cs1);
            crate::cs::lemma_extends_trans(pre, cs1, *cs);
            if wmode {
                crate::cs::lemma_new_sat_trans(pre, cs0, cs1);
                crate::cs::lemma_new_sat_trans(pre, cs1, *cs);
            }
        }
        result = newresult;
        i = i + 1;
    }
    proof {
        reveal(fb_loop_c);
    }
    Ok(result)
}

/// Looks up one window of a fixed-base table for the chunk at index `i`,
/// padding missing high bits with constant false.
fn fixed_base_window(
    cs: &mut ConstraintSystem,
    base: &Vec<Vec<(Fq, Fq)>>,
    by: &Vec<Boolean>,
    i: usize,
) -> (r: EdwardsPoint)
    requires
        old(cs).wf(),
        crate::boolean::bits_wf(by@, *old(cs)),
        0 <= i < base@.len(),
        base@[i as int]@.len() == 8,
        by@.len() + 2 < usize::MAX,
        3 * i <= by@.len() + 2,
    ensures
        final(cs).wf(),
        final(cs).extends(*old(cs)),
        final(cs).inputs@ == old(cs).inputs@,
        r.wf(*final(cs)),
        crate::boolean::bits_all_known(by@) ==> (r.has_value() && r.value() == fb_entry(
            base@[i as int]@,
            crate::lookup::lookup3_index(
                stream_bit(crate::boolean::bits_values(by@), 3 * i),
                stream_bit(crate::boolean::bits_values(by@), 3 * i + 1),
                stream_bit(crate::boolean::bits_values(by@), 3 * i + 2),
            ),
        ) && final(cs).new_sat(*old(cs))),
{
    let b0 = if 3 * i < by.len() {
        by[3 * i]
    } else {
        Boolean::constant(false)
    };
    let b1 = if 3 * i + 1 < by.len() {
        by[3 * i + 1]
    } else {
        Boolean::constant(false)
    };
    let b2 = if 3 * i + 2 < by.len() {
        by[3 * i + 2]
    } else {
        Boolean::constant(false)
    };
    let chunk = [b0, b1, b2];
    let (u, v) = crate::lookup::lookup3_xy(cs, &chunk, &base[i]);
    EdwardsPoint { u, v }
}

/// Affine chord addition on Montgomery coordinate values:
/// `lambda = (y2 - y1)/(x2 - x1)`, `x3 = lambda^2 - A - x1 - x2` and
/// `y3 = -(y1 + lambda (x3 - x1))`; absent when the points share an
/// x-coordinate.
#[verifier::opaque]
pub open spec fn mont_add_c(p: (int, int), o: (int, int)) -> Option<(int, int)> {
    let dx = fsub(o.0, p.0);
    if dx == 0 {
        None
    } else {
        let lambda = fdiv(fsub(o.1, p.1), dx);
        let x3 = fsub(fsub(fsub(fmul(lambda, lambda), montgomery_a_int()), p.0), o.0);
        let y3 = fneg(fadd(fmul(fsub(x3, p.0), lambda), p.1));
        Some((x3, y3))
    }
}

/// The birational map from Montgomery to Edwards coordinates:
/// `u = scale x / y` and `v = (x - 1)/(x + 1)`; absent when `y` or `x + 1`
/// vanishes.
#[verifier::opaque]
pub open spec fn mont_to_edwards_c(p: (int, int)) -> Option<(int, int)> {
    if p.1 == 0 {
        None
    } else {
        let u = fdiv(fmul(p.0, montgomery_scale_int()), p.1);
        let dv = fadd(p.0, 1);
        if dv == 0 {
            None
        } else {
            Some((u, fdiv(fsub(p.0, 1), dv)))
        }
    }
}

/// A point on the birationally equivalent Montgomery curve, held as two
/// unconstrained linear combinations to spare constraints; used as scratch
/// form for window lookups and segment sums.
#[derive(Clone, Debug)]
pub struct MontgomeryPoint {
    pub x: Num,
    pub y: Num,
}

impl MontgomeryPoint {
    /// Both coordinates are backed by the system.
    pub open spec fn wf(self, cs: ConstraintSystem) -> bool {
        self.x.wf(cs) && self.y.wf(cs)
    }

    /// Whether both coordinates carry witness values.
    pub open spec fn has_value(self) -> bool {
        self.x.value is Some && self.y.value is Some
    }

    /// The coordinate values, when present.
    pub open spec fn value(self) -> (int, int) {
        (self.x.val(), self.y.val())
    }

    /// Interprets an `(x, y)` pair as a Montgomery point without any
    /// constraint; meant for values already known to be valid, such as
    /// table lookup outputs.
    pub fn interpret_unchecked(x: Num, y: Num) -> (r: MontgomeryPoint)
        ensures
            r.x == x,
            r.y == y,
    {
        MontgomeryPoint { x, y }
    }

    /// Performs an affine chord addition, undefined for points sharing an
    /// x-coordinate. With witnesses present, the result carries exactly
    /// the chord formula's coordinates and a shared x-coordinate surfaces
    /// as a division-by-zero error.
    #[verifier::rlimit(100)]
    pub fn add(&self, cs: &mut ConstraintSystem, other: &MontgomeryPoint) -> (r: Result<
        MontgomeryPoint,
        SynthesisError,
    >)
        requires
            old(cs).wf(),
            self.wf(*old(cs)),
            other.wf(*old(cs)),
        ensures
            final(cs).wf(),
            final(cs).extends(*old(cs)),
            final(cs).inputs@ == old(cs).inputs@,
            r is Ok ==> r.unwrap().wf(*final(cs)),
            !(self.has_value() && other.has_value()) ==> (r is Ok && r.unwrap().x.value is None
                && r.unwrap().y.value is None),
            (self.has_value() && other.has_value()) ==> (match mont_add_c(
                self.value(),
                other.value(),
            ) {
                Some(pv) => r is Ok && r.unwrap().has_value() && r.unwrap().value() == pv
                    && final(cs).new_sat(*old(cs)),
                None => r is Err && r.unwrap_err() == SynthesisError::DivisionByZero,
            }),
    {
        proof {
            reveal(mont_add_c);
        }
        let ghost pre = *old(cs);
        let one = fq_one();
        let neg_one = fq_neg(&one);
        let a_coeff = montgomery_a();
        // lambda = (y2 - y1) / (x2 - x1).
        let lambda_val: Option<Fq> = match (&self.x.value, &self.y.value, &other.x.value, &other
            .y
            .value) {
            (Some(sx), Some(sy), Some(ox), Some(oy)) => {
                let n = fq_sub(oy, sy);
                let dx = fq_sub(ox, sx);
                let inv = match fq_invert(&dx) {
                    Some(i) => i,
                    None => {
                        return Err(SynthesisError::DivisionByZero);
                    },
                };
                proof {
                    lemma_fq_val_bound(inv);
                    lemma_inv_is_finv(dx.val(), inv.val());
                }
                Some(fq_mul(&n, &inv))
            },
            _ => None,
        };
        let lambda = AllocatedNum::allocate(cs, lambda_val);
        let ghost cs1 = *cs;
        // (x2 - x1) lambda = y2 - y1.
        let ox_pos = other.x.lc_scaled(&one);
        let sx_neg = self.x.lc_scaled(&neg_one);
        let mut la_lc = LinComb::empty();
        la_lc.extend_with(&ox_pos);
        la_lc.extend_with(&sx_neg);
        let lb_lc = LinComb::of_term(lambda.var, one);
        let oy_pos = other.y.lc_scaled(&one);
        let sy_neg = self.y.lc_scaled(&neg_one);
        let mut lc_lc = LinComb::empty();
        lc_lc.extend_with(&oy_pos);
        lc_lc.extend_with(&sy_neg);
        proof {
            lemma_mont_lc_setup(*self, *other, pre, cs1);
            let ni = cs1.inputs@.len();
            let na = cs1.aux@.len();
            crate::cs::lemma_lc_in_bounds_same_vars(other.x.lc.terms@, ox_pos.terms@, ni, na);
            crate::cs::lemma_lc_in_bounds_same_vars(self.x.lc.terms@, sx_neg.terms@, ni, na);
            crate::cs::lemma_lc_in_bounds_same_vars(other.y.lc.terms@, oy_pos.terms@, ni, na);
            crate::cs::lemma_lc_in_bounds_same_vars(self.y.lc.terms@, sy_neg.terms@, ni, na);
            assert(Seq::<Term>::empty() + ox_pos.terms@ =~= ox_pos.terms@);
            assert(Seq::<Term>::empty() + oy_pos.terms@ =~= oy_pos.terms@);
            lemma_lc_in_bounds_append(ox_pos.terms@, sx_neg.terms@, ni, na);
            lemma_lc_in_bounds_append(oy_pos.terms@, sy_neg.terms@, ni, na);
        }
        cs.enforce(la_lc, lb_lc, lc_lc);
        let ghost cse1 = *cs;
        proof {
            if self.has_value() && other.has_value() {
                assert(c_sat(cse1.constraints@.last(), cse1.inputs@, cse1.aux@)) by {
                    let q = fq_q();
                    let ins = cse1.inputs@;
                    let aux = cse1.aux@;
                    let cst = cse1.constraints@.last();
                    let vx1 = self.x.val();
                    let vy1 = self.y.val();
                    let vx2 = other.x.val();
                    let vy2 = other.y.val();
                    let vl = lambda.val();
                    crate::num::lemma_lcnum_wf_extend(self.x, pre, cse1);
                    crate::num::lemma_lcnum_wf_extend(self.y, pre, cse1);
                    crate::num::lemma_lcnum_wf_extend(other.x, pre, cse1);
                    crate::num::lemma_lcnum_wf_extend(other.y, pre, cse1);
                    crate::num::lemma_num_scaled_eval(other.x, one, ox_pos.terms@, cse1);
                    crate::num::lemma_num_scaled_eval(self.x, neg_one, sx_neg.terms@, cse1);
                    crate::num::lemma_num_scaled_eval(other.y, one, oy_pos.terms@, cse1);
                    crate::num::lemma_num_scaled_eval(self.y, neg_one, sy_neg.terms@, cse1);
                    crate::field::lemma_fneg_val(1);
                    crate::field::lemma_fq_val_bound(self.x.value.unwrap());
                    crate::field::lemma_fq_val_bound(self.y.value.unwrap());
                    crate::field::lemma_fq_val_bound(other.x.value.unwrap());
                    crate::field::lemma_fq_val_bound(other.y.value.unwrap());
                    vstd::arithmetic::div_mod::lemma_small_mod(vx1 as nat, q as nat);
                    vstd::arithmetic::div_mod::lemma_small_mod(vy1 as nat, q as nat);
                    vstd::arithmetic::div_mod::lemma_small_mod(vx2 as nat, q as nat);
                    vstd::arithmetic::div_mod::lemma_small_mod(vy2 as nat, q as nat);
                    crate::field::lemma_negone_scale(vx1);
                    crate::field::lemma_negone_scale(vy1);
                    let eox = lc_eval(ox_pos.terms@, ins, aux);
                    let esx = lc_eval(sx_neg.terms@, ins, aux);
                    let eoy = lc_eval(oy_pos.terms@, ins, aux);
                    let esy = lc_eval(sy_neg.terms@, ins, aux);
                    assert(eox % q == vx2) by {
                        assert(1 * vx2 == vx2) by (nonlinear_arith);
                    }
                    assert(eoy % q == vy2) by {
                        assert(1 * vy2 == vy2) by (nonlinear_arith);
                    }
                    assert(esx % q == (0 - vx1) % q) by {
                        assert((q - 1) * vx1 == (q - 1) * vx1);
                    }
                    assert(esy % q == (0 - vy1) % q);
                    assert(cst.a.terms@ == Seq::<Term>::empty() + ox_pos.terms@ + sx_neg.terms@);
                    assert(Seq::<Term>::empty() + ox_pos.terms@ =~= ox_pos.terms@);
                    crate::cs::lemma_lc_eval_append(ox_pos.terms@, sx_neg.terms@, ins, aux);
                    let ea = lc_eval(cst.a.terms@, ins, aux);
                    assert(ea == eox + esx);
                    assert(ea % q == (vx2 - vx1) % q) by {
                        crate::field::lemma_add_congruent(eox, vx2, esx, 0 - vx1);
                    }
                    crate::cs::lemma_lc_eval_single1(lambda.var, one, ins, aux);
                    let eb = lc_eval(cst.b.terms@, ins, aux);
                    assert(eb == vl);
                    assert(cst.c.terms@ == Seq::<Term>::empty() + oy_pos.terms@ + sy_neg.terms@);
                    assert(Seq::<Term>::empty() + oy_pos.terms@ =~= oy_pos.terms@);
                    crate::cs::lemma_lc_eval_append(oy_pos.terms@, sy_neg.terms@, ins, aux);
                    let ec = lc_eval(cst.c.terms@, ins, aux);
                    assert(ec == eoy + esy);
                    assert(ec % q == (vy2 - vy1) % q) by {
                        crate::field::lemma_add_congruent(eoy, vy2, esy, 0 - vy1);
                    }
                    assert(vl == ((fsub(vy2, vy1)) * finv(fsub(vx2, vx1))) % q);
                    vstd::arithmetic::div_mod::lemma_mod_twice(vy2 - vy1, q);
                    crate::field::lemma_div_sat_congruent(
                        ea,
                        eb,
                        ec,
                        vx2 - vx1,
                        vy2 - vy1,
                        fsub(vx2, vx1),
                        finv(fsub(vx2, vx1)),
                        vl,
                    );
}
            }
        }
        // x3 = lambda^2 - A - x1 - x2.
        let x3_val: Option<Fq> = match (&lambda.value, &self.x.value, &other.x.value) {
            (Some(lv), Some(sx), Some(ox)) => Some(
                fq_sub(&fq_sub(&fq_sub(&fq_mul(lv, lv), &a_coeff), sx), ox),
            ),
            _ => None,
        };
        let x3 = AllocatedNum::allocate(cs, x3_val);
        let ghost cs2 = *cs;
        // lambda * lambda = A + x1 + x2 + x3.
        let xa_lc = LinComb::of_term(lambda.var, one);
        let xb_lc = LinComb::of_term(lambda.var, one);
        let sx_pos = self.x.lc_scaled(&one);
        let ox_pos2 = other.x.lc_scaled(&one);
        let mut xc_lc = LinComb::of_term(ConstraintSystem::one(), a_coeff);
        xc_lc.extend_with(&sx_pos);
        xc_lc.extend_with(&ox_pos2);
        xc_lc.push_term(x3.var, one);
        proof {
            lemma_mont_lc_setup(*self, *other, pre, cs2);
            let ni = cs2.inputs@.len();
            let na = cs2.aux@.len();
            crate::cs::lemma_lc_in_bounds_same_vars(self.x.lc.terms@, sx_pos.terms@, ni, na);
            crate::cs::lemma_lc_in_bounds_same_vars(other.x.lc.terms@, ox_pos2.terms@, ni, na);
            let s0 = Seq::<Term>::empty().push((Term { var: Var::Input(0), coeff: a_coeff }));
            assert(lc_in_bounds(s0, ni, na)) by {
                assert(s0[0].var == Var::Input(0));
            }
            lemma_lc_in_bounds_append(s0, sx_pos.terms@, ni, na);
            lemma_lc_in_bounds_append(s0 + sx_pos.terms@, ox_pos2.terms@, ni, na);
            assert(xc_lc.terms@ == (s0 + sx_pos.terms@ + ox_pos2.terms@).push(
                (Term { var: x3.var, coeff: one }),
            ));
            assert(lc_in_bounds(xc_lc.terms@, ni, na)) by {
                assert(forall|i: int|
                    0 <= i < xc_lc.terms@.len() - 1 ==> (#[trigger] xc_lc.terms@[i]) == (s0
                        + sx_pos.terms@ + ox_pos2.terms@)[i]);
                assert(xc_lc.terms@.last().var == x3.var);
            }
        }
        cs.enforce(xa_lc, xb_lc, xc_lc);
        let ghost cse2 = *cs;
        proof {
            if self.has_value() && other.has_value() {
                assert(c_sat(cse2.constraints@.last(), cse2.inputs@, cse2.aux@)) by {
                    let q = fq_q();
                    let ins = cse2.inputs@;
                    let aux = cse2.aux@;
                    let cst = cse2.constraints@.last();
                    let vx1 = self.x.val();
                    let vx2 = other.x.val();
                    let vl = lambda.val();
                    let vx3 = x3.val();
                    let aa = montgomery_a_int();
                    crate::num::lemma_lcnum_wf_extend(self.x, pre, cse2);
                    crate::num::lemma_lcnum_wf_extend(other.x, pre, cse2);
                    crate::num::lemma_num_scaled_eval(self.x, one, sx_pos.terms@, cse2);
                    crate::num::lemma_num_scaled_eval(other.x, one, ox_pos2.terms@, cse2);
                    crate::field::lemma_fq_val_bound(self.x.value.unwrap());
                    crate::field::lemma_fq_val_bound(other.x.value.unwrap());
                    vstd::arithmetic::div_mod::lemma_small_mod(vx1 as nat, q as nat);
                    vstd::arithmetic::div_mod::lemma_small_mod(vx2 as nat, q as nat);
                    crate::cs::lemma_lc_eval_single1(lambda.var, one, ins, aux);
                    let ea = lc_eval(cst.a.terms@, ins, aux);
                    let eb = lc_eval(cst.b.terms@, ins, aux);
                    assert(ea == vl && eb == vl);
                    let s0 = Seq::<Term>::empty().push(
                        (Term { var: Var::Input(0), coeff: a_coeff }),
                    );
                    assert(cst.c.terms@ == (s0 + sx_pos.terms@ + ox_pos2.terms@).push(
                        (Term { var: x3.var, coeff: one }),
                    ));
                    crate::cs::lemma_lc_eval_push(
                        s0 + sx_pos.terms@ + ox_pos2.terms@,
                        (Term { var: x3.var, coeff: one }),
                        ins,
                        aux,
                    );
                    crate::cs::lemma_lc_eval_append(s0 + sx_pos.terms@, ox_pos2.terms@, ins, aux);
                    crate::cs::lemma_lc_eval_append(s0, sx_pos.terms@, ins, aux);
                    crate::cs::lemma_lc_eval_push(
                        Seq::<Term>::empty(),
                        (Term { var: Var::Input(0), coeff: a_coeff }),
                        ins,
                        aux,
                    );
                    assert(aa * 1 == aa) by (nonlinear_arith);
                    assert(lc_eval(s0, ins, aux) == aa);
                    let esx = lc_eval(sx_pos.terms@, ins, aux);
                    let eox = lc_eval(ox_pos2.terms@, ins, aux);
                    assert(esx % q == vx1) by {
                        assert(1 * vx1 == vx1) by (nonlinear_arith);
                    }
                    assert(eox % q == vx2) by {
                        assert(1 * vx2 == vx2) by (nonlinear_arith);
                    }
                    let ec = lc_eval(cst.c.terms@, ins, aux);
                    assert(1 * vx3 == vx3) by (nonlinear_arith);
                    assert(ec == aa + esx + eox + vx3);
                    // The witnessed third coordinate completes the chord
                    // equation.
                    assert(vx3 == (vl * vl - aa - vx1 - vx2) % q) by {
                        crate::field::lemma_modl_sub(vl * vl, aa);
                        crate::field::lemma_modl_sub(vl * vl - aa, vx1);
                        crate::field::lemma_modl_sub(vl * vl - aa - vx1, vx2);
                    }
                    let ss = aa + vx1 + vx2 + vx3;
                    assert(ec % q == ss % q) by {
                        crate::field::lemma_fq_val_bound(x3.value.unwrap());
                        crate::field::lemma_add_congruent(aa, aa, esx, vx1);
                        crate::field::lemma_add_congruent(aa + esx, aa + vx1, eox, vx2);
                        crate::field::lemma_add_congruent(
                            aa + esx + eox,
                            aa + vx1 + vx2,
                            vx3,
                            vx3,
                        );
                        vstd::arithmetic::div_mod::lemma_small_mod(vx3 as nat, q as nat);
                    }
                    assert(ss % q == (vl * vl) % q) by {
                        crate::field::lemma_modr_add(aa + vx1 + vx2, vl * vl - aa - vx1 - vx2);
                    }
                    vstd::arithmetic::div_mod::lemma_sub_mod_noop(ea * eb, ec, q);
                    vstd::arithmetic::div_mod::lemma_sub_mod_noop(vl * vl, ss, q);
                    crate::field::lemma_mod_eq_iff_diff_zero(vl * vl, ss);
                    assert((ea * eb - ec) % q == (vl * vl - ss) % q);
                }
            }
        }
        // y3 = -(y1 + lambda (x3 - x1)), enforced as
        // (x1 - x3) lambda = y3 + y1.
        let y3_val: Option<Fq> = match (&lambda.value, &self.x.value, &self.y.value, &x3.value) {
            (Some(lv), Some(sx), Some(sy), Some(xv)) => Some(
                fq_neg(&fq_add(&fq_mul(&fq_sub(xv, sx), lv), sy)),
            ),
            _ => None,
        };
        let y3 = AllocatedNum::allocate(cs, y3_val);
        let ghost cs3 = *cs;
        let sx_pos2 = self.x.lc_scaled(&one);
        let mut ya_lc = LinComb::empty();
        ya_lc.extend_with(&sx_pos2);
        ya_lc.push_term(x3.var, neg_one);
        let yb_lc = LinComb::of_term(lambda.var, one);
        let sy_pos = self.y.lc_scaled(&one);
        let mut yc_lc = LinComb::of_term(y3.var, one);
        yc_lc.extend_with(&sy_pos);
        proof {
            lemma_mont_lc_setup(*self, *other, pre, cs3);
            let ni = cs3.inputs@.len();
            let na = cs3.aux@.len();
            crate::cs::lemma_lc_in_bounds_same_vars(self.x.lc.terms@, sx_pos2.terms@, ni, na);
            crate::cs::lemma_lc_in_bounds_same_vars(self.y.lc.terms@, sy_pos.terms@, ni, na);
            crate::num::lemma_num_wf_extend(x3, cs2, cs3);
            assert(Seq::<Term>::empty() + sx_pos2.terms@ =~= sx_pos2.terms@);
            assert(ya_lc.terms@ == sx_pos2.terms@.push((Term { var: x3.var, coeff: neg_one })));
            assert(lc_in_bounds(ya_lc.terms@, ni, na)) by {
                assert(forall|i: int|
                    0 <= i < ya_lc.terms@.len() - 1 ==> (#[trigger] ya_lc.terms@[i])
                        == sx_pos2.terms@[i]);
                assert(ya_lc.terms@.last().var == x3.var);
            }
            let t0 = Seq::<Term>::empty().push((Term { var: y3.var, coeff: one }));
            assert(lc_in_bounds(t0, ni, na)) by {
                assert(t0[0].var == y3.var);
            }
            lemma_lc_in_bounds_append(t0, sy_pos.terms@, ni, na);
        }
        cs.enforce(ya_lc, yb_lc, yc_lc);
        proof {
            crate::num::lemma_num_wf_extend(x3, cs2, *cs);
            crate::num::lemma_num_wf_extend(y3, cs3, *cs);
            if self.has_value() && other.has_value() {
                assert(c_sat(cs.constraints@.last(), cs.inputs@, cs.aux@)) by {
                    let q = fq_q();
                    let ins = cs.inputs@;
                    let aux = cs.aux@;
                    let cst = cs.constraints@.last();
                    let vx1 = self.x.val();
                    let vy1 = self.y.val();
                    let vl = lambda.val();
                    let vx3 = x3.val();
                    let vy3 = y3.val();
                    crate::num::lemma_lcnum_wf_extend(self.x, pre, *cs);
                    crate::num::lemma_lcnum_wf_extend(self.y, pre, *cs);
                    crate::num::lemma_num_scaled_eval(self.x, one, sx_pos2.terms@, *cs);
                    crate::num::lemma_num_scaled_eval(self.y, one, sy_pos.terms@, *cs);
                    crate::field::lemma_fneg_val(1);
                    crate::field::lemma_fq_val_bound(self.x.value.unwrap());
                    crate::field::lemma_fq_val_bound(self.y.value.unwrap());
                    crate::field::lemma_fq_val_bound(x3.value.unwrap());
                    crate::field::lemma_fq_val_bound(y3.value.unwrap());
                    vstd::arithmetic::div_mod::lemma_small_mod(vx1 as nat, q as nat);
                    vstd::arithmetic::div_mod::lemma_small_mod(vy1 as nat, q as nat);
                    vstd::arithmetic::div_mod::lemma_small_mod(vx3 as nat, q as nat);
                    vstd::arithmetic::div_mod::lemma_small_mod(vy3 as nat, q as nat);
                    assert(cst.a.terms@ == sx_pos2.terms@.push(
                        (Term { var: x3.var, coeff: neg_one }),
                    ));
                    crate::cs::lemma_lc_eval_push(
                        sx_pos2.terms@,
                        (Term { var: x3.var, coeff: neg_one }),
                        ins,
                        aux,
                    );
                    let esx = lc_eval(sx_pos2.terms@, ins, aux);
                    assert(esx % q == vx1) by {
                        assert(1 * vx1 == vx1) by (nonlinear_arith);
                    }
                    let ea = lc_eval(cst.a.terms@, ins, aux);
                    assert(ea == esx + (q - 1) * vx3);
                    crate::field::lemma_negone_scale(vx3);
                    assert(ea % q == (vx1 - vx3) % q) by {
                        crate::field::lemma_add_congruent(esx, vx1, (q - 1) * vx3, 0 - vx3);
                    }
                    crate::cs::lemma_lc_eval_single1(lambda.var, one, ins, aux);
                    let eb = lc_eval(cst.b.terms@, ins, aux);
                    assert(eb == vl);
                    let t0 = Seq::<Term>::empty().push((Term { var: y3.var, coeff: one }));
                    assert(cst.c.terms@ == t0 + sy_pos.terms@);
                    crate::cs::lemma_lc_eval_append(t0, sy_pos.terms@, ins, aux);
                    crate::cs::lemma_lc_eval_single1(y3.var, one, ins, aux);
                    let esy = lc_eval(sy_pos.terms@, ins, aux);
                    assert(esy % q == vy1) by {
                        assert(1 * vy1 == vy1) by (nonlinear_arith);
                    }
                    let ec = lc_eval(cst.c.terms@, ins, aux);
                    assert(ec == vy3 + esy);
                    // The witnessed third coordinate is the negated chord
                    // value.
                    let w_raw = (vx3 - vx1) * vl;
                    assert(vy3 == (0 - (w_raw + vy1)) % q) by {
                        vstd::arithmetic::div_mod::lemma_mul_mod_noop_left(vx3 - vx1, vl, q);
                        crate::field::lemma_modl_add(w_raw, vy1);
                        crate::field::lemma_modr_sub(0, w_raw + vy1);
                    }
                    assert(ec % q == (0 - w_raw) % q) by {
                        crate::field::lemma_add_congruent(vy3, 0 - (w_raw + vy1), esy, vy1);
                    }
                    assert((vx1 - vx3) * vl == 0 - (vx3 - vx1) * vl) by (nonlinear_arith);
                    assert((vx1 - vx3) * vl == 0 - w_raw);
                    crate::field::lemma_mul_congruent(ea, vx1 - vx3, eb, vl);
                    vstd::arithmetic::div_mod::lemma_sub_mod_noop(ea * eb, ec, q);
                    vstd::arithmetic::div_mod::lemma_sub_mod_noop((vx1 - vx3) * vl, 0 - w_raw, q);
                    crate::field::lemma_mod_eq_iff_diff_zero((vx1 - vx3) * vl, 0 - w_raw);
                    assert((ea * eb - ec) % q == ((vx1 - vx3) * vl - (0 - w_raw)) % q);
                }
                crate::cs::lemma_new_sat_trans(pre, cs1, cse1);
                crate::cs::lemma_new_sat_trans(pre, cse1, cs2);
                crate::cs::lemma_new_sat_trans(pre, cs2, cse2);
                crate::cs::lemma_new_sat_trans(pre, cse2, cs3);
                crate::cs::lemma_new_sat_trans(pre, cs3, *cs);
            }
        }
        let rx = Num::from_num(&x3);
        let ry = Num::from_num(&y3);
        Ok(MontgomeryPoint { x: rx, y: ry })
    }

    /// Converts into the birationally equivalent twisted-Edwards point,
    /// enforcing both division constraints of the map. With a witness
    /// present, the result carries exactly the mapped coordinates and a
    /// vanishing denominator surfaces as a division-by-zero error.
    pub fn into_edwards(self, cs: &mut ConstraintSystem) -> (r: Result<
        EdwardsPoint,
        SynthesisError,
    >)
        requires
            old(cs).wf(),
            self.wf(*old(cs)),
        ensures
            final(cs).wf(),
            final(cs).extends(*old(cs)),
            final(cs).inputs@ == old(cs).inputs@,
            r is Ok ==> r.unwrap().wf(*final(cs)),
            r is Err ==> r.unwrap_err() == SynthesisError::DivisionByZero,
            self.x.value is None ==> (r is Ok && r.unwrap().u.value is None && r.unwrap().v.value
                is None),
            self.has_value() ==> (match mont_to_edwards_c(self.value()) {
                Some(pv) => r is Ok && r.unwrap().has_value() && r.unwrap().value() == pv
                    && final(cs).new_sat(*old(cs)),
                None => r is Err && r.unwrap_err() == SynthesisError::DivisionByZero,
            }),
    {
        proof {
            reveal(mont_to_edwards_c);
        }
        let ghost pre = *old(cs);
        let one = fq_one();
        let neg_one = fq_neg(&one);
        let scale = montgomery_scale();
        // u = scale x / y.
        let u_val: Option<Fq> = match (&self.x.value, &self.y.value) {
            (Some(xv), Some(yv)) => {
                let t0 = fq_mul(xv, &scale);
                let inv = match fq_invert(yv) {
                    Some(i) => i,
                    None => {
                        return Err(SynthesisError::DivisionByZero);
                    },
                };
                proof {
                    lemma_fq_val_bound(inv);
                    lemma_inv_is_finv(yv.val(), inv.val());
                    vstd::arithmetic::div_mod::lemma_mod_twice(xv.val() * scale.val(), fq_q());
                }
                Some(fq_mul(&t0, &inv))
            },
            _ => None,
        };
        let u = AllocatedNum::allocate(cs, u_val);
        let ghost csa = *cs;
        // y u = scale x.
        let ua_lc = self.y.lc_scaled(&one);
        let ub_lc = LinComb::of_term(u.var, one);
        let uc_lc = self.x.lc_scaled(&scale);
        proof {
            lemma_mont_lc_setup(self, self, pre, *cs);
            let ni = cs.inputs@.len();
            let na = cs.aux@.len();
            crate::cs::lemma_lc_in_bounds_same_vars(self.y.lc.terms@, ua_lc.terms@, ni, na);
            crate::cs::lemma_lc_in_bounds_same_vars(self.x.lc.terms@, uc_lc.terms@, ni, na);
        }
        cs.enforce(ua_lc, ub_lc, uc_lc);
        let ghost cse1 = *cs;
        proof {
            if self.has_value() {
                assert(c_sat(cse1.constraints@.last(), cse1.inputs@, cse1.aux@)) by {
                    let q = fq_q();
                    let ins = cse1.inputs@;
                    let aux = cse1.aux@;
                    let cst = cse1.constraints@.last();
                    let vx = self.x.val();
                    let vy = self.y.val();
                    let vu = u.val();
                    let sc = montgomery_scale_int();
                    crate::num::lemma_lcnum_wf_extend(self.x, pre, cse1);
                    crate::num::lemma_lcnum_wf_extend(self.y, pre, cse1);
                    crate::num::lemma_num_scaled_eval(self.y, one, ua_lc.terms@, cse1);
                    crate::num::lemma_num_scaled_eval(self.x, scale, uc_lc.terms@, cse1);
                    crate::field::lemma_fq_val_bound(self.y.value.unwrap());
                    vstd::arithmetic::div_mod::lemma_small_mod(vy as nat, q as nat);
                    let ea = lc_eval(cst.a.terms@, ins, aux);
                    assert(ea % q == vy % q) by {
                        assert(1 * vy == vy) by (nonlinear_arith);
                    }
                    crate::cs::lemma_lc_eval_single1(u.var, one, ins, aux);
                    let eb = lc_eval(cst.b.terms@, ins, aux);
                    assert(eb == vu);
                    let ec = lc_eval(cst.c.terms@, ins, aux);
                    assert(ec % q == (vx * sc) % q) by {
                        assert(sc * vx == vx * sc) by (nonlinear_arith);
                        vstd::arithmetic::div_mod::lemma_mod_twice(vx * sc, q);
                    }
                    assert(vu == (((vx * sc) % q) * finv(vy)) % q);
                    crate::field::lemma_div_sat_congruent(
                        ea,
                        eb,
                        ec,
                        vy,
                        vx * sc,
                        vy % q,
                        finv(vy),
                        vu,
                    );
                }
            }
        }
        // v = (x - 1)/(x + 1).
        let v_val: Option<Fq> = match &self.x.value {
            Some(xv) => {
                let num = fq_sub(xv, &one);
                let den = fq_add(xv, &one);
                let inv = match fq_invert(&den) {
                    Some(i) => i,
                    None => {
                        return Err(SynthesisError::DivisionByZero);
                    },
                };
                proof {
                    lemma_fq_val_bound(inv);
                    lemma_inv_is_finv(den.val(), inv.val());
                }
                Some(fq_mul(&num, &inv))
            },
            _ => None,
        };
        let v = AllocatedNum::allocate(cs, v_val);
        let ghost csb = *cs;
        // (x + 1) v = x - 1.
        let xp1 = self.x.lc_scaled(&one);
        let mut va_lc = LinComb::empty();
        va_lc.extend_with(&xp1);
        va_lc.push_term(ConstraintSystem::one(), one);
        let vb_lc = LinComb::of_term(v.var, one);
        let xp2 = self.x.lc_scaled(&one);
        let mut vc_lc = LinComb::empty();
        vc_lc.extend_with(&xp2);
        vc_lc.push_term(ConstraintSystem::one(), neg_one);
        proof {
            let ni = cs.inputs@.len();
            let na = cs.aux@.len();
            crate::num::lemma_lcnum_wf_extend(self.x, pre, *cs);
            crate::cs::lemma_lc_in_bounds_same_vars(self.x.lc.terms@, xp1.terms@, ni, na);
            crate::cs::lemma_lc_in_bounds_same_vars(self.x.lc.terms@, xp2.terms@, ni, na);
            assert(Seq::<Term>::empty() + xp1.terms@ =~= xp1.terms@);
            assert(Seq::<Term>::empty() + xp2.terms@ =~= xp2.terms@);
            assert(va_lc.terms@ == xp1.terms@.push((Term { var: Var::Input(0), coeff: one })));
            assert(vc_lc.terms@ == xp2.terms@.push((Term { var: Var::Input(0), coeff: neg_one })));
            assert(lc_in_bounds(va_lc.terms@, ni, na)) by {
                assert(forall|i: int|
                    0 <= i < va_lc.terms@.len() - 1 ==> (#[trigger] va_lc.terms@[i])
                        == xp1.terms@[i]);
                assert(va_lc.terms@.last().var == Var::Input(0));
            }
            assert(lc_in_bounds(vc_lc.terms@, ni, na)) by {
                assert(forall|i: int|
                    0 <= i < vc_lc.terms@.len() - 1 ==> (#[trigger] vc_lc.terms@[i])
                        == xp2.terms@[i]);
                assert(vc_lc.terms@.last().var == Var::Input(0));
            }
        }
        cs.enforce(va_lc, vb_lc, vc_lc);
        proof {
            if self.has_value() {
                assert(v_val.unwrap().val() == fdiv(fsub(self.x.val(), 1), fadd(self.x.val(), 1)));
                assert(c_sat(cs.constraints@.last(), cs.inputs@, cs.aux@)) by {
                    let q = fq_q();
                    let ins = cs.inputs@;
                    let aux = cs.aux@;
                    let cst = cs.constraints@.last();
                    let vx = self.x.val();
                    let vv = v.val();
                    crate::num::lemma_lcnum_wf_extend(self.x, pre, *cs);
                    crate::num::lemma_num_scaled_eval(self.x, one, xp1.terms@, *cs);
                    crate::num::lemma_num_scaled_eval(self.x, one, xp2.terms@, *cs);
                    crate::field::lemma_fneg_val(1);
                    crate::field::lemma_fq_val_bound(self.x.value.unwrap());
                    vstd::arithmetic::div_mod::lemma_small_mod(vx as nat, q as nat);
                    assert(cst.a.terms@ == xp1.terms@.push(
                        (Term { var: Var::Input(0), coeff: one }),
                    ));
                    assert(cst.c.terms@ == xp2.terms@.push(
                        (Term { var: Var::Input(0), coeff: neg_one }),
                    ));
                    crate::cs::lemma_lc_eval_push(
                        xp1.terms@,
                        (Term { var: Var::Input(0), coeff: one }),
                        ins,
                        aux,
                    );
                    crate::cs::lemma_lc_eval_push(
                        xp2.terms@,
                        (Term { var: Var::Input(0), coeff: neg_one }),
                        ins,
                        aux,
                    );
                    let ex1 = lc_eval(xp1.terms@, ins, aux);
                    let ex2 = lc_eval(xp2.terms@, ins, aux);
                    assert(ex1 % q == vx % q) by {
                        assert(1 * vx == vx) by (nonlinear_arith);
                    }
                    assert(ex2 % q == vx % q) by {
                        assert(1 * vx == vx) by (nonlinear_arith);
                    }
                    let ea = lc_eval(cst.a.terms@, ins, aux);
                    assert(ea == ex1 + 1);
                    assert(ea % q == (vx + 1) % q) by {
                        vstd::arithmetic::div_mod::lemma_small_mod(1nat, q as nat);
                        crate::field::lemma_add_congruent(ex1, vx, 1, 1);
                    }
                    crate::cs::lemma_lc_eval_single1(v.var, one, ins, aux);
                    let eb = lc_eval(cst.b.terms@, ins, aux);
                    assert(eb == vv);
                    let ec = lc_eval(cst.c.terms@, ins, aux);
                    assert(ec == ex2 + (q - 1) * 1);
                    assert(ec % q == (vx - 1) % q) by {
                        crate::field::lemma_negone_scale(1);
                        crate::field::lemma_add_congruent(ex2, vx, (q - 1) * 1, 0 - 1);
                    }
                    assert(vv == (((vx - 1) % q) * finv((vx + 1) % q)) % q);
                    crate::field::lemma_div_sat_congruent(
                        ea,
                        eb,
                        ec,
                        vx + 1,
                        vx - 1,
                        (vx + 1) % q,
                        finv((vx + 1) % q),
                        vv,
                    );
                }
                crate::cs::lemma_new_sat_trans(pre, csa, cse1);
                crate::cs::lemma_new_sat_trans(pre, cse1, csb);
                crate::cs::lemma_new_sat_trans(pre, csb, *cs);
            }
        }
        Ok(EdwardsPoint { u, v })
    }
}

/// The coordinate combinations of two Montgomery points stay within
/// bounds in any extension of the system they are well formed in.
proof fn lemma_mont_lc_setup(
    p: MontgomeryPoint,
    o: MontgomeryPoint,
    pre: ConstraintSystem,
    cs: ConstraintSystem,
)
    requires
        p.wf(pre),
        o.wf(pre),
        cs.extends(pre),
    ensures
        lc_in_bounds(p.x.lc.terms@, cs.inputs@.len(), cs.aux@.len()),
        lc_in_bounds(p.y.lc.terms@, cs.inputs@.len(), cs.aux@.len()),
        lc_in_bounds(o.x.lc.terms@, cs.inputs@.len(), cs.aux@.len()),
        lc_in_bounds(o.y.lc.terms@, cs.inputs@.len(), cs.aux@.len()),
{
    crate::num::lemma_lcnum_wf_extend(p.x, pre, cs);
    crate::num::lemma_lcnum_wf_extend(p.y, pre, cs);
    crate::num::lemma_lcnum_wf_extend(o.x, pre, cs);
    crate::num::lemma_lcnum_wf_extend(o.y, pre, cs);
}

/// Satisfaction of the first selection constraint `u * cond = u'`.
proof fn lemma_select_constraint_sat(
    cs: ConstraintSystem,
    mid2: ConstraintSystem,
    uvar: Var,
    upvar: Var,
    cv: bool,
    vu: int,
    vup: int,
    one: Fq,
)
    requires
        one.val() == 1,
        cs.constraints@.len() == mid2.constraints@.len() + 1,
        mid2.constraints@.is_prefix_of(cs.constraints@),
        cs.constraints@.last().a.terms@ == Seq::<Term>::empty().push(
            (Term { var: uvar, coeff: one }),
        ),
        cs.constraints@.last().c.terms@ == Seq::<Term>::empty().push(
            (Term { var: upvar, coeff: one }),
        ),
        var_eval(uvar, cs.inputs@, cs.aux@) == vu,
        var_eval(upvar, cs.inputs@, cs.aux@) == vup,
        lc_eval(cs.constraints@.last().b.terms@, cs.inputs@, cs.aux@) % fq_q() == (1 * bit_int(cv))
            % fq_q(),
        0 <= vu < fq_q(),
        0 <= vup < fq_q(),
        vup == (if cv {
            vu
        } else {
            0
        }),
    ensures
        c_sat(cs.constraints@.last(), cs.inputs@, cs.aux@),
{
    let q = fq_q();
    let cst = cs.constraints@.last();
    let ins = cs.inputs@;
    let aux = cs.aux@;
    lemma_lc_eval_push(Seq::<Term>::empty(), (Term { var: uvar, coeff: one }), ins, aux);
    lemma_lc_eval_push(Seq::<Term>::empty(), (Term { var: upvar, coeff: one }), ins, aux);
    let ea = lc_eval(cst.a.terms@, ins, aux);
    let eb = lc_eval(cst.b.terms@, ins, aux);
    let ec = lc_eval(cst.c.terms@, ins, aux);
    assert(ea == 1 * vu);
    assert(1 * vu == vu) by (nonlinear_arith);
    assert(ec == 1 * vup);
    assert(1 * vup == vup) by (nonlinear_arith);
    assert(1 * bit_int(cv) == bit_int(cv)) by (nonlinear_arith);
    assert((ea * eb) % q == (vu * bit_int(cv)) % q) by {
        vstd::arithmetic::div_mod::lemma_mul_mod_noop_right(vu, eb, q);
        vstd::arithmetic::div_mod::lemma_mul_mod_noop_right(vu, bit_int(cv), q);
        vstd::arithmetic::div_mod::lemma_mod_twice(bit_int(cv), q);
        assert(bit_int(cv) % q == bit_int(cv)) by {
            vstd::arithmetic::div_mod::lemma_small_mod(bit_int(cv) as nat, q as nat);
        }
    }
    if cv {
        assert(vu * 1 == vu) by (nonlinear_arith);
        vstd::arithmetic::div_mod::lemma_small_mod(vu as nat, q as nat);
    } else {
        assert(vu * 0 == 0) by (nonlinear_arith);
        vstd::arithmetic::div_mod::lemma_small_mod(0nat, q as nat);
    }
    lemma_mod_eq_iff_diff_zero(ea * eb, ec);
    vstd::arithmetic::div_mod::lemma_mod_twice(ec, q);
    vstd::arithmetic::div_mod::lemma_small_mod(vup as nat, q as nat);
}

/// Satisfaction of the second selection constraint
/// `v * cond = v' - (1 - cond)`.
proof fn lemma_select_v_sat(ea: int, eb: int, en: int, ec: int, cv: bool, vv: int, vvp: int)
    requires
        ea == vv,
        ec == 1 * vvp + en,
        eb % fq_q() == (1 * bit_int(cv)) % fq_q(),
        en % fq_q() == ((fq_q() - 1) * bit_int(!cv)) % fq_q(),
        0 <= vv < fq_q(),
        0 <= vvp < fq_q(),
        vvp == (if cv {
            vv
        } else {
            1
        }),
    ensures
        (ea * eb - ec) % fq_q() == 0,
{
    let q = fq_q();
    assert(1 * vvp == vvp) by (nonlinear_arith);
    assert(1 * bit_int(cv) == bit_int(cv)) by (nonlinear_arith);
    assert((ea * eb) % q == (vv * bit_int(cv)) % q) by {
        vstd::arithmetic::div_mod::lemma_mul_mod_noop_right(vv, eb, q);
        vstd::arithmetic::div_mod::lemma_mul_mod_noop_right(vv, bit_int(cv), q);
        vstd::arithmetic::div_mod::lemma_mod_twice(bit_int(cv), q);
        assert(bit_int(cv) % q == bit_int(cv)) by {
            vstd::arithmetic::div_mod::lemma_small_mod(bit_int(cv) as nat, q as nat);
        }
    }
    assert(ec % q == (vvp + en) % q);
    if cv {
        assert(bit_int(!cv) == 0);
        assert((q - 1) * 0 == 0) by (nonlinear_arith);
        assert(en % q == 0) by {
            vstd::arithmetic::div_mod::lemma_small_mod(0nat, q as nat);
        }
        assert(ec % q == vvp % q) by {
            crate::field::lemma_modr_add(vvp, en);
            vstd::arithmetic::div_mod::lemma_mod_twice(en, q);
            assert((vvp + en % q) % q == (vvp + 0) % q);
        }
        assert(vv * 1 == vv) by (nonlinear_arith);
        vstd::arithmetic::div_mod::lemma_small_mod(vv as nat, q as nat);
        vstd::arithmetic::div_mod::lemma_small_mod(vvp as nat, q as nat);
        lemma_mod_eq_iff_diff_zero(ea * eb, ec);
    } else {
        assert(bit_int(!cv) == 1);
        assert((q - 1) * 1 == q - 1) by (nonlinear_arith);
        assert(en % q == q - 1) by {
            vstd::arithmetic::div_mod::lemma_small_mod((q - 1) as nat, q as nat);
        }
        assert(ec % q == (vvp + q - 1) % q) by {
            crate::field::lemma_modr_add(vvp, en);
            assert((vvp + en % q) % q == (vvp + (q - 1)) % q);
        }
        assert((vvp + q - 1) % q == 0) by {
            vstd::arithmetic::div_mod::lemma_mod_add_multiples_vanish(vvp - 1, q);
            vstd::arithmetic::div_mod::lemma_small_mod(0nat, q as nat);
        }
        assert(vv * 0 == 0) by (nonlinear_arith);
        assert((ea * eb) % q == 0) by {
            vstd::arithmetic::div_mod::lemma_small_mod(0nat, q as nat);
        }
        lemma_mod_eq_iff_diff_zero(ea * eb, ec);
    }
}

/// Residues of the reduced squares agree with the raw curve polynomial.
proof fn lemma_curve_residues(uv: int, vv: int, vu2: int, vv2: int, vuv: int)
    requires
        vu2 == (uv * uv) % fq_q(),
        vv2 == (vv * vv) % fq_q(),
        vuv == (vu2 * vv2) % fq_q(),
    ensures
        ((vv2 - vu2) - (1 + edwards_d_int() * vuv)) % fq_q() == ((vv * vv - uv * uv) - (1
            + edwards_d_int() * (uv * uv) * (vv * vv))) % fq_q(),
{
    let q = fq_q();
    let dd = edwards_d_int();
    let u2 = uv * uv;
    let v2 = vv * vv;
    // Replace the reduced product by the raw one.
    assert((dd * vuv) % q == (dd * (u2 * v2)) % q) by {
        vstd::arithmetic::div_mod::lemma_mul_mod_noop_right(dd, vu2 * vv2, q);
        assert((vu2 * vv2) % q == (u2 * v2) % q) by {
            vstd::arithmetic::div_mod::lemma_mul_mod_noop_general(u2, v2, q);
        }
        vstd::arithmetic::div_mod::lemma_mul_mod_noop_right(dd, u2 * v2, q);
    }
    let lhs = (vv2 - vu2) - 1;
    let rhs = (v2 - u2) - 1;
    assert((lhs - dd * vuv) % q == (lhs - dd * (u2 * v2)) % q) by {
        lemma_modr_sub(lhs, dd * vuv);
        lemma_modr_sub(lhs, dd * (u2 * v2));
        vstd::arithmetic::div_mod::lemma_mod_twice(dd * vuv, q);
        vstd::arithmetic::div_mod::lemma_mod_twice(dd * (u2 * v2), q);
        assert((dd * vuv) % q == (dd * (u2 * v2)) % q);
        assert((lhs - (dd * vuv) % q) % q == (lhs - (dd * (u2 * v2)) % q) % q);
    }
    // Replace the reduced squares by the raw ones.
    assert((lhs - dd * (u2 * v2)) % q == (rhs - dd * (u2 * v2)) % q) by {
        let t = 0 - 1 - dd * (u2 * v2);
        assert(lhs - dd * (u2 * v2) == vv2 - vu2 + t);
        assert(rhs - dd * (u2 * v2) == v2 - u2 + t);
        assert((vv2 - vu2 + t) % q == (v2 - u2 + t) % q) by {
            vstd::arithmetic::div_mod::lemma_add_mod_noop(vv2 - vu2, t, q);
            vstd::arithmetic::div_mod::lemma_add_mod_noop(v2 - u2, t, q);
            vstd::arithmetic::div_mod::lemma_sub_mod_noop(v2, u2, q);
            vstd::arithmetic::div_mod::lemma_mod_twice(v2, q);
            vstd::arithmetic::div_mod::lemma_mod_twice(u2, q);
            assert((vv2 - vu2) % q == (v2 - u2) % q) by {
                vstd::arithmetic::div_mod::lemma_sub_mod_noop(vv2, vu2, q);
                vstd::arithmetic::div_mod::lemma_mod_twice(vv2, q);
                vstd::arithmetic::div_mod::lemma_mod_twice(vu2, q);
            }
        }
    }
    assert(dd * (u2 * v2) == dd * u2 * v2) by {
        vstd::arithmetic::mul::lemma_mul_is_associative(dd, u2, v2);
    }
}

/// Satisfaction at a later state, of systems that only added satisfied
/// constraints, mirrors satisfaction at the earlier state.
proof fn lemma_sat_iff_through(pre: ConstraintSystem, cs1: ConstraintSystem, cs2: ConstraintSystem)
    requires
        pre.wf(),
        cs1.wf(),
        cs2.wf(),
        cs1.extends(pre),
        cs2.extends(cs1),
        cs1.new_sat(pre),
        cs2.new_sat(cs1),
    ensures
        cs2.satisfied() <==> pre.satisfied(),
{
    crate::cs::lemma_new_sat_trans(pre, cs1, cs2);
    if pre.satisfied() {
        crate::cs::lemma_satisfied_extend(pre, cs2);
    }
    if cs2.satisfied() {
        assert forall|i: int| 0 <= i < pre.constraints@.len() implies c_sat(
            #[trigger] pre.constraints@[i],
            pre.inputs@,
            pre.aux@,
        ) by {
            assert(cs2.constraints@[i] == pre.constraints@[i]);
            crate::cs::lemma_c_sat_extend(
                pre.constraints@[i],
                pre.inputs@,
                pre.aux@,
                cs2.inputs@,
                cs2.aux@,
            );
        }
    }
}

} // verus!
