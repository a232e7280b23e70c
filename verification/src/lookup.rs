//! Window table lookup gadgets: a three-bit lookup into a table of eight
//! coordinate pairs, and a two-bit lookup with a sign bit into a table of
//! four pairs.

use vstd::prelude::*;

use crate::boolean::{bit_int, boolean_and, Boolean};
use crate::cs::{c_sat, lc_eval, lc_in_bounds, lemma_lc_in_bounds_append, ConstraintSystem, LinComb, Term, Var};
use crate::field::{fneg, fq_add, fq_neg, fq_one, fq_q, fq_sub, Fq};
use crate::num::{AllocatedNum, Num};

verus! {

/// The table index selected by three bits, little-endian.
pub open spec fn lookup3_index(b0: bool, b1: bool, b2: bool) -> int {
    bit_int(b0) + 2 * bit_int(b1) + 4 * bit_int(b2)
}

/// The even-indexed interpolation part selected by the two high bits.
pub open spec fn lk_even(k: Seq<Fq>, b1: bool, b2: bool) -> int {
    k[0].val() + k[2].val() * bit_int(b1) + k[4].val() * bit_int(b2) + k[6].val() * bit_int(
        b1 && b2,
    )
}

/// The odd-indexed interpolation part selected by the two high bits.
pub open spec fn lk_odd(k: Seq<Fq>, b1: bool, b2: bool) -> int {
    k[1].val() + k[3].val() * bit_int(b1) + k[5].val() * bit_int(b2) + k[7].val() * bit_int(
        b1 && b2,
    )
}

/// Satisfaction of a lookup constraint, from the residues of its three
/// evaluations: the odd part times the low bit equals the result minus the
/// even part exactly when the full interpolation recovers the result.
proof fn lemma_lookup_sat(ea: int, eb: int, ec: int, oo: int, bb: int, ee: int, vres: int)
    requires
        ea % fq_q() == oo % fq_q(),
        eb % fq_q() == bb % fq_q(),
        ec % fq_q() == (vres - ee) % fq_q(),
        (ee + bb * oo) % fq_q() == vres % fq_q(),
    ensures
        (ea * eb - ec) % fq_q() == 0,
{
    let q = fq_q();
    crate::field::lemma_mul_congruent(ea, oo, eb, bb);
    assert(oo * bb == bb * oo) by (nonlinear_arith);
    vstd::arithmetic::div_mod::lemma_sub_mod_noop(ea * eb, ec, q);
    vstd::arithmetic::div_mod::lemma_sub_mod_noop(oo * bb, vres - ee, q);
    assert((ea * eb - ec) % q == (oo * bb - (vres - ee)) % q);
    assert(oo * bb - (vres - ee) == (ee + bb * oo) - vres);
    crate::field::lemma_mod_eq_iff_diff_zero(ee + bb * oo, vres);
}

/// A value scaled by a bit is the value or zero.
proof fn lemma_scale_bit(x: int, b: bool)
    ensures
        x * bit_int(b) == (if b {
            x
        } else {
            0int
        }),
{
    if b {
        assert(x * 1 == x) by (nonlinear_arith);
    } else {
        assert(x * 0 == 0) by (nonlinear_arith);
    }
}

/// The interpolation over the bits recovers exactly the constant at the
/// selected index, given the subset sums of the coefficients.
proof fn lemma_lookup_selected(
    k: Seq<Fq>,
    cv: Seq<int>,
    b0: bool,
    b1: bool,
    b2: bool,
    vres: int,
)
    requires
        k.len() == 8,
        cv.len() == 8,
        forall|i: int| 0 <= i < 8 ==> 0 <= #[trigger] cv[i] < fq_q(),
        k[0].val() == cv[0],
        (k[0].val() + k[1].val()) % fq_q() == cv[1],
        (k[0].val() + k[2].val()) % fq_q() == cv[2],
        (k[0].val() + k[1].val() + k[2].val() + k[3].val()) % fq_q() == cv[3],
        (k[0].val() + k[4].val()) % fq_q() == cv[4],
        (k[0].val() + k[1].val() + k[4].val() + k[5].val()) % fq_q() == cv[5],
        (k[0].val() + k[2].val() + k[4].val() + k[6].val()) % fq_q() == cv[6],
        (k[0].val() + k[1].val() + k[2].val() + k[3].val() + k[4].val() + k[5].val() + k[6].val()
            + k[7].val()) % fq_q() == cv[7],
        vres == cv[lookup3_index(b0, b1, b2)],
    ensures
        (lk_even(k, b1, b2) + bit_int(b0) * lk_odd(k, b1, b2)) % fq_q() == vres,
{
    let q = fq_q();
    let ee = lk_even(k, b1, b2);
    let oo = lk_odd(k, b1, b2);
    let k0 = k[0].val();
    let k1 = k[1].val();
    let k2 = k[2].val();
    let k3 = k[3].val();
    let k4 = k[4].val();
    let k5 = k[5].val();
    let k6 = k[6].val();
    let k7 = k[7].val();
    crate::field::lemma_fq_val_bound(k[0]);
    lemma_scale_bit(k2, b1);
    lemma_scale_bit(k3, b1);
    lemma_scale_bit(k4, b2);
    lemma_scale_bit(k5, b2);
    lemma_scale_bit(k6, b1 && b2);
    lemma_scale_bit(k7, b1 && b2);
    if b0 {
        assert(1 * oo == oo) by (nonlinear_arith);
    } else {
        assert(0 * oo == 0) by (nonlinear_arith);
    }
    if !b1 && !b2 {
        assert(ee == k0 && oo == k1);
        if b0 {
            assert((ee + 1 * oo) % q == cv[1]);
        } else {
            vstd::arithmetic::div_mod::lemma_small_mod(cv[0] as nat, q as nat);
        }
    } else if b1 && !b2 {
        assert(ee == k0 + k2 && oo == k1 + k3);
        if b0 {
            assert((ee + 1 * oo) % q == cv[3]);
        } else {
            vstd::arithmetic::div_mod::lemma_small_mod(cv[2] as nat, q as nat);
        }
    } else if !b1 && b2 {
        assert(ee == k0 + k4 && oo == k1 + k5);
        if b0 {
            assert((ee + 1 * oo) % q == cv[5]);
        } else {
            vstd::arithmetic::div_mod::lemma_small_mod(cv[4] as nat, q as nat);
        }
    } else {
        assert(ee == k0 + k2 + k4 + k6 && oo == k1 + k3 + k5 + k7);
        if b0 {
            assert((ee + 1 * oo) % q == cv[7]);
        } else {
            vstd::arithmetic::div_mod::lemma_small_mod(cv[6] as nat, q as nat);
        }
    }
}

/// Multilinear-interpolation coefficients for a table of eight constants:
/// summing the coefficients over the bit-subsets of an index recovers the
/// constant at that index.
fn synth3(c: &[Fq; 8]) -> (k: [Fq; 8])
    ensures
        k@[0].val() == c@[0].val(),
        (k@[0].val() + k@[1].val()) % fq_q() == c@[1].val(),
        (k@[0].val() + k@[2].val()) % fq_q() == c@[2].val(),
        (k@[0].val() + k@[1].val() + k@[2].val() + k@[3].val()) % fq_q() == c@[3].val(),
        (k@[0].val() + k@[4].val()) % fq_q() == c@[4].val(),
        (k@[0].val() + k@[1].val() + k@[4].val() + k@[5].val()) % fq_q() == c@[5].val(),
        (k@[0].val() + k@[2].val() + k@[4].val() + k@[6].val()) % fq_q() == c@[6].val(),
        (k@[0].val() + k@[1].val() + k@[2].val() + k@[3].val() + k@[4].val() + k@[5].val()
            + k@[6].val() + k@[7].val()) % fq_q() == c@[7].val(),
{
    let k0 = c[0];
    let k1 = fq_sub(&c[1], &k0);
    let k2 = fq_sub(&c[2], &k0);
    let pre3 = fq_add(&fq_add(&k0, &k1), &k2);
    let k3 = fq_sub(&c[3], &pre3);
    let k4 = fq_sub(&c[4], &k0);
    let pre5 = fq_add(&fq_add(&k0, &k1), &k4);
    let k5 = fq_sub(&c[5], &pre5);
    let pre6 = fq_add(&fq_add(&k0, &k2), &k4);
    let k6 = fq_sub(&c[6], &pre6);
    let pre7 = fq_add(
        &fq_add(&fq_add(&fq_add(&fq_add(&fq_add(&k0, &k1), &k2), &k3), &k4), &k5),
        &k6,
    );
    let k7 = fq_sub(&c[7], &pre7);
    proof {
        let q = fq_q();
        let c1v = c@[1].val();
        let c2v = c@[2].val();
        let c3v = c@[3].val();
        let c4v = c@[4].val();
        let c5v = c@[5].val();
        let c6v = c@[6].val();
        let c7v = c@[7].val();
        crate::field::lemma_fq_val_bound(c@[1]);
        crate::field::lemma_fq_val_bound(c@[2]);
        crate::field::lemma_fq_val_bound(c@[3]);
        crate::field::lemma_fq_val_bound(c@[4]);
        crate::field::lemma_fq_val_bound(c@[5]);
        crate::field::lemma_fq_val_bound(c@[6]);
        crate::field::lemma_fq_val_bound(c@[7]);
        vstd::arithmetic::div_mod::lemma_small_mod(c1v as nat, q as nat);
        vstd::arithmetic::div_mod::lemma_small_mod(c2v as nat, q as nat);
        vstd::arithmetic::div_mod::lemma_small_mod(c3v as nat, q as nat);
        vstd::arithmetic::div_mod::lemma_small_mod(c4v as nat, q as nat);
        vstd::arithmetic::div_mod::lemma_small_mod(c5v as nat, q as nat);
        vstd::arithmetic::div_mod::lemma_small_mod(c6v as nat, q as nat);
        vstd::arithmetic::div_mod::lemma_small_mod(c7v as nat, q as nat);
        let k0v = k0.val();
        crate::field::lemma_modr_add(k0v, c1v - k0v);
        crate::field::lemma_modr_add(k0v, c2v - k0v);
        crate::field::lemma_modr_add(k0v, c4v - k0v);
        assert(pre3.val() == (k0v + k1.val() + k2.val()) % q) by {
            crate::field::lemma_modl_add(k0v + k1.val(), k2.val());
        }
        lemma_subset_step(k0v + k1.val() + k2.val(), pre3.val(), k3.val(), c3v);
        assert(pre5.val() == (k0v + k1.val() + k4.val()) % q) by {
            crate::field::lemma_modl_add(k0v + k1.val(), k4.val());
        }
        lemma_subset_step(k0v + k1.val() + k4.val(), pre5.val(), k5.val(), c5v);
        assert(pre6.val() == (k0v + k2.val() + k4.val()) % q) by {
            crate::field::lemma_modl_add(k0v + k2.val(), k4.val());
        }
        lemma_subset_step(k0v + k2.val() + k4.val(), pre6.val(), k6.val(), c6v);
        let s7 = k0v + k1.val() + k2.val() + k3.val() + k4.val() + k5.val() + k6.val();
        assert(pre7.val() == s7 % q) by {
            crate::field::lemma_modl_add(k0v + k1.val(), k2.val());
            crate::field::lemma_modl_add(k0v + k1.val() + k2.val(), k3.val());
            crate::field::lemma_modl_add(k0v + k1.val() + k2.val() + k3.val(), k4.val());
            crate::field::lemma_modl_add(k0v + k1.val() + k2.val() + k3.val() + k4.val(), k5.val());
            crate::field::lemma_modl_add(
                k0v + k1.val() + k2.val() + k3.val() + k4.val() + k5.val(),
                k6.val(),
            );
        }
        lemma_subset_step(s7, pre7.val(), k7.val(), c7v);
    }
    [k0, k1, k2, k3, k4, k5, k6, k7]
}

/// One interpolation coefficient: adding the difference between the target
/// constant and the reduced partial sum completes the subset sum.
proof fn lemma_subset_step(s: int, pre: int, kv: int, cv: int)
    requires
        pre == s % fq_q(),
        kv == (cv - pre) % fq_q(),
        0 <= cv < fq_q(),
    ensures
        (s + kv) % fq_q() == cv,
{
    let q = fq_q();
    crate::field::lemma_modr_add(s, cv - pre);
    assert((s + (cv - pre)) % q == ((s - (s % q)) + cv) % q);
    crate::field::lemma_modl_add(s - (s % q), cv);
    crate::field::lemma_sub_self_mod(s);
    assert(((s - (s % q)) % q + cv) % q == (0 + cv) % q);
    vstd::arithmetic::div_mod::lemma_small_mod(cv as nat, q as nat);
}

/// Multilinear-interpolation coefficients for a table of four constants:
/// summing the coefficients over the bit-subsets of an index recovers the
/// constant at that index.
fn synth2(c: &[Fq; 4]) -> (k: [Fq; 4])
    ensures
        k@[0].val() == c@[0].val(),
        (k@[0].val() + k@[1].val()) % fq_q() == c@[1].val(),
        (k@[0].val() + k@[2].val()) % fq_q() == c@[2].val(),
        (k@[0].val() + k@[1].val() + k@[2].val() + k@[3].val()) % fq_q() == c@[3].val(),
{
    let k0 = c[0];
    let k1 = fq_sub(&c[1], &k0);
    let k2 = fq_sub(&c[2], &k0);
    let pre3 = fq_add(&fq_add(&k0, &k1), &k2);
    let k3 = fq_sub(&c[3], &pre3);
    proof {
        let q = fq_q();
        let c0 = c@[0].val();
        let c1 = c@[1].val();
        let c2 = c@[2].val();
        let c3 = c@[3].val();
        crate::field::lemma_fq_val_bound(c@[1]);
        crate::field::lemma_fq_val_bound(c@[2]);
        crate::field::lemma_fq_val_bound(c@[3]);
        vstd::arithmetic::div_mod::lemma_small_mod(c1 as nat, q as nat);
        vstd::arithmetic::div_mod::lemma_small_mod(c2 as nat, q as nat);
        vstd::arithmetic::div_mod::lemma_small_mod(c3 as nat, q as nat);
        crate::field::lemma_modr_add(c0, c1 - c0);
        crate::field::lemma_modr_add(c0, c2 - c0);
        let s = c0 + k1.val() + k2.val();
        assert(pre3.val() == s % q) by {
            crate::field::lemma_modl_add(c0 + k1.val(), k2.val());
        }
        assert((s + k3.val()) % q == c3) by {
            crate::field::lemma_modr_add(s, c3 - pre3.val());
            assert((s + (c3 - (s % q))) % q == ((s - (s % q)) + c3) % q);
            crate::field::lemma_modl_add(s - (s % q), c3);
            crate::field::lemma_sub_self_mod(s);
            assert(((s - (s % q)) % q + c3) % q == (0 + c3) % q);
        }
    }
    [k0, k1, k2, k3]
}

/// Performs a three-bit window table lookup over eight coordinate pairs,
/// with `bits` little-endian. The returned coordinates carry the pair at
/// the index the bits select, and the recorded constraints tie the
/// allocated result to the table entry picked by the bit variables.
pub fn lookup3_xy(
    cs: &mut ConstraintSystem,
    bits: &[Boolean; 3],
    coords: &Vec<(Fq, Fq)>,
) -> (r: (AllocatedNum, AllocatedNum))
    requires
        old(cs).wf(),
        coords@.len() == 8,
        bits[0].wf(*old(cs)),
        bits[1].wf(*old(cs)),
        bits[2].wf(*old(cs)),
    ensures
        final(cs).wf(),
        final(cs).extends(*old(cs)),
        final(cs).inputs@ == old(cs).inputs@,
        r.0.wf(*final(cs)),
        r.1.wf(*final(cs)),
        r.0.value is Some <==> (bits[0].value_spec() is Some && bits[1].value_spec() is Some
            && bits[2].value_spec() is Some),
        (r.1.value is Some) <==> (r.0.value is Some),
        r.0.value is Some ==> r.0.val() == coords@[lookup3_index(
            bits[0].value_spec().unwrap(),
            bits[1].value_spec().unwrap(),
            bits[2].value_spec().unwrap(),
        )].0.val(),
        r.0.value is Some ==> r.1.val() == coords@[lookup3_index(
            bits[0].value_spec().unwrap(),
            bits[1].value_spec().unwrap(),
            bits[2].value_spec().unwrap(),
        )].1.val(),
        (bits[0].value_spec() is Some && bits[1].value_spec() is Some && bits[2].value_spec()
            is Some) ==> final(cs).new_sat(*old(cs)),
{
    let ghost pre = *old(cs);
    // The looked-up pair, when every bit carries a value.
    let picked: Option<(Fq, Fq)> = match (bits[0].get_value(), bits[1].get_value(), bits[2]
        .get_value()) {
        (Some(a), Some(b), Some(c)) => {
            let mut idx: usize = 0;
            if a {
                idx = idx + 1;
            }
            if b {
                idx = idx + 2;
            }
            if c {
                idx = idx + 4;
            }
            proof {
                assert(idx as int == lookup3_index(a, b, c));
            }
            Some(coords[idx])
        },
        _ => None,
    };
    let res_x = AllocatedNum::allocate(
        cs,
        match &picked {
            Some(p) => Some(p.0),
            None => None,
        },
    );
    let res_y = AllocatedNum::allocate(
        cs,
        match &picked {
            Some(p) => Some(p.1),
            None => None,
        },
    );
    // Interpolation coefficients for both coordinates.
    let xs: [Fq; 8] = [
        coords[0].0,
        coords[1].0,
        coords[2].0,
        coords[3].0,
        coords[4].0,
        coords[5].0,
        coords[6].0,
        coords[7].0,
    ];
    let ys: [Fq; 8] = [
        coords[0].1,
        coords[1].1,
        coords[2].1,
        coords[3].1,
        coords[4].1,
        coords[5].1,
        coords[6].1,
        coords[7].1,
    ];
    let ghost mid = *cs;
    let xk = synth3(&xs);
    let yk = synth3(&ys);
    let precomp = boolean_and(cs, &bits[1], &bits[2]);
    proof {
        crate::boolean::lemma_boolean_wf_extend(bits[0], pre, *cs);
        crate::boolean::lemma_boolean_wf_extend(bits[1], pre, *cs);
        crate::boolean::lemma_boolean_wf_extend(bits[2], pre, *cs);
        crate::num::lemma_num_wf_extend(res_x, mid, *cs);
        crate::num::lemma_num_wf_extend(res_y, mid, *cs);
    }
    let ghost mid2 = *cs;
    proof {
        if bits[0].value_spec() is Some && bits[1].value_spec() is Some && bits[2].value_spec()
            is Some {
            let b0v = bits[0].value_spec().unwrap();
            let b1v = bits[1].value_spec().unwrap();
            let b2v = bits[2].value_spec().unwrap();
            let xv = Seq::new(8, |i: int| coords@[i].0.val());
            let yv = Seq::new(8, |i: int| coords@[i].1.val());
            assert(forall|i: int| 0 <= i < 8 ==> xs@[i] == coords@[i].0);
            assert(forall|i: int| 0 <= i < 8 ==> ys@[i] == coords@[i].1);
            assert(forall|i: int| 0 <= i < 8 ==> 0 <= #[trigger] xv[i] < fq_q()) by {
                assert forall|i: int| 0 <= i < 8 implies 0 <= #[trigger] xv[i] < fq_q() by {
                    crate::field::lemma_fq_val_bound(coords@[i].0);
                }
            }
            assert(forall|i: int| 0 <= i < 8 ==> 0 <= #[trigger] yv[i] < fq_q()) by {
                assert forall|i: int| 0 <= i < 8 implies 0 <= #[trigger] yv[i] < fq_q() by {
                    crate::field::lemma_fq_val_bound(coords@[i].1);
                }
            }
            lemma_lookup_selected(xk@, xv, b0v, b1v, b2v, res_x.val());
            lemma_lookup_selected(yk@, yv, b0v, b1v, b2v, res_y.val());
        }
    }
    // x-coordinate lookup: the interpolation over the bits, multiplied by
    // the low bit, must equal the allocated result minus the even-index
    // interpolation part.
    lookup3_constrain(cs, bits, &precomp, &res_x, &xk);
    proof {
        crate::boolean::lemma_boolean_wf_extend(bits[0], mid2, *cs);
        crate::boolean::lemma_boolean_wf_extend(bits[1], mid2, *cs);
        crate::boolean::lemma_boolean_wf_extend(bits[2], mid2, *cs);
        crate::boolean::lemma_boolean_wf_extend(precomp, mid2, *cs);
        crate::num::lemma_num_wf_extend(res_x, mid2, *cs);
        crate::num::lemma_num_wf_extend(res_y, mid2, *cs);
    }
    let ghost mid3 = *cs;
    // y-coordinate lookup, of the same shape.
    lookup3_constrain(cs, bits, &precomp, &res_y, &yk);
    proof {
        crate::num::lemma_num_wf_extend(res_x, mid3, *cs);
        crate::num::lemma_num_wf_extend(res_y, mid3, *cs);
        crate::cs::lemma_extends_trans(pre, mid2, mid3);
        crate::cs::lemma_extends_trans(pre, mid3, *cs);
        if bits[0].value_spec() is Some && bits[1].value_spec() is Some && bits[2].value_spec()
            is Some {
            crate::cs::lemma_new_sat_trans(pre, mid2, mid3);
            crate::cs::lemma_new_sat_trans(pre, mid3, *cs);
        }
    }
    (res_x, res_y)
}

/// Records the lookup constraint for one coordinate: the odd-index
/// interpolation part times the low bit equals the allocated result minus
/// the even-index part. With the bits known, the constraint is satisfied
/// by the witnessed table entry.
#[verifier::rlimit(60)]
fn lookup3_constrain(
    cs: &mut ConstraintSystem,
    bits: &[Boolean; 3],
    precomp: &Boolean,
    res: &AllocatedNum,
    k: &[Fq; 8],
)
    requires
        old(cs).wf(),
        bits[0].wf(*old(cs)),
        bits[1].wf(*old(cs)),
        bits[2].wf(*old(cs)),
        precomp.wf(*old(cs)),
        res.wf(*old(cs)),
        (bits[0].value_spec() is Some && bits[1].value_spec() is Some && bits[2].value_spec()
            is Some) ==> (precomp.value_spec() == Some(
            (bits[1].value_spec().unwrap() && bits[2].value_spec().unwrap()),
        ) && res.value is Some && (lk_even(
            k@,
            bits[1].value_spec().unwrap(),
            bits[2].value_spec().unwrap(),
        ) + bit_int(bits[0].value_spec().unwrap()) * lk_odd(
            k@,
            bits[1].value_spec().unwrap(),
            bits[2].value_spec().unwrap(),
        )) % fq_q() == res.val()),
    ensures
        final(cs).wf(),
        final(cs).extends(*old(cs)),
        final(cs).inputs@ == old(cs).inputs@,
        final(cs).aux@ == old(cs).aux@,
        (bits[0].value_spec() is Some && bits[1].value_spec() is Some && bits[2].value_spec()
            is Some) ==> final(cs).new_sat(*old(cs)),
{
    let ghost ni = old(cs).inputs@.len();
    let ghost na = old(cs).aux@.len();
    let one = fq_one();
    let k1 = k[1];
    let mut a_lc = LinComb::of_term(ConstraintSystem::one(), k1);
    let a1 = bits[1].lc(&k[3]);
    let a2 = bits[2].lc(&k[5]);
    let a3 = precomp.lc(&k[7]);
    a_lc.extend_with(&a1);
    a_lc.extend_with(&a2);
    a_lc.extend_with(&a3);
    let b_lc = bits[0].lc(&one);
    let nk0 = fq_neg(&k[0]);
    let nk2 = fq_neg(&k[2]);
    let nk4 = fq_neg(&k[4]);
    let nk6 = fq_neg(&k[6]);
    let mut c_lc = LinComb::of_term(res.var, one);
    c_lc.push_term(ConstraintSystem::one(), nk0);
    let c1 = bits[1].lc(&nk2);
    let c2 = bits[2].lc(&nk4);
    let c3 = precomp.lc(&nk6);
    c_lc.extend_with(&c1);
    c_lc.extend_with(&c2);
    c_lc.extend_with(&c3);
    let ghost sa = Seq::<crate::cs::Term>::empty().push(
        (crate::cs::Term { var: Var::Input(0), coeff: k1 }),
    );
    let ghost base = Seq::<crate::cs::Term>::empty().push(
        (crate::cs::Term { var: res.var, coeff: one }),
    ).push((crate::cs::Term { var: Var::Input(0), coeff: nk0 }));
    proof {
        assert(old(cs).wf());
        assert(lc_in_bounds(a1.terms@, ni, na));
        assert(lc_in_bounds(a2.terms@, ni, na));
        assert(lc_in_bounds(a3.terms@, ni, na));
        assert(lc_in_bounds(b_lc.terms@, ni, na));
        assert(lc_in_bounds(c1.terms@, ni, na));
        assert(lc_in_bounds(c2.terms@, ni, na));
        assert(lc_in_bounds(c3.terms@, ni, na));
        assert(lc_in_bounds(sa, ni, na)) by {
            assert(sa[0].var == Var::Input(0));
        }
        assert(lc_in_bounds(a_lc.terms@, ni, na)) by {
            lemma_lc_in_bounds_append(sa, a1.terms@, ni, na);
            lemma_lc_in_bounds_append(sa + a1.terms@, a2.terms@, ni, na);
            lemma_lc_in_bounds_append(sa + a1.terms@ + a2.terms@, a3.terms@, ni, na);
        }
        assert(lc_in_bounds(base, ni, na)) by {
            assert(base[0].var == res.var);
            assert(base[1].var == Var::Input(0));
        }
        assert(lc_in_bounds(c_lc.terms@, ni, na)) by {
            lemma_lc_in_bounds_append(base, c1.terms@, ni, na);
            lemma_lc_in_bounds_append(base + c1.terms@, c2.terms@, ni, na);
            lemma_lc_in_bounds_append(base + c1.terms@ + c2.terms@, c3.terms@, ni, na);
        }
    }
    cs.enforce(a_lc, b_lc, c_lc);
    proof {
        if bits[0].value_spec() is Some && bits[1].value_spec() is Some && bits[2].value_spec()
            is Some {
            let q = fq_q();
            let ins = cs.inputs@;
            let aux = cs.aux@;
            let cst = cs.constraints@.last();
            let b0v = bits[0].value_spec().unwrap();
            let b1v = bits[1].value_spec().unwrap();
            let b2v = bits[2].value_spec().unwrap();
            let pv = b1v && b2v;
            let k0v = k@[0].val();
            let k1v = k@[1].val();
            let k2v = k@[2].val();
            let k3v = k@[3].val();
            let k4v = k@[4].val();
            let k5v = k@[5].val();
            let k6v = k@[6].val();
            let k7v = k@[7].val();
            let vres = res.val();
            // The bits keep their backing in the grown system, so the
            // residues their combinations evaluate to are known.
            assert(cs.wf());
            assert(bits[0].wf(*cs) && bits[1].wf(*cs) && bits[2].wf(*cs) && precomp.wf(*cs));
            let e1 = lc_eval(a1.terms@, ins, aux);
            let e2 = lc_eval(a2.terms@, ins, aux);
            let e3 = lc_eval(a3.terms@, ins, aux);
            assert(e1 % q == (k3v * bit_int(b1v)) % q);
            assert(e2 % q == (k5v * bit_int(b2v)) % q);
            assert(e3 % q == (k7v * bit_int(pv)) % q);
            let ea = lc_eval(cst.a.terms@, ins, aux);
            assert(cst.a.terms@ == sa + a1.terms@ + a2.terms@ + a3.terms@);
            crate::cs::lemma_lc_eval_append(sa + a1.terms@ + a2.terms@, a3.terms@, ins, aux);
            crate::cs::lemma_lc_eval_append(sa + a1.terms@, a2.terms@, ins, aux);
            crate::cs::lemma_lc_eval_append(sa, a1.terms@, ins, aux);
            crate::cs::lemma_lc_eval_push(
                Seq::<crate::cs::Term>::empty(),
                (crate::cs::Term { var: Var::Input(0), coeff: k1 }),
                ins,
                aux,
            );
            assert(k1v * 1 == k1v) by (nonlinear_arith);
            assert(lc_eval(sa, ins, aux) == k1v);
            assert(ea == k1v + e1 + e2 + e3);
            let oo = lk_odd(k@, b1v, b2v);
            assert(ea % q == oo % q) by {
                crate::field::lemma_fq_val_bound(k@[1]);
                vstd::arithmetic::div_mod::lemma_small_mod(k1v as nat, q as nat);
                crate::field::lemma_add_congruent(k1v, k1v, e1, k3v * bit_int(b1v));
                crate::field::lemma_add_congruent(
                    k1v + e1,
                    k1v + k3v * bit_int(b1v),
                    e2,
                    k5v * bit_int(b2v),
                );
                crate::field::lemma_add_congruent(
                    k1v + e1 + e2,
                    k1v + k3v * bit_int(b1v) + k5v * bit_int(b2v),
                    e3,
                    k7v * bit_int(pv),
                );
            }
            let eb = lc_eval(cst.b.terms@, ins, aux);
            let bb = bit_int(b0v);
            assert(eb % q == bb % q) by {
                assert(eb % q == (one.val() * bb) % q);
                assert(1 * bb == bb) by (nonlinear_arith);
            }
            let ec1 = lc_eval(c1.terms@, ins, aux);
            let ec2 = lc_eval(c2.terms@, ins, aux);
            let ec3 = lc_eval(c3.terms@, ins, aux);
            assert(ec1 % q == (nk2.val() * bit_int(b1v)) % q);
            assert(ec2 % q == (nk4.val() * bit_int(b2v)) % q);
            assert(ec3 % q == (nk6.val() * bit_int(pv)) % q);
            assert(ec1 % q == (0 - k2v * bit_int(b1v)) % q) by {
                vstd::arithmetic::div_mod::lemma_mul_mod_noop_left(0 - k2v, bit_int(b1v), q);
                assert((0 - k2v) * bit_int(b1v) == 0 - k2v * bit_int(b1v)) by (nonlinear_arith);
            }
            assert(ec2 % q == (0 - k4v * bit_int(b2v)) % q) by {
                vstd::arithmetic::div_mod::lemma_mul_mod_noop_left(0 - k4v, bit_int(b2v), q);
                assert((0 - k4v) * bit_int(b2v) == 0 - k4v * bit_int(b2v)) by (nonlinear_arith);
            }
            assert(ec3 % q == (0 - k6v * bit_int(pv)) % q) by {
                vstd::arithmetic::div_mod::lemma_mul_mod_noop_left(0 - k6v, bit_int(pv), q);
                assert((0 - k6v) * bit_int(pv) == 0 - k6v * bit_int(pv)) by (nonlinear_arith);
            }
            let ec = lc_eval(cst.c.terms@, ins, aux);
            assert(cst.c.terms@ == base + c1.terms@ + c2.terms@ + c3.terms@);
            crate::cs::lemma_lc_eval_append(base + c1.terms@ + c2.terms@, c3.terms@, ins, aux);
            crate::cs::lemma_lc_eval_append(base + c1.terms@, c2.terms@, ins, aux);
            crate::cs::lemma_lc_eval_append(base, c1.terms@, ins, aux);
            crate::cs::lemma_lc_eval_push(
                Seq::<crate::cs::Term>::empty(),
                (crate::cs::Term { var: res.var, coeff: one }),
                ins,
                aux,
            );
            crate::cs::lemma_lc_eval_push(
                Seq::<crate::cs::Term>::empty().push(
                    (crate::cs::Term { var: res.var, coeff: one }),
                ),
                (crate::cs::Term { var: Var::Input(0), coeff: nk0 }),
                ins,
                aux,
            );
            assert(1 * vres == vres) by (nonlinear_arith);
            assert(nk0.val() * 1 == nk0.val()) by (nonlinear_arith);
            assert(lc_eval(base, ins, aux) == vres + nk0.val());
            assert(ec == vres + nk0.val() + ec1 + ec2 + ec3);
            let ee = lk_even(k@, b1v, b2v);
            assert(ec % q == (vres - ee) % q) by {
                crate::field::lemma_fq_val_bound(res.value.unwrap());
                vstd::arithmetic::div_mod::lemma_small_mod(vres as nat, q as nat);
                assert(nk0.val() % q == (0 - k0v) % q) by {
                    vstd::arithmetic::div_mod::lemma_mod_twice(0 - k0v, q);
                }
                crate::field::lemma_add_congruent(vres, vres, nk0.val(), 0 - k0v);
                crate::field::lemma_add_congruent(
                    vres + nk0.val(),
                    vres + (0 - k0v),
                    ec1,
                    0 - k2v * bit_int(b1v),
                );
                crate::field::lemma_add_congruent(
                    vres + nk0.val() + ec1,
                    vres + (0 - k0v) + (0 - k2v * bit_int(b1v)),
                    ec2,
                    0 - k4v * bit_int(b2v),
                );
                crate::field::lemma_add_congruent(
                    vres + nk0.val() + ec1 + ec2,
                    vres + (0 - k0v) + (0 - k2v * bit_int(b1v)) + (0 - k4v * bit_int(b2v)),
                    ec3,
                    0 - k6v * bit_int(pv),
                );
            }
            assert((ee + bb * oo) % q == vres % q) by {
                crate::field::lemma_fq_val_bound(res.value.unwrap());
                vstd::arithmetic::div_mod::lemma_small_mod(vres as nat, q as nat);
            }
            lemma_lookup_sat(ea, eb, ec, oo, bb, ee, vres);
            assert(c_sat(cst, ins, aux));
        }
    }
}

/// The table index selected by two bits, little-endian.
pub open spec fn lookup2_index(b0: bool, b1: bool) -> int {
    bit_int(b0) + 2 * bit_int(b1)
}

/// The two-bit interpolation over the bits recovers exactly the constant
/// at the selected index, given the subset sums of the coefficients.
proof fn lemma_lookup2_selected(k: Seq<Fq>, cv: Seq<int>, b0: bool, b1: bool, sel: int)
    requires
        k.len() == 4,
        cv.len() == 4,
        forall|i: int| 0 <= i < 4 ==> 0 <= #[trigger] cv[i] < fq_q(),
        k[0].val() == cv[0],
        (k[0].val() + k[1].val()) % fq_q() == cv[1],
        (k[0].val() + k[2].val()) % fq_q() == cv[2],
        (k[0].val() + k[1].val() + k[2].val() + k[3].val()) % fq_q() == cv[3],
        sel == cv[lookup2_index(b0, b1)],
    ensures
        (k[0].val() + k[1].val() * bit_int(b0) + k[2].val() * bit_int(b1) + k[3].val() * bit_int(
            b0 && b1,
        )) % fq_q() == sel,
{
    let q = fq_q();
    let k0 = k[0].val();
    let k1 = k[1].val();
    let k2 = k[2].val();
    let k3 = k[3].val();
    crate::field::lemma_fq_val_bound(k[0]);
    lemma_scale_bit(k1, b0);
    lemma_scale_bit(k2, b1);
    lemma_scale_bit(k3, b0 && b1);
    if !b0 && !b1 {
        vstd::arithmetic::div_mod::lemma_small_mod(cv[0] as nat, q as nat);
    }
}

/// Satisfaction of the sign-handling constraint of a two-bit lookup:
/// twice the interpolation, times the sign bit, equals the interpolation
/// minus the allocated result, which carries the conditionally negated
/// entry.
proof fn lemma_cond_neg_sat(
    ea: int,
    eb: int,
    ec: int,
    eyl: int,
    nv: int,
    vy: int,
    cy: int,
    b2: bool,
)
    requires
        ea == eyl + eyl,
        eb % fq_q() == bit_int(b2) % fq_q(),
        ec == eyl + nv * vy,
        nv == fq_q() - 1,
        eyl % fq_q() == cy,
        0 <= cy < fq_q(),
        0 <= vy < fq_q(),
        vy == (if b2 {
            (0 - cy) % fq_q()
        } else {
            cy
        }),
    ensures
        (ea * eb - ec) % fq_q() == 0,
{
    let q = fq_q();
    let bb = bit_int(b2);
    crate::field::lemma_mul_congruent(ea, ea, eb, bb);
    assert((q - 1) * vy == q * vy - vy) by (nonlinear_arith);
    assert(ec == eyl - vy + q * vy);
    assert(ec % q == (eyl - vy) % q) by {
        vstd::arithmetic::div_mod::lemma_mod_multiples_vanish(vy, eyl - vy, q);
    }
    vstd::arithmetic::div_mod::lemma_sub_mod_noop(ea * eb, ec, q);
    vstd::arithmetic::div_mod::lemma_sub_mod_noop(ea * bb, eyl - vy, q);
    vstd::arithmetic::div_mod::lemma_mod_twice(ea * bb, q);
    vstd::arithmetic::div_mod::lemma_mod_twice(ec, q);
    assert((ea * eb - ec) % q == (ea * bb - (eyl - vy)) % q);
    if b2 {
        assert(ea * 1 == ea) by (nonlinear_arith);
        assert(ea * bb - (eyl - vy) == eyl + vy);
        assert((eyl + vy) % q == 0) by {
            vstd::arithmetic::div_mod::lemma_small_mod(cy as nat, q as nat);
            crate::field::lemma_add_congruent(eyl, cy, vy, 0 - cy);
            assert(cy + (0 - cy) == 0);
            vstd::arithmetic::div_mod::lemma_small_mod(0nat, q as nat);
            vstd::arithmetic::div_mod::lemma_mod_twice(0 - cy, q);
            vstd::arithmetic::div_mod::lemma_small_mod(vy as nat, q as nat);
        }
    } else {
        assert(ea * 0 == 0) by (nonlinear_arith);
        assert(ea * bb - (eyl - vy) == vy - eyl);
        assert((vy - eyl) % q == 0) by {
            vstd::arithmetic::div_mod::lemma_small_mod(vy as nat, q as nat);
            crate::field::lemma_mod_eq_iff_diff_zero(vy, eyl);
        }
    }
}

/// Performs a two-bit window table lookup over four coordinate pairs, with
/// the third bit negating the second coordinate. The first coordinate comes
/// back as a constant combination over the bits; the second is allocated
/// and constrained to the conditionally negated table entry.
#[verifier::rlimit(100)]
pub fn lookup3_xy_with_conditional_negation(
    cs: &mut ConstraintSystem,
    bits: &[Boolean; 3],
    coords: &Vec<(Fq, Fq)>,
) -> (r: (Num, Num))
    requires
        old(cs).wf(),
        coords@.len() == 4,
        bits[0].wf(*old(cs)),
        bits[1].wf(*old(cs)),
        bits[2].wf(*old(cs)),
    ensures
        final(cs).wf(),
        final(cs).extends(*old(cs)),
        final(cs).inputs@ == old(cs).inputs@,
        r.0.wf(*final(cs)),
        r.1.wf(*final(cs)),
        r.0.value is Some <==> (bits[0].value_spec() is Some && bits[1].value_spec() is Some),
        r.1.value is Some <==> (bits[0].value_spec() is Some && bits[1].value_spec() is Some
            && bits[2].value_spec() is Some),
        (r.0.value is Some && r.1.value is Some) ==> {
            let e = coords@[lookup2_index(
                bits[0].value_spec().unwrap(),
                bits[1].value_spec().unwrap(),
            )];
            r.0.val() == e.0.val() && r.1.val() == (if bits[2].value_spec().unwrap() {
                fneg(e.1.val())
            } else {
                e.1.val()
            })
        },
        (bits[0].value_spec() is Some && bits[1].value_spec() is Some && bits[2].value_spec()
            is Some) ==> final(cs).new_sat(*old(cs)),
{
    let ghost pre = *old(cs);
    // The conditionally negated second coordinate, when every bit carries a
    // value.
    let yval: Option<Fq> = match (bits[0].get_value(), bits[1].get_value(), bits[2].get_value()) {
        (Some(a), Some(b), Some(c)) => {
            let mut idx: usize = 0;
            if a {
                idx = idx + 1;
            }
            if b {
                idx = idx + 2;
            }
            proof {
                assert(idx as int == lookup2_index(a, b));
            }
            let mut t = coords[idx].1;
            if c {
                t = fq_neg(&t);
            }
            proof {
                if !c {
                    crate::field::lemma_fq_val_bound(coords@[idx as int].1);
                    vstd::arithmetic::div_mod::lemma_small_mod(
                        coords@[idx as int].1.val() as nat,
                        fq_q() as nat,
                    );
                }
            }
            Some(t)
        },
        _ => None,
    };
    let y = AllocatedNum::allocate(cs, yval);
    let xs: [Fq; 4] = [coords[0].0, coords[1].0, coords[2].0, coords[3].0];
    let ys: [Fq; 4] = [coords[0].1, coords[1].1, coords[2].1, coords[3].1];
    let xk = synth2(&xs);
    let yk = synth2(&ys);
    let ghost mid = *cs;
    let precomp = boolean_and(cs, &bits[0], &bits[1]);
    proof {
        crate::boolean::lemma_boolean_wf_extend(bits[0], pre, *cs);
        crate::boolean::lemma_boolean_wf_extend(bits[1], pre, *cs);
        crate::boolean::lemma_boolean_wf_extend(bits[2], pre, *cs);
        crate::num::lemma_num_wf_extend(y, mid, *cs);
    }
    // The first coordinate as a multilinear combination of the bits.
    let x_num = Num::zero().add_bool_with_coeff(&Boolean::constant(true), &xk[0]).add_bool_with_coeff(
        &bits[0],
        &xk[1],
    ).add_bool_with_coeff(&bits[1], &xk[2]).add_bool_with_coeff(&precomp, &xk[3]);
    proof {
        if x_num.value is Some {
            let q = fq_q();
            let k0 = xk@[0].val();
            let k1 = xk@[1].val();
            let k2 = xk@[2].val();
            let k3 = xk@[3].val();
            let b0 = bits[0].value_spec().unwrap();
            let b1 = bits[1].value_spec().unwrap();
            let pb = b0 && b1;
            let cx = coords@[lookup2_index(b0, b1)].0.val();
            // The tracked value is the interpolation over the bits, reduced
            // once.
            crate::field::lemma_fq_val_bound(xk@[0]);
            vstd::arithmetic::div_mod::lemma_small_mod(k0 as nat, q as nat);
            assert(k0 * 1 == k0) by (nonlinear_arith);
            let t1 = k0 + k1 * bit_int(b0);
            let t2 = t1 + k2 * bit_int(b1);
            let t3 = t2 + k3 * bit_int(pb);
            assert(x_num.val() == (((k0 % q + k1 * bit_int(b0)) % q + k2 * bit_int(b1)) % q + k3
                * bit_int(pb)) % q);
            assert(x_num.val() == t3 % q) by {
                crate::field::lemma_modl_add(t1, k2 * bit_int(b1));
                crate::field::lemma_modl_add(t2, k3 * bit_int(pb));
            }
            let cxv = Seq::new(4, |i: int| coords@[i].0.val());
            assert(forall|i: int| 0 <= i < 4 ==> xs@[i] == coords@[i].0);
            assert(forall|i: int| 0 <= i < 4 ==> 0 <= #[trigger] cxv[i] < fq_q()) by {
                assert forall|i: int| 0 <= i < 4 implies 0 <= #[trigger] cxv[i] < fq_q() by {
                    crate::field::lemma_fq_val_bound(coords@[i].0);
                }
            }
            lemma_lookup2_selected(xk@, cxv, b0, b1, cx);
            assert(x_num.val() == cx);
        }
    }
    // Enforce that twice the second-coordinate combination, times the sign
    // bit, equals the combination minus the allocated result: the allocated
    // value is the combination exactly when the sign bit is clear, and its
    // negation when set.
    let one = fq_one();
    let yk0c = yk[0];
    let mut ylc = LinComb::of_term(ConstraintSystem::one(), yk0c);
    let y1 = bits[0].lc(&yk[1]);
    let y2 = bits[1].lc(&yk[2]);
    let y3 = precomp.lc(&yk[3]);
    ylc.extend_with(&y1);
    ylc.extend_with(&y2);
    ylc.extend_with(&y3);
    let mut a_lc = LinComb::empty();
    a_lc.extend_with(&ylc);
    a_lc.extend_with(&ylc);
    let b_lc = bits[2].lc(&one);
    let nk1 = fq_neg(&one);
    let mut c_lc = LinComb::empty();
    c_lc.extend_with(&ylc);
    c_lc.push_term(y.var, nk1);
    proof {
        let ni = cs.inputs@.len();
        let na = cs.aux@.len();
        assert(cs.wf());
        let yk0 = yk[0];
        let s0 = Seq::<crate::cs::Term>::empty().push(
            (crate::cs::Term { var: Var::Input(0), coeff: yk0 }),
        );
        assert(lc_in_bounds(s0, ni, na)) by {
            assert(s0[0].var == Var::Input(0));
        }
        assert(lc_in_bounds(ylc.terms@, ni, na)) by {
            lemma_lc_in_bounds_append(s0, y1.terms@, ni, na);
            lemma_lc_in_bounds_append(s0 + y1.terms@, y2.terms@, ni, na);
            lemma_lc_in_bounds_append(s0 + y1.terms@ + y2.terms@, y3.terms@, ni, na);
        }
        assert(lc_in_bounds(a_lc.terms@, ni, na)) by {
            assert(Seq::<crate::cs::Term>::empty() + ylc.terms@ =~= ylc.terms@);
            lemma_lc_in_bounds_append(ylc.terms@, ylc.terms@, ni, na);
        }
        assert(lc_in_bounds(c_lc.terms@, ni, na)) by {
            assert(Seq::<crate::cs::Term>::empty() + ylc.terms@ =~= ylc.terms@);
            assert(forall|i: int|
                0 <= i < c_lc.terms@.len() - 1 ==> (#[trigger] c_lc.terms@[i]) == ylc.terms@[i]);
            assert(c_lc.terms@.last().var == y.var);
        }
    }
    let ghost mid2 = *cs;
    let ghost ylc_terms = ylc.terms@;
    cs.enforce(a_lc, b_lc, c_lc);
    let y_num = Num::from_num(&y);
    proof {
        crate::num::lemma_num_wf_extend(y, mid2, *cs);
        assert(y.wf(*cs));
        assert(cs.wf());
        if bits[0].value_spec() is Some && bits[1].value_spec() is Some && bits[2].value_spec()
            is Some {
            let q = fq_q();
            let ins = cs.inputs@;
            let aux = cs.aux@;
            let cst = cs.constraints@.last();
            let b0v = bits[0].value_spec().unwrap();
            let b1v = bits[1].value_spec().unwrap();
            let b2v = bits[2].value_spec().unwrap();
            let pv = b0v && b1v;
            let cy = coords@[lookup2_index(b0v, b1v)].1.val();
            let vy = y.val();
            // The interpolation over the bits evaluates to the selected
            // entry's second coordinate.
            let s0 = Seq::<Term>::empty().push((Term { var: Var::Input(0), coeff: yk0c }));
            assert(ylc_terms == s0 + y1.terms@ + y2.terms@ + y3.terms@);
            crate::cs::lemma_lc_eval_append(s0 + y1.terms@ + y2.terms@, y3.terms@, ins, aux);
            crate::cs::lemma_lc_eval_append(s0 + y1.terms@, y2.terms@, ins, aux);
            crate::cs::lemma_lc_eval_append(s0, y1.terms@, ins, aux);
            crate::cs::lemma_lc_eval_push(
                Seq::<Term>::empty(),
                (Term { var: Var::Input(0), coeff: yk0c }),
                ins,
                aux,
            );
            let yk0v = yk@[0].val();
            let yk1v = yk@[1].val();
            let yk2v = yk@[2].val();
            let yk3v = yk@[3].val();
            assert(yk0v * 1 == yk0v) by (nonlinear_arith);
            assert(lc_eval(s0, ins, aux) == yk0v);
            let e1 = lc_eval(y1.terms@, ins, aux);
            let e2 = lc_eval(y2.terms@, ins, aux);
            let e3 = lc_eval(y3.terms@, ins, aux);
            assert(e1 % q == (yk1v * bit_int(b0v)) % q);
            assert(e2 % q == (yk2v * bit_int(b1v)) % q);
            assert(e3 % q == (yk3v * bit_int(pv)) % q);
            let eyl = lc_eval(ylc_terms, ins, aux);
            assert(eyl == yk0v + e1 + e2 + e3);
            let tt = yk0v + yk1v * bit_int(b0v) + yk2v * bit_int(b1v) + yk3v * bit_int(pv);
            assert(eyl % q == tt % q) by {
                crate::field::lemma_fq_val_bound(yk@[0]);
                vstd::arithmetic::div_mod::lemma_small_mod(yk0v as nat, q as nat);
                crate::field::lemma_add_congruent(yk0v, yk0v, e1, yk1v * bit_int(b0v));
                crate::field::lemma_add_congruent(
                    yk0v + e1,
                    yk0v + yk1v * bit_int(b0v),
                    e2,
                    yk2v * bit_int(b1v),
                );
                crate::field::lemma_add_congruent(
                    yk0v + e1 + e2,
                    yk0v + yk1v * bit_int(b0v) + yk2v * bit_int(b1v),
                    e3,
                    yk3v * bit_int(pv),
                );
            }
            let cyv = Seq::new(4, |i: int| coords@[i].1.val());
            assert(forall|i: int| 0 <= i < 4 ==> ys@[i] == coords@[i].1);
            assert(forall|i: int| 0 <= i < 4 ==> 0 <= #[trigger] cyv[i] < fq_q()) by {
                assert forall|i: int| 0 <= i < 4 implies 0 <= #[trigger] cyv[i] < fq_q() by {
                    crate::field::lemma_fq_val_bound(coords@[i].1);
                }
            }
            lemma_lookup2_selected(yk@, cyv, b0v, b1v, cy);
            assert(tt % q == cy);
            // The recorded constraint is satisfied by the conditionally
            // negated witness.
            assert(cst.a.terms@ == Seq::<Term>::empty() + ylc_terms + ylc_terms);
            assert(Seq::<Term>::empty() + ylc_terms =~= ylc_terms);
            crate::cs::lemma_lc_eval_append(ylc_terms, ylc_terms, ins, aux);
            let ea = lc_eval(cst.a.terms@, ins, aux);
            assert(ea == eyl + eyl);
            let eb = lc_eval(cst.b.terms@, ins, aux);
            assert(eb % q == (one.val() * bit_int(b2v)) % q);
            assert(1 * bit_int(b2v) == bit_int(b2v)) by (nonlinear_arith);
            assert(cst.c.terms@ == (Seq::<Term>::empty() + ylc_terms).push(
                (Term { var: y.var, coeff: nk1 }),
            ));
            crate::cs::lemma_lc_eval_push(
                ylc_terms,
                (Term { var: y.var, coeff: nk1 }),
                ins,
                aux,
            );
            let ec = lc_eval(cst.c.terms@, ins, aux);
            assert(ec == eyl + nk1.val() * vy);
            assert(nk1.val() == q - 1) by {
                crate::field::lemma_fneg_val(1);
            }
            crate::field::lemma_fq_val_bound(coords@[lookup2_index(b0v, b1v)].1);
            crate::field::lemma_fq_val_bound(y.value.unwrap());
            lemma_cond_neg_sat(ea, eb, ec, eyl, nk1.val(), vy, cy, b2v);
            assert(c_sat(cst, ins, aux));
            crate::cs::lemma_new_sat_trans(pre, mid, mid2);
            crate::cs::lemma_new_sat_trans(pre, mid2, *cs);
        }
        if x_num.value is Some && y_num.value is Some {
            let b0v = bits[0].value_spec().unwrap();
            let b1v = bits[1].value_spec().unwrap();
            let b2v = bits[2].value_spec().unwrap();
            let e = coords@[lookup2_index(b0v, b1v)];
            assert(x_num.val() == e.0.val());
            assert(y_num.val() == (if b2v {
                fneg(e.1.val())
            } else {
                e.1.val()
            }));
        }
    }
    (x_num, y_num)
}

} // verus!
