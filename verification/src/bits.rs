//! Bit decomposition of allocated field elements: little-endian unpacking
//! with booleanity, a packing constraint, and the strict range check that
//! pins the bits below the field modulus, as the canonical compressed
//! point encoding requires.

use vstd::prelude::*;

use crate::boolean::{bit_int, AllocatedBit, Boolean};
use crate::cs::{lc_in_bounds, ConstraintSystem, LinComb};
use crate::field::{fq_add, fq_neg, fq_one, le_val, Fq};
use crate::num::AllocatedNum;

verus! {

/// The integer a little-endian bit sequence denotes.
pub open spec fn bits_le_int(s: Seq<bool>) -> int
    decreases s.len(),
{
    if s.len() == 0 {
        0
    } else {
        bit_int(s[0]) + 2 * bits_le_int(s.drop_first())
    }
}

/// A bit sequence denotes a nonnegative integer.
pub proof fn lemma_bits_le_int_nonneg(s: Seq<bool>)
    ensures
        bits_le_int(s) >= 0,
    decreases s.len(),
{
    if s.len() > 0 {
        lemma_bits_le_int_nonneg(s.drop_first());
    }
}

/// Appending a bit adds its weight at the sequence's length.
pub proof fn lemma_bits_le_int_push(s: Seq<bool>, b: bool)
    ensures
        bits_le_int(s.push(b)) == bits_le_int(s) + bit_int(b) * vstd::arithmetic::power2::pow2(
            s.len(),
        ),
    decreases s.len(),
{
    reveal_with_fuel(bits_le_int, 3);
    vstd::arithmetic::power2::lemma_pow2_pos(s.len());
    if s.len() == 0 {
        assert(s.push(b).drop_first() =~= Seq::<bool>::empty());
        assert(s.push(b).len() == 1);
        assert(s.push(b)[0] == b);
        assert(bits_le_int(s.push(b)) == bit_int(b) + 2 * bits_le_int(Seq::<bool>::empty()));
        assert(bits_le_int(Seq::<bool>::empty()) == 0);
        assert(bits_le_int(s) == 0);
        assert(vstd::arithmetic::power2::pow2(0) == 1) by {
            vstd::arithmetic::power2::lemma2_to64();
        }
        assert(bit_int(b) * 1 == bit_int(b)) by (nonlinear_arith);
    } else {
        assert(s.push(b).drop_first() =~= s.drop_first().push(b));
        assert(s.push(b)[0] == s[0]);
        lemma_bits_le_int_push(s.drop_first(), b);
        let n: nat = (s.len() - 1) as nat;
        let p = vstd::arithmetic::power2::pow2(n);
        assert(vstd::arithmetic::power2::pow2(s.len()) == 2 * p) by {
            vstd::arithmetic::power2::lemma_pow2_unfold(s.len());
        }
        assert(bits_le_int(s.push(b)) == bit_int(s[0]) + 2 * (bits_le_int(s.drop_first())
            + bit_int(b) * p));
        assert(bit_int(s[0]) + 2 * (bits_le_int(s.drop_first()) + bit_int(b) * p) == (bit_int(s[0])
            + 2 * bits_le_int(s.drop_first())) + bit_int(b) * (2 * p)) by (nonlinear_arith);
        assert(bits_le_int(s) == bit_int(s[0]) + 2 * bits_le_int(s.drop_first()));
    }
}

/// The eight bits of one byte, little-endian.
pub open spec fn byte_bits(b: u8) -> Seq<bool> {
    seq![
        b & 1 == 1,
        (b >> 1) & 1 == 1,
        (b >> 2) & 1 == 1,
        (b >> 3) & 1 == 1,
        (b >> 4) & 1 == 1,
        (b >> 5) & 1 == 1,
        (b >> 6) & 1 == 1,
        (b >> 7) & 1 == 1,
    ]
}

/// A byte's bits in front of a tail contribute the byte's value, with the
/// tail shifted up by eight bits.
proof fn lemma_byte_bits_prepend(b: u8, t: Seq<bool>)
    ensures
        bits_le_int(byte_bits(b) + t) == b + 256 * bits_le_int(t),
{
    reveal_with_fuel(bits_le_int, 10);
    let s = byte_bits(b) + t;
    let s1 = s.drop_first();
    let s2 = s1.drop_first();
    let s3 = s2.drop_first();
    let s4 = s3.drop_first();
    let s5 = s4.drop_first();
    let s6 = s5.drop_first();
    let s7 = s6.drop_first();
    let s8 = s7.drop_first();
    assert(s8 =~= t);
    assert(s7 =~= byte_bits(b).subrange(7, 8) + t);
    assert(bits_le_int(s7) == bit_int((b >> 7) & 1 == 1) + 2 * bits_le_int(t)) by {
        assert(s7[0] == ((b >> 7) & 1 == 1));
        assert(s7.drop_first() =~= t);
    }
    assert(s6[0] == ((b >> 6) & 1 == 1));
    assert(s5[0] == ((b >> 5) & 1 == 1));
    assert(s4[0] == ((b >> 4) & 1 == 1));
    assert(s3[0] == ((b >> 3) & 1 == 1));
    assert(s2[0] == ((b >> 2) & 1 == 1));
    assert(s1[0] == ((b >> 1) & 1 == 1));
    assert(s[0] == (b & 1 == 1));
    assert(s.len() == 8 + t.len());
    assert(bits_le_int(s6) == bit_int((b >> 6) & 1 == 1) + 2 * bits_le_int(s7));
    assert(bits_le_int(s5) == bit_int((b >> 5) & 1 == 1) + 2 * bits_le_int(s6));
    assert(bits_le_int(s4) == bit_int((b >> 4) & 1 == 1) + 2 * bits_le_int(s5));
    assert(bits_le_int(s3) == bit_int((b >> 3) & 1 == 1) + 2 * bits_le_int(s4));
    assert(bits_le_int(s2) == bit_int((b >> 2) & 1 == 1) + 2 * bits_le_int(s3));
    assert(bits_le_int(s1) == bit_int((b >> 1) & 1 == 1) + 2 * bits_le_int(s2));
    assert(bits_le_int(s) == bit_int(b & 1 == 1) + 2 * bits_le_int(s1));
    assert(b == (b & 1) + 2 * ((b >> 1) & 1) + 4 * ((b >> 2) & 1) + 8 * ((b >> 3) & 1) + 16 * ((b
        >> 4) & 1) + 32 * ((b >> 5) & 1) + 64 * ((b >> 6) & 1) + 128 * ((b >> 7) & 1))
        by (bit_vector);
    assert((b & 1) < 2 && ((b >> 1) & 1) < 2 && ((b >> 2) & 1) < 2 && ((b >> 3) & 1) < 2 && ((b
        >> 4) & 1) < 2 && ((b >> 5) & 1) < 2 && ((b >> 6) & 1) < 2 && ((b >> 7) & 1) < 2)
        by (bit_vector);
}

/// The little-endian bits of the bytes from position `k` on.
fn bits_of_suffix(bytes: &[u8; 32], k: usize) -> (r: Vec<bool>)
    requires
        k <= 32,
    ensures
        r@.len() == 8 * (32 - k),
        bits_le_int(r@) == le_val(bytes@.subrange(k as int, 32)),
    decreases 32 - k,
{
    if k == 32 {
        proof {
            assert(bytes@.subrange(32, 32) =~= Seq::<u8>::empty());
        }
        Vec::new()
    } else {
        let b = bytes[k];
        let mut r: Vec<bool> = Vec::new();
        r.push(b & 1 == 1);
        r.push((b >> 1) & 1 == 1);
        r.push((b >> 2) & 1 == 1);
        r.push((b >> 3) & 1 == 1);
        r.push((b >> 4) & 1 == 1);
        r.push((b >> 5) & 1 == 1);
        r.push((b >> 6) & 1 == 1);
        r.push((b >> 7) & 1 == 1);
        let rest = bits_of_suffix(bytes, k + 1);
        let ghost head = r@;
        let mut i: usize = 0;
        while i < rest.len()
            invariant
                0 <= i <= rest@.len(),
                r@ == head + rest@.subrange(0, i as int),
            decreases rest@.len() - i,
        {
            let x = rest[i];
            r.push(x);
            proof {
                assert(head + rest@.subrange(0, i as int + 1) =~= (head + rest@.subrange(
                    0,
                    i as int,
                )).push(rest@[i as int]));
            }
            i = i + 1;
        }
        proof {
            assert(rest@.subrange(0, rest@.len() as int) =~= rest@);
            assert(head =~= byte_bits(b));
            lemma_byte_bits_prepend(b, rest@);
            let s = bytes@.subrange(k as int, 32);
            assert(s[0] == b);
            assert(s.drop_first() =~= bytes@.subrange(k as int + 1, 32));
        }
        r
    }
}

/// The modulus lies below two to the 255th power.
proof fn lemma_modulus_below_pow2_255()
    ensures
        crate::field::fq_q() < vstd::arithmetic::power2::pow2(255),
{
    vstd::arithmetic::power2::lemma2_to64();
    vstd::arithmetic::power2::lemma_pow2_adds(64, 64);
    vstd::arithmetic::power2::lemma_pow2_adds(128, 64);
    vstd::arithmetic::power2::lemma_pow2_adds(192, 63);
    vstd::arithmetic::power2::lemma2_to64_rest();
    assert(vstd::arithmetic::power2::pow2(64) == 0x10000000000000000);
    assert(vstd::arithmetic::power2::pow2(63) == 0x8000000000000000);
    assert(vstd::arithmetic::power2::pow2(128) == 0x10000000000000000
        * 0x10000000000000000);
    assert(vstd::arithmetic::power2::pow2(192) == vstd::arithmetic::power2::pow2(128)
        * 0x10000000000000000);
    assert(vstd::arithmetic::power2::pow2(255) == vstd::arithmetic::power2::pow2(192)
        * 0x8000000000000000);
}

/// The low bit of the denoted integer is the first bit.
proof fn lemma_bits_le_int_low_bit(s: Seq<bool>)
    requires
        s.len() > 0,
    ensures
        bits_le_int(s) % 2 == bit_int(s[0]),
{
    lemma_bits_le_int_nonneg(s.drop_first());
    vstd::arithmetic::div_mod::lemma_mod_multiples_vanish(
        bits_le_int(s.drop_first()),
        bit_int(s[0]),
        2,
    );
    vstd::arithmetic::div_mod::lemma_small_mod(bit_int(s[0]) as nat, 2nat);
    assert(2 * bits_le_int(s.drop_first()) + bit_int(s[0]) == bits_le_int(s));
}

/// Chains a run of allocated bits by conjunction gates.
fn kary_and(cs: &mut ConstraintSystem, v: &Vec<AllocatedBit>) -> (r: AllocatedBit)
    requires
        old(cs).wf(),
        v@.len() >= 1,
        crate::boolean::abits_wf(v@, *old(cs)),
    ensures
        final(cs).wf(),
        final(cs).extends(*old(cs)),
        final(cs).inputs@ == old(cs).inputs@,
        r.wf(*final(cs)),
{
    let ghost pre = *old(cs);
    let mut cur = v[0];
    let mut i: usize = 1;
    while i < v.len()
        invariant
            pre == *old(cs),
            1 <= i <= v@.len(),
            cs.wf(),
            cs.extends(pre),
            cs.inputs@ == pre.inputs@,
            crate::boolean::abits_wf(v@, *cs),
            cur.wf(*cs),
        decreases v@.len() - i,
    {
        let ghost cs0 = *cs;
        let nc = AllocatedBit::and(cs, &cur, &v[i]);
        proof {
            crate::boolean::lemma_abits_wf_extend(v@, cs0, *cs);
            crate::cs::lemma_extends_trans(pre, cs0, *cs);
        }
        cur = nc;
        i = i + 1;
    }
    cur
}

impl AllocatedNum {
    /// Decomposes this number into 255 little-endian boolean bits, with
    /// booleanity for every bit, a packing constraint tying the bits to the
    /// number, and run-of-ones checks against the modulus so that only the
    /// canonical representation below the modulus satisfies the system.
    /// With a witness present, the bits carry exactly the value's binary
    /// expansion.
    #[verifier::rlimit(100)]
    pub fn to_bits_le_strict(&self, cs: &mut ConstraintSystem) -> (r: Vec<Boolean>)
        requires
            old(cs).wf(),
            self.wf(*old(cs)),
        ensures
            final(cs).wf(),
            final(cs).extends(*old(cs)),
            final(cs).inputs@ == old(cs).inputs@,
            r@.len() == 255,
            crate::boolean::bits_wf(r@, *final(cs)),
            self.value is Some ==> (crate::boolean::bits_all_known(r@) && bits_le_int(
                crate::boolean::bits_values(r@),
            ) == self.val()),
            self.value is None ==> (forall|i: int|
                0 <= i < 255 ==> (#[trigger] r@[i]).value_spec() is None),
    {
        let ghost pre = *old(cs);
        // The value's 256 little-endian bits, when present.
        let vbits: Option<Vec<bool>> = match &self.value {
            Some(f) => {
                let fb = f.to_bytes();
                let bs = bits_of_suffix(&fb, 0);
                proof {
                    assert(fb@.subrange(0, 32) =~= fb@);
                }
                Some(bs)
            },
            None => None,
        };
        let ghost gvb: Seq<bool> = if vbits is Some {
            vbits.unwrap()@
        } else {
            Seq::<bool>::empty()
        };
        // The modulus-minus-one pattern, scanned from its top bit down.
        let qm1: [u8; 32] = [
            0, 0, 0, 0, 255, 255, 255, 255, 254, 91, 254, 255, 2, 164, 189, 83, 5, 216, 161, 9, 8,
            216, 57, 51, 72, 125, 157, 41, 83, 167, 237, 115,
        ];
        let mut result: Vec<AllocatedBit> = Vec::new();
        let mut current_run: Vec<AllocatedBit> = Vec::new();
        let mut last_run: Option<AllocatedBit> = None;
        let mut pos: usize = 255;
        while pos > 0
            invariant
                pre == *old(cs),
                pos <= 255,
                qm1@[31] == 115,
                cs.wf(),
                cs.extends(pre),
                cs.inputs@ == pre.inputs@,
                self.wf(pre),
                result@.len() == 255 - pos,
                crate::boolean::abits_wf(result@, *cs),
                crate::boolean::abits_wf(current_run@, *cs),
                (last_run matches Some(b) ==> b.wf(*cs)),
                pos <= 254 ==> (current_run@.len() > 0 || last_run is Some),
                self.value is Some ==> (vbits is Some && gvb == vbits.unwrap()@ && gvb.len() == 256
                    && bits_le_int(gvb) == self.val()),
                self.value is None ==> vbits is None,
                self.value is Some ==> (forall|k: int|
                    0 <= k < result@.len() ==> (#[trigger] result@[k]).value == Some(
                        gvb[254 - k],
                    )),
                self.value is None ==> (forall|k: int|
                    0 <= k < result@.len() ==> (#[trigger] result@[k]).value is None),
            decreases pos,
        {
            pos = pos - 1;
            let mb = ((qm1[pos / 8] >> ((pos % 8) as u8)) & 1) == 1;
            let abit_val: Option<bool> = match &vbits {
                Some(vv) => Some(vv[pos]),
                None => None,
            };
            let ghost cs0 = *cs;
            if mb {
                // A run of ones in the modulus: allocate the bit with plain
                // booleanity.
                let ab = AllocatedBit::allocate(cs, abit_val);
                current_run.push(ab);
                result.push(ab);
                proof {
                    crate::boolean::lemma_abits_wf_extend(result@.drop_last(), cs0, *cs);
                    crate::boolean::lemma_abits_wf_extend(current_run@.drop_last(), cs0, *cs);
                    if last_run is Some {
                        crate::boolean::lemma_bit_wf_extend(last_run.unwrap(), cs0, *cs);
                    }
                    crate::cs::lemma_extends_trans(pre, cs0, *cs);
                    assert(crate::boolean::abits_wf(result@, *cs)) by {
                        assert forall|k: int|
                            0 <= k < result@.len() implies (#[trigger] result@[k]).wf(*cs) by {
                            if k < result@.len() - 1 {
                                assert(result@[k] == result@.drop_last()[k]);
                            }
                        }
                    }
                    assert(crate::boolean::abits_wf(current_run@, *cs)) by {
                        assert forall|k: int|
                            0 <= k < current_run@.len() implies (#[trigger] current_run@[k]).wf(
                            *cs,
                        ) by {
                            if k < current_run@.len() - 1 {
                                assert(current_run@[k] == current_run@.drop_last()[k]);
                            }
                        }
                    }
                }
            } else {
                proof {
                    if pos == 254 {
                        assert(((115u8 >> 6u8) & 1u8) == 1u8) by (bit_vector);
                        assert(false);
                    }
                }
                if current_run.len() > 0 {
                    // The run ends here: fold it, together with the previous
                    // folded run, into one conjunction.
                    match &last_run {
                        Some(lr) => {
                            current_run.push(*lr);
                        },
                        None => {},
                    }
                    let nr = kary_and(cs, &current_run);
                    last_run = Some(nr);
                    current_run = Vec::new();
                    proof {
                        crate::boolean::lemma_abits_wf_extend(result@, cs0, *cs);
                        crate::cs::lemma_extends_trans(pre, cs0, *cs);
                    }
                }
                let ghost cs1 = *cs;
                let lr = match &last_run {
                    Some(l) => *l,
                    None => {
                        proof {
                            assert(false);
                        }
                        AllocatedBit { var: crate::cs::Var::Aux(0), value: None }
                    },
                };
                // Outside a run, the bit is additionally forced to zero
                // whenever every more significant run was all ones.
                let ab = AllocatedBit::alloc_conditionally(cs, abit_val, &lr);
                result.push(ab);
                proof {
                    crate::boolean::lemma_abits_wf_extend(result@.drop_last(), cs1, *cs);
                    crate::boolean::lemma_bit_wf_extend(lr, cs1, *cs);
                    crate::cs::lemma_extends_trans(pre, cs1, *cs);
                    assert(crate::boolean::abits_wf(result@, *cs)) by {
                        assert forall|k: int|
                            0 <= k < result@.len() implies (#[trigger] result@[k]).wf(*cs) by {
                            if k < result@.len() - 1 {
                                assert(result@[k] == result@.drop_last()[k]);
                            }
                        }
                    }
                }
            }
        }
        // Pack the bits, in little-endian order, against the number.
        let one = fq_one();
        let neg_one = fq_neg(&one);
        let mut lc = LinComb::empty();
        let mut coeff = one;
        let mut out: Vec<Boolean> = Vec::new();
        let mut idx: usize = 0;
        while idx < 255
            invariant
                0 <= idx <= 255,
                result@.len() == 255,
                cs.wf(),
                crate::boolean::abits_wf(result@, *cs),
                self.wf(*cs),
                out@.len() == idx,
                forall|j: int| 0 <= j < idx ==> out@[j] == Boolean::Is(result@[254 - j]),
                lc_in_bounds(lc.terms@, cs.inputs@.len(), cs.aux@.len()),
            decreases 255 - idx,
        {
            let bit = result[254 - idx];
            out.push(Boolean::Is(bit));
            lc.push_term(bit.var, coeff);
            coeff = fq_add(&coeff, &coeff);
            proof {
                assert(lc.terms@.last().var == bit.var);
                assert(forall|j: int|
                    0 <= j < lc.terms@.len() - 1 ==> (#[trigger] lc.terms@[j]) == lc.terms@.drop_last()[j]);
            }
            idx = idx + 1;
        }
        lc.push_term(self.var, neg_one);
        proof {
            assert(lc.terms@.last().var == self.var);
            assert(forall|j: int|
                0 <= j < lc.terms@.len() - 1 ==> (#[trigger] lc.terms@[j]) == lc.terms@.drop_last()[j]);
        }
        let a_lc = LinComb::empty();
        let b_lc = LinComb::empty();
        cs.enforce(a_lc, b_lc, lc);
        proof {
            assert(crate::boolean::bits_wf(out@, *cs)) by {
                assert forall|i: int| 0 <= i < out@.len() implies (#[trigger] out@[i]).wf(*cs) by {
                    assert(out@[i] == Boolean::Is(result@[254 - i]));
                }
            }
            if self.value is Some {
                let vals = crate::boolean::bits_values(out@);
                assert(vals =~= gvb.subrange(0, 255)) by {
                    assert(forall|i: int|
                        0 <= i < 255 ==> vals[i] == (#[trigger] out@[i]).value_spec().unwrap());
                }
                assert(gvb =~= gvb.subrange(0, 255).push(gvb[255]));
                lemma_bits_le_int_push(gvb.subrange(0, 255), gvb[255]);
                lemma_bits_le_int_nonneg(gvb.subrange(0, 255));
                lemma_modulus_below_pow2_255();
                crate::field::lemma_fq_val_bound(self.value.unwrap());
                if gvb[255] {
                    assert(bits_le_int(gvb) >= vstd::arithmetic::power2::pow2(255));
                    assert(false);
                }
                assert(bit_int(gvb[255]) * vstd::arithmetic::power2::pow2(255) == 0)
                    by (nonlinear_arith)
                    requires
                        bit_int(gvb[255]) == 0,
                ;
            }
        }
        out
    }
}

impl crate::ecc::EdwardsPoint {
    /// Serializes the point to its canonical compressed encoding as bits:
    /// the 255 strictly unpacked little-endian bits of `v`, then the low
    /// bit of `u`.
    pub fn repr(&self, cs: &mut ConstraintSystem) -> (r: Vec<Boolean>)
        requires
            old(cs).wf(),
            self.wf(*old(cs)),
        ensures
            final(cs).wf(),
            final(cs).extends(*old(cs)),
            final(cs).inputs@ == old(cs).inputs@,
            r@.len() == 256,
            crate::boolean::bits_wf(r@, *final(cs)),
            self.has_value() ==> (crate::boolean::bits_all_known(r@) && bits_le_int(
                crate::boolean::bits_values(r@).subrange(0, 255),
            ) == self.v.val() && (crate::boolean::bits_values(r@)[255] <==> self.u.val() % 2 == 1)),
    {
        let ghost pre = *old(cs);
        let u_bits = self.u.to_bits_le_strict(cs);
        let ghost cs1 = *cs;
        proof {
            crate::num::lemma_num_wf_extend(self.v, pre, cs1);
        }
        let v_bits = self.v.to_bits_le_strict(cs);
        proof {
            crate::boolean::lemma_bits_wf_extend(u_bits@, cs1, *cs);
        }
        let mut tmp = v_bits;
        let low_u = u_bits[0];
        tmp.push(low_u);
        proof {
            if self.has_value() {
                lemma_bits_le_int_low_bit(crate::boolean::bits_values(u_bits@));
                vstd::arithmetic::div_mod::lemma_mod_bound(self.u.val(), 2);
                assert(crate::boolean::bits_values(tmp@).subrange(0, 255)
                    =~= crate::boolean::bits_values(v_bits@)) by {
                    assert(forall|i: int|
                        0 <= i < 255 ==> crate::boolean::bits_values(tmp@)[i] == (
                        #[trigger] tmp@[i]).value_spec().unwrap());
                    assert(forall|i: int| 0 <= i < 255 ==> tmp@[i] == v_bits@[i]);
                    assert(forall|i: int|
                        0 <= i < 255 ==> crate::boolean::bits_values(v_bits@)[i] == (
                        #[trigger] v_bits@[i]).value_spec().unwrap());
                }
                assert(crate::boolean::bits_values(tmp@)[255] == low_u.value_spec().unwrap());
                assert(crate::boolean::bits_values(u_bits@)[0] == (
                #[trigger] u_bits@[0]).value_spec().unwrap());
            }
            assert(crate::boolean::bits_wf(tmp@, *cs)) by {
                assert forall|i: int| 0 <= i < tmp@.len() implies (#[trigger] tmp@[i]).wf(*cs) by {
                    if i < 255 {
                        assert(tmp@[i] == v_bits@[i]);
                    } else {
                        assert(tmp@[i] == u_bits@[0]);
                    }
                }
            }
        }
        tmp
    }
}

} // verus!
