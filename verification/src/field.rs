//! Elements of the BLS12-381 scalar field, the base field of Jubjub.
//!
//! An `Fq` holds the canonical little-endian encoding of a field element;
//! its mathematical value is the encoded integer, always below the modulus.
//! Arithmetic is carried out by `bls12_381::Scalar` behind trusted wrappers
//! whose contracts state the result as modular arithmetic on those values.

use vstd::prelude::*;

verus! {

/// The modulus of the BLS12-381 scalar field.
pub open spec fn fq_q() -> int {
    0x73eda753299d7d483339d80809a1d80553bda402fffe5bfeffffffff00000001int
}

/// The integer encoded by a little-endian byte sequence.
pub open spec fn le_val(s: Seq<u8>) -> int
    decreases s.len(),
{
    if s.len() == 0 {
        0
    } else {
        s[0] + 256 * le_val(s.drop_first())
    }
}

/// A field element, stored as its canonical little-endian encoding.
#[derive(Clone, Copy, Debug, PartialEq, Eq)]
pub struct Fq {
    bytes: [u8; 32],
}

impl Fq {
    /// The stored encoding denotes an integer below the modulus.
    #[verifier::type_invariant]
    pub closed spec fn canonical(self) -> bool {
        0 <= le_val(self.bytes@) < fq_q()
    }

    /// The integer value of this element.
    pub closed spec fn val(self) -> int {
        le_val(self.bytes@) % fq_q()
    }

    /// The canonical encoding of this element.
    pub fn to_bytes(&self) -> (r: [u8; 32])
        ensures
            le_val(r@) == self.val(),
    {
        proof {
            use_type_invariant(self);
            vstd::arithmetic::div_mod::lemma_small_mod(le_val(self.bytes@) as nat, fq_q() as nat);
        }
        self.bytes
    }
}

/// Every field value lies below the modulus.
pub proof fn lemma_fq_val_bound(a: Fq)
    ensures
        0 <= a.val() < fq_q(),
{
    vstd::arithmetic::div_mod::lemma_mod_bound(le_val(a.bytes@), fq_q());
}

proof fn lemma_le_val_injective(s: Seq<u8>, t: Seq<u8>)
    requires
        s.len() == t.len(),
        le_val(s) == le_val(t),
    ensures
        s =~= t,
    decreases s.len(),
{
    if s.len() > 0 {
        assert(0 <= s[0] < 256 && 0 <= t[0] < 256);
        assert(s[0] + 256 * le_val(s.drop_first()) == t[0] + 256 * le_val(t.drop_first()));
        lemma_le_val_nonneg(s.drop_first());
        lemma_le_val_nonneg(t.drop_first());
        assert(s[0] == t[0] && le_val(s.drop_first()) == le_val(t.drop_first())) by (nonlinear_arith)
            requires
                0 <= s[0] < 256,
                0 <= t[0] < 256,
                le_val(s.drop_first()) >= 0,
                le_val(t.drop_first()) >= 0,
                s[0] + 256 * le_val(s.drop_first()) == t[0] + 256 * le_val(t.drop_first()),
        ;
        lemma_le_val_injective(s.drop_first(), t.drop_first());
        assert(forall|i: int| 0 < i < s.len() ==> s[i] == s.drop_first()[i - 1]);
    }
}

pub proof fn lemma_le_val_nonneg(s: Seq<u8>)
    ensures
        0 <= le_val(s),
    decreases s.len(),
{
    if s.len() > 0 {
        lemma_le_val_nonneg(s.drop_first());
    }
}

/// Equal values have equal canonical encodings.
pub proof fn lemma_fq_val_injective(a: Fq, b: Fq)
    requires
        a.canonical(),
        b.canonical(),
        a.val() == b.val(),
    ensures
        a == b,
{
    vstd::arithmetic::div_mod::lemma_small_mod(le_val(a.bytes@) as nat, fq_q() as nat);
    vstd::arithmetic::div_mod::lemma_small_mod(le_val(b.bytes@) as nat, fq_q() as nat);
    lemma_le_val_injective(a.bytes@, b.bytes@);
    assert(a.bytes@ =~= b.bytes@);
    assert(a.bytes =~= b.bytes);
}

/// Whether two elements are equal.
pub fn fq_eq(a: &Fq, b: &Fq) -> (r: bool)
    ensures
        r <==> a.val() == b.val(),
{
    proof {
        use_type_invariant(a);
        use_type_invariant(b);
    }
    let mut i: usize = 0;
    while i < 32
        invariant
            0 <= i <= 32,
            a.canonical(),
            b.canonical(),
            forall|j: int| 0 <= j < i ==> a.bytes@[j] == b.bytes@[j],
        decreases 32 - i,
    {
        if a.bytes[i] != b.bytes[i] {
            proof {
                if a.val() == b.val() {
                    lemma_fq_val_injective(*a, *b);
                }
            }
            return false;
        }
        i = i + 1;
    }
    proof {
        assert(a.bytes@ =~= b.bytes@);
    }
    true
}

/// Whether this element is zero.
pub fn fq_is_zero(a: &Fq) -> (r: bool)
    ensures
        r <==> a.val() == 0,
{
    fq_eq(a, &fq_zero())
}

proof fn lemma_le_val_zero_prefix(s: Seq<u8>)
    requires
        forall|i: int| 0 <= i < s.len() ==> s[i] == 0,
    ensures
        le_val(s) == 0,
    decreases s.len(),
{
    if s.len() > 0 {
        lemma_le_val_zero_prefix(s.drop_first());
    }
}

/// The zero element.
pub fn fq_zero() -> (r: Fq)
    ensures
        r.val() == 0,
{
    let bytes: [u8; 32] = [0; 32];
    proof {
        lemma_le_val_zero_prefix(bytes@);
        vstd::arithmetic::div_mod::lemma_small_mod(0nat, fq_q() as nat);
    }
    Fq { bytes }
}

/// The unit element.
pub fn fq_one() -> (r: Fq)
    ensures
        r.val() == 1,
{
    let bytes: [u8; 32] = [
        1, 0, 0, 0, 0, 0, 0, 0, 0, 0, 0, 0, 0, 0, 0, 0, 0, 0, 0, 0, 0, 0, 0, 0, 0, 0, 0, 0, 0, 0,
        0, 0,
    ];
    proof {
        reveal_with_fuel(le_val, 33);
        vstd::arithmetic::div_mod::lemma_small_mod(1nat, fq_q() as nat);
    }
    Fq { bytes }
}

/// Builds the element encoded by canonical little-endian bytes.
pub fn fq_from_canonical_bytes(bytes: [u8; 32]) -> (r: Fq)
    requires
        le_val(bytes@) < fq_q(),
    ensures
        r.val() == le_val(bytes@),
{
    proof {
        lemma_le_val_nonneg(bytes@);
        vstd::arithmetic::div_mod::lemma_small_mod(le_val(bytes@) as nat, fq_q() as nat);
    }
    Fq { bytes }
}

/// Addition in the field, on integer values.
pub open spec fn fadd(a: int, b: int) -> int {
    (a + b) % fq_q()
}

/// Subtraction in the field, on integer values.
pub open spec fn fsub(a: int, b: int) -> int {
    (a - b) % fq_q()
}

/// Multiplication in the field, on integer values.
pub open spec fn fmul(a: int, b: int) -> int {
    (a * b) % fq_q()
}

/// Negation in the field, on integer values.
pub open spec fn fneg(a: int) -> int {
    (0 - a) % fq_q()
}

/// The multiplicative inverse of a nonzero field value; arbitrary for values
/// with no inverse.
pub open spec fn finv(a: int) -> int {
    choose|x: int| 0 <= x < fq_q() && #[trigger] ((a * x) % fq_q()) == 1
}

/// Division in the field, on integer values.
pub open spec fn fdiv(n: int, d: int) -> int {
    (n * finv(d)) % fq_q()
}

/// An inverse of a field value is unique, so any witnessed inverse is
/// `finv` of it.
pub proof fn lemma_inv_is_finv(a: int, x: int)
    requires
        0 <= x < fq_q(),
        (a * x) % fq_q() == 1,
    ensures
        finv(a) == x,
        (a * finv(a)) % fq_q() == 1,
        0 <= finv(a) < fq_q(),
{
    let q = fq_q();
    assert(exists|z: int| 0 <= z < q && #[trigger] ((a * z) % q) == 1) by {
        assert(0 <= x < q && (a * x) % q == 1);
    }
    let y = finv(a);
    assert(0 <= y < q && (a * y) % q == 1);
    assert(x == y) by {
        vstd::arithmetic::div_mod::lemma_small_mod(x as nat, q as nat);
        vstd::arithmetic::div_mod::lemma_small_mod(y as nat, q as nat);
        assert((x * (a * y)) % q == x % q) by {
            vstd::arithmetic::div_mod::lemma_mul_mod_noop_right(x, a * y, q);
            assert(x * 1 == x) by (nonlinear_arith);
            assert((x * ((a * y) % q)) % q == (x * 1) % q);
        }
        assert((y * (a * x)) % q == y % q) by {
            vstd::arithmetic::div_mod::lemma_mul_mod_noop_right(y, a * x, q);
            assert(y * 1 == y) by (nonlinear_arith);
            assert((y * ((a * x) % q)) % q == (y * 1) % q);
        }
        assert(x * (a * y) == y * (a * x)) by (nonlinear_arith);
    }
}

/// Two integers agree modulo the field modulus exactly when their difference
/// vanishes modulo it.
pub proof fn lemma_mod_eq_iff_diff_zero(x: int, y: int)
    ensures
        (x % fq_q() == y % fq_q()) <==> ((x - y) % fq_q() == 0),
{
    let q = fq_q();
    vstd::arithmetic::div_mod::lemma_sub_mod_noop(x, y, q);
    if (x - y) % q == 0 {
        assert(((x % q) - (y % q)) % q == 0);
        vstd::arithmetic::div_mod::lemma_mod_bound(x, q);
        vstd::arithmetic::div_mod::lemma_mod_bound(y, q);
        let dd = (x % q) - (y % q);
        assert(-q < dd < q);
        if dd >= 0 {
            vstd::arithmetic::div_mod::lemma_small_mod(dd as nat, q as nat);
        } else {
            vstd::arithmetic::div_mod::lemma_mod_bound(dd, q);
            assert(dd % q == dd + q) by {
                vstd::arithmetic::div_mod::lemma_mod_add_multiples_vanish(dd, q);
                vstd::arithmetic::div_mod::lemma_small_mod((dd + q) as nat, q as nat);
            }
        }
    } else {
        if x % q == y % q {
            assert(((x % q) - (y % q)) % q == 0) by {
                vstd::arithmetic::div_mod::lemma_small_mod(0nat, q as nat);
            }
        }
    }
}

/// Reducing the left addend modulo the field modulus does not change a sum's
/// residue.
pub proof fn lemma_modl_add(x: int, y: int)
    ensures
        ((x % fq_q()) + y) % fq_q() == (x + y) % fq_q(),
{
    vstd::arithmetic::div_mod::lemma_add_mod_noop_right(y, x, fq_q());
}

/// Reducing the right addend modulo the field modulus does not change a
/// sum's residue.
pub proof fn lemma_modr_add(x: int, y: int)
    ensures
        (x + (y % fq_q())) % fq_q() == (x + y) % fq_q(),
{
    vstd::arithmetic::div_mod::lemma_add_mod_noop_right(x, y, fq_q());
}

/// Reducing the subtrahend modulo the field modulus does not change a
/// difference's residue.
pub proof fn lemma_modr_sub(x: int, y: int)
    ensures
        (x - (y % fq_q())) % fq_q() == (x - y) % fq_q(),
{
    vstd::arithmetic::div_mod::lemma_sub_mod_noop_right(x, y, fq_q());
}

/// Reducing the minuend modulo the field modulus does not change a
/// difference's residue.
pub proof fn lemma_modl_sub(x: int, y: int)
    ensures
        ((x % fq_q()) - y) % fq_q() == (x - y) % fq_q(),
{
    let q = fq_q();
    vstd::arithmetic::div_mod::lemma_sub_mod_noop(x % q, y, q);
    vstd::arithmetic::div_mod::lemma_mod_twice(x, q);
    vstd::arithmetic::div_mod::lemma_sub_mod_noop(x, y, q);
}

/// The defining equation of a witnessed division: multiplying the reduced
/// quotient back by the raw denominator recovers the raw numerator, modulo
/// the field modulus.
pub proof fn lemma_div_constraint(den_raw: int, n_raw: int, den: int, inv: int, res: int)
    requires
        den == den_raw % fq_q(),
        (den * inv) % fq_q() == 1,
        res == ((n_raw % fq_q()) * inv) % fq_q(),
    ensures
        (den_raw * res - n_raw) % fq_q() == 0,
{
    let q = fq_q();
    let n = n_raw % q;
    assert((den_raw * res) % q == (den_raw * (n * inv)) % q) by {
        vstd::arithmetic::div_mod::lemma_mul_mod_noop_right(den_raw, n * inv, q);
    }
    assert(den_raw * (n * inv) == (den_raw * inv) * n) by (nonlinear_arith);
    assert(((den_raw * inv) * n) % q == (((den_raw * inv) % q) * n) % q) by {
        vstd::arithmetic::div_mod::lemma_mul_mod_noop_left(den_raw * inv, n, q);
    }
    assert((den_raw * inv) % q == 1) by {
        vstd::arithmetic::div_mod::lemma_mul_mod_noop_left(den_raw, inv, q);
    }
    assert((1 * n) % q == n % q);
    vstd::arithmetic::div_mod::lemma_mod_twice(n_raw, q);
    lemma_mod_eq_iff_diff_zero(den_raw * res, n_raw);
}

/// The defining equation of a witnessed product of two reduced values.
pub proof fn lemma_prod_mod_zero(x: int, y: int, z: int)
    requires
        z == ((x % fq_q()) * (y % fq_q())) % fq_q(),
    ensures
        (x * y - z) % fq_q() == 0,
{
    let q = fq_q();
    vstd::arithmetic::div_mod::lemma_mul_mod_noop_general(x, y, q);
    vstd::arithmetic::div_mod::lemma_mod_twice(x * y, q);
    lemma_mod_eq_iff_diff_zero(x * y, z);
}

/// The defining equation of a witnessed product scaled by a constant:
/// `(dd * x) * y` agrees with the reduced value `((x y) mod q) dd mod q`.
pub proof fn lemma_scaled_prod_zero(dd: int, x: int, y: int, z: int)
    requires
        z == (((x * y) % fq_q()) * dd) % fq_q(),
    ensures
        ((dd * x) * y - z) % fq_q() == 0,
{
    let q = fq_q();
    assert((dd * x) * y == dd * (x * y)) by (nonlinear_arith);
    vstd::arithmetic::div_mod::lemma_mul_mod_noop_right(dd, x * y, q);
    assert(dd * ((x * y) % q) == ((x * y) % q) * dd) by (nonlinear_arith);
    vstd::arithmetic::div_mod::lemma_mod_twice(dd * (x * y), q);
    lemma_mod_eq_iff_diff_zero(dd * (x * y), z);
}

/// Sum of optional field elements, absent when either operand is.
pub fn opt_add(a: &Option<Fq>, b: &Option<Fq>) -> (r: Option<Fq>)
    ensures
        r is Some <==> (a is Some && b is Some),
        r is Some ==> r.unwrap().val() == fadd(a.unwrap().val(), b.unwrap().val()),
{
    match (a, b) {
        (Some(x), Some(y)) => Some(fq_add(x, y)),
        _ => None,
    }
}

/// Product of optional field elements, absent when either operand is.
pub fn opt_mul(a: &Option<Fq>, b: &Option<Fq>) -> (r: Option<Fq>)
    ensures
        r is Some <==> (a is Some && b is Some),
        r is Some ==> r.unwrap().val() == fmul(a.unwrap().val(), b.unwrap().val()),
{
    match (a, b) {
        (Some(x), Some(y)) => Some(fq_mul(x, y)),
        _ => None,
    }
}

/// The residue of a negated value in canonical range.
pub proof fn lemma_fneg_val(x: int)
    requires
        0 <= x < fq_q(),
    ensures
        (0 - x) % fq_q() == (if x == 0 {
            0int
        } else {
            fq_q() - x
        }),
{
    let q = fq_q();
    if x == 0 {
        vstd::arithmetic::div_mod::lemma_small_mod(0nat, q as nat);
    } else {
        vstd::arithmetic::div_mod::lemma_mod_add_multiples_vanish(0 - x, q);
        vstd::arithmetic::div_mod::lemma_small_mod((q - x) as nat, q as nat);
    }
}

/// Sums of congruent addends are congruent.
pub proof fn lemma_add_congruent(x1: int, y1: int, x2: int, y2: int)
    requires
        x1 % fq_q() == y1 % fq_q(),
        x2 % fq_q() == y2 % fq_q(),
    ensures
        (x1 + x2) % fq_q() == (y1 + y2) % fq_q(),
{
    let q = fq_q();
    vstd::arithmetic::div_mod::lemma_add_mod_noop(x1, x2, q);
    vstd::arithmetic::div_mod::lemma_add_mod_noop(y1, y2, q);
}

/// Products of congruent factors are congruent.
pub proof fn lemma_mul_congruent(x1: int, y1: int, x2: int, y2: int)
    requires
        x1 % fq_q() == y1 % fq_q(),
        x2 % fq_q() == y2 % fq_q(),
    ensures
        (x1 * x2) % fq_q() == (y1 * y2) % fq_q(),
{
    let q = fq_q();
    vstd::arithmetic::div_mod::lemma_mul_mod_noop_general(x1, x2, q);
    vstd::arithmetic::div_mod::lemma_mul_mod_noop_general(y1, y2, q);
}

/// Scaling by the residue of minus one negates, modulo the modulus.
pub proof fn lemma_negone_scale(v: int)
    ensures
        ((fq_q() - 1) * v) % fq_q() == (0 - v) % fq_q(),
{
    let q = fq_q();
    assert((q - 1) * v == q * v + (0 - v)) by (nonlinear_arith);
    vstd::arithmetic::div_mod::lemma_mod_multiples_vanish(v, 0 - v, q);
}

/// Satisfaction of a division constraint whose evaluations are known only
/// up to congruence: the product of denominator and witnessed quotient
/// meets the numerator.
pub proof fn lemma_div_sat_congruent(
    ea: int,
    eb: int,
    ec: int,
    den_raw: int,
    n_raw: int,
    den: int,
    inv: int,
    res: int,
)
    requires
        ea % fq_q() == den_raw % fq_q(),
        eb == res,
        ec % fq_q() == n_raw % fq_q(),
        den == den_raw % fq_q(),
        (den * inv) % fq_q() == 1,
        res == ((n_raw % fq_q()) * inv) % fq_q(),
    ensures
        (ea * eb - ec) % fq_q() == 0,
{
    let q = fq_q();
    lemma_div_constraint(den_raw, n_raw, den, inv, res);
    lemma_mul_congruent(ea, den_raw, eb, res);
    vstd::arithmetic::div_mod::lemma_sub_mod_noop(ea * eb, ec, q);
    vstd::arithmetic::div_mod::lemma_sub_mod_noop(den_raw * res, n_raw, q);
    assert((ea * eb - ec) % q == (den_raw * res - n_raw) % q);
}

/// A value minus its residue is a multiple of the modulus.
pub proof fn lemma_sub_self_mod(x: int)
    ensures
        (x - (x % fq_q())) % fq_q() == 0,
{
    let q = fq_q();
    vstd::arithmetic::div_mod::lemma_sub_mod_noop_right(x, x, q);
    lemma_mod_eq_iff_diff_zero(x, x);
}

/// Parses a canonical encoding. Relies on `bls12_381::Scalar::from_bytes`,
/// which succeeds exactly on little-endian encodings of integers below the
/// modulus.
#[verifier::external_body]
pub fn fq_from_bytes(b: &[u8; 32]) -> (r: Option<Fq>)
    ensures
        r is Some <==> le_val(b@) < fq_q(),
        r is Some ==> r.unwrap().val() == le_val(b@),
{
    let s: Option<bls12_381::Scalar> = bls12_381::Scalar::from_bytes(b).into();
    s.map(|_| Fq { bytes: *b })
}

/// Modular addition. Relies on `bls12_381::Scalar`'s field addition and its
/// canonical byte encoding.
#[verifier::external_body]
pub fn fq_add(a: &Fq, b: &Fq) -> (r: Fq)
    ensures
        r.val() == (a.val() + b.val()) % fq_q(),
{
    let x = bls12_381::Scalar::from_bytes(&a.bytes).unwrap();
    let y = bls12_381::Scalar::from_bytes(&b.bytes).unwrap();
    Fq { bytes: (x + y).to_bytes() }
}

/// Modular subtraction. Relies on `bls12_381::Scalar`'s field subtraction and
/// its canonical byte encoding.
#[verifier::external_body]
pub fn fq_sub(a: &Fq, b: &Fq) -> (r: Fq)
    ensures
        r.val() == (a.val() - b.val()) % fq_q(),
{
    let x = bls12_381::Scalar::from_bytes(&a.bytes).unwrap();
    let y = bls12_381::Scalar::from_bytes(&b.bytes).unwrap();
    Fq { bytes: (x - y).to_bytes() }
}

/// Modular multiplication. Relies on `bls12_381::Scalar`'s field
/// multiplication and its canonical byte encoding.
#[verifier::external_body]
pub fn fq_mul(a: &Fq, b: &Fq) -> (r: Fq)
    ensures
        r.val() == (a.val() * b.val()) % fq_q(),
{
    let x = bls12_381::Scalar::from_bytes(&a.bytes).unwrap();
    let y = bls12_381::Scalar::from_bytes(&b.bytes).unwrap();
    Fq { bytes: (x * y).to_bytes() }
}

/// Modular negation. Relies on `bls12_381::Scalar`'s field negation and its
/// canonical byte encoding.
#[verifier::external_body]
pub fn fq_neg(a: &Fq) -> (r: Fq)
    ensures
        r.val() == (0 - a.val()) % fq_q(),
{
    let x = bls12_381::Scalar::from_bytes(&a.bytes).unwrap();
    Fq { bytes: (-x).to_bytes() }
}

/// Multiplicative inverse, `None` exactly for zero. Relies on
/// `bls12_381::Scalar::invert`.
#[verifier::external_body]
pub fn fq_invert(a: &Fq) -> (r: Option<Fq>)
    ensures
        r is Some <==> a.val() != 0,
        r is Some ==> (a.val() * r.unwrap().val()) % fq_q() == 1,
{
    let x = bls12_381::Scalar::from_bytes(&a.bytes).unwrap();
    let inv: Option<bls12_381::Scalar> = x.invert().into();
    inv.map(|v| Fq { bytes: v.to_bytes() })
}

} // verus!
