//! The Pedersen hash gadget: a personalization prefix and a message bit
//! stream are consumed three bits at a time against windowed generator
//! segments; window outputs are chained by Montgomery addition within a
//! segment, and finished segments are accumulated in Edwards form.

use vstd::prelude::*;

use crate::boolean::{bits_all_known, bits_values, bits_wf, Boolean};
use crate::cs::{ConstraintSystem, SynthesisError};
use crate::ecc::{
    chunk_count, edw_add_c, mont_add_c, mont_to_edwards_c, stream_bit, EdwardsPoint,
    MontgomeryPoint,
};
use crate::field::{fneg, Fq};
use crate::lookup::{lookup2_index, lookup3_xy_with_conditional_negation};

verus! {

/// A domain-separation tag, expanded to a fixed six-bit constant prefix.
#[derive(Clone, Copy, Debug, PartialEq, Eq, Structural)]
pub enum Personalization {
    NoteCommitment,
    MerkleTree(usize),
}

impl Personalization {
    /// A Merkle-tree tag must carry a depth below 63.
    pub open spec fn valid(self) -> bool {
        match self {
            Personalization::NoteCommitment => true,
            Personalization::MerkleTree(d) => d < 63,
        }
    }

    /// The six prefix bits, little-endian.
    pub open spec fn bits_spec(self) -> Seq<bool> {
        match self {
            Personalization::NoteCommitment => seq![true, true, true, true, true, true],
            Personalization::MerkleTree(d) => seq![
                d & 1 == 1,
                (d >> 1) & 1 == 1,
                (d >> 2) & 1 == 1,
                (d >> 3) & 1 == 1,
                (d >> 4) & 1 == 1,
                (d >> 5) & 1 == 1,
            ],
        }
    }

    /// The prefix bits as constant booleans.
    pub fn get_bits(&self) -> (r: Vec<Boolean>)
        requires
            self.valid(),
        ensures
            r@.len() == 6,
            forall|i: int| 0 <= i < 6 ==> r@[i] == Boolean::Constant(self.bits_spec()[i]),
    {
        let mut r: Vec<Boolean> = Vec::new();
        match self {
            Personalization::NoteCommitment => {
                let mut i: usize = 0;
                while i < 6
                    invariant
                        0 <= i <= 6,
                        r@.len() == i,
                        forall|j: int| 0 <= j < i ==> r@[j] == Boolean::Constant(true),
                    decreases 6 - i,
                {
                    r.push(Boolean::constant(true));
                    i = i + 1;
                }
            },
            Personalization::MerkleTree(d) => {
                let dv: usize = *d;
                r.push(Boolean::constant(dv & 1 == 1));
                r.push(Boolean::constant((dv >> 1) & 1 == 1));
                r.push(Boolean::constant((dv >> 2) & 1 == 1));
                r.push(Boolean::constant((dv >> 3) & 1 == 1));
                r.push(Boolean::constant((dv >> 4) & 1 == 1));
                r.push(Boolean::constant((dv >> 5) & 1 == 1));
            },
        }
        r
    }
}

/// Distinct valid personalizations expand to distinct prefixes, so the two
/// hash families never share an input stream.
pub proof fn lemma_personalization_distinct(p1: Personalization, p2: Personalization)
    requires
        p1.valid(),
        p2.valid(),
        p1 != p2,
    ensures
        p1.bits_spec() != p2.bits_spec(),
{
    match (p1, p2) {
        (Personalization::NoteCommitment, Personalization::MerkleTree(d)) => {
            lemma_depth_bits_not_all_set(d);
            if p1.bits_spec() == p2.bits_spec() {
                assert(forall|i: int| 0 <= i < 6 ==> p1.bits_spec()[i] == p2.bits_spec()[i]);
                assert(p2.bits_spec()[0] && p2.bits_spec()[1] && p2.bits_spec()[2]
                    && p2.bits_spec()[3] && p2.bits_spec()[4] && p2.bits_spec()[5]);
            }
        },
        (Personalization::MerkleTree(d), Personalization::NoteCommitment) => {
            lemma_depth_bits_not_all_set(d);
            if p1.bits_spec() == p2.bits_spec() {
                assert(forall|i: int| 0 <= i < 6 ==> p1.bits_spec()[i] == p2.bits_spec()[i]);
                assert(p1.bits_spec()[0] && p1.bits_spec()[1] && p1.bits_spec()[2]
                    && p1.bits_spec()[3] && p1.bits_spec()[4] && p1.bits_spec()[5]);
            }
        },
        (Personalization::MerkleTree(d1), Personalization::MerkleTree(d2)) => {
            assert(d1 != d2);
            assert(!(((d1 & 1 == 1) <==> (d2 & 1 == 1)) && (((d1 >> 1) & 1 == 1) <==> ((d2 >> 1) & 1
                == 1)) && (((d1 >> 2) & 1 == 1) <==> ((d2 >> 2) & 1 == 1)) && (((d1 >> 3) & 1 == 1)
                <==> ((d2 >> 3) & 1 == 1)) && (((d1 >> 4) & 1 == 1) <==> ((d2 >> 4) & 1 == 1)) && ((
            (d1 >> 5) & 1 == 1) <==> ((d2 >> 5) & 1 == 1)))) by (bit_vector)
                requires
                    d1 < 63,
                    d2 < 63,
                    d1 != d2,
            ;
            if p1.bits_spec() == p2.bits_spec() {
                assert(p1.bits_spec()[0] == p2.bits_spec()[0]);
                assert(p1.bits_spec()[1] == p2.bits_spec()[1]);
                assert(p1.bits_spec()[2] == p2.bits_spec()[2]);
                assert(p1.bits_spec()[3] == p2.bits_spec()[3]);
                assert(p1.bits_spec()[4] == p2.bits_spec()[4]);
                assert(p1.bits_spec()[5] == p2.bits_spec()[5]);
            }
        },
        _ => {},
    }
}

/// A depth below 63 leaves at least one of the six prefix bits clear.
proof fn lemma_depth_bits_not_all_set(d: usize)
    requires
        d < 63,
    ensures
        !(d & 1 == 1 && (d >> 1) & 1 == 1 && (d >> 2) & 1 == 1 && (d >> 3) & 1 == 1 && (d >> 4) & 1
            == 1 && (d >> 5) & 1 == 1),
{
    assert(!(d & 1 == 1 && (d >> 1) & 1 == 1 && (d >> 2) & 1 == 1 && (d >> 3) & 1 == 1 && (d >> 4)
        & 1 == 1 && (d >> 5) & 1 == 1)) by (bit_vector)
        requires
            d < 63,
    ;
}

/// The conditionally negated window entry selected by one chunk.
pub open spec fn ph_window_c(window: Seq<(Fq, Fq)>, b0: bool, b1: bool, b2: bool) -> (int, int) {
    let e = window[lookup2_index(b0, b1)];
    (
        e.0.val(),
        if b2 {
            fneg(e.1.val())
        } else {
            e.1.val()
        },
    )
}

/// Chains the window outputs of one segment from window `w` on by
/// Montgomery addition; absent when an addition degenerates.
#[verifier::opaque]
pub open spec fn ph_seg_c(
    windows: Seq<Vec<(Fq, Fq)>>,
    bits: Seq<bool>,
    c0: int,
    w: int,
    nw: int,
    acc: (int, int),
) -> Option<(int, int)>
    decreases nw - w,
{
    if w >= nw {
        Some(acc)
    } else {
        let t = ph_window_c(
            windows[w]@,
            stream_bit(bits, 3 * (c0 + w)),
            stream_bit(bits, 3 * (c0 + w) + 1),
            stream_bit(bits, 3 * (c0 + w) + 2),
        );
        match mont_add_c(t, acc) {
            None => None,
            Some(na) => ph_seg_c(windows, bits, c0, w + 1, nw, na),
        }
    }
}

/// The number of windows a segment starting at chunk `c0` consumes.
pub open spec fn seg_width(wn: int, chunks: int, c0: int) -> int {
    if c0 + wn <= chunks {
        wn
    } else {
        chunks - c0
    }
}

/// Accumulates finished segments from segment `s` on: each segment is
/// chained in Montgomery form, converted to Edwards form, and added to the
/// accumulator; absent when any step degenerates.
#[verifier::opaque]
pub open spec fn ph_outer_c(
    gens: Seq<Vec<Vec<(Fq, Fq)>>>,
    bits: Seq<bool>,
    wn: int,
    s: int,
    ns: int,
    acc: (int, int),
) -> Option<(int, int)>
    decreases ns - s,
{
    if s >= ns {
        Some(acc)
    } else {
        let c0 = s * wn;
        let nw = seg_width(wn, chunk_count(bits.len() as int), c0);
        let t0 = ph_window_c(
            gens[s]@[0]@,
            stream_bit(bits, 3 * c0),
            stream_bit(bits, 3 * c0 + 1),
            stream_bit(bits, 3 * c0 + 2),
        );
        match ph_seg_c(gens[s]@, bits, c0, 1, nw, t0) {
            None => None,
            Some(m) => match mont_to_edwards_c(m) {
                None => None,
                Some(e) => match edw_add_c(e, acc) {
                    None => None,
                    Some(na) => ph_outer_c(gens, bits, wn, s + 1, ns, na),
                },
            },
        }
    }
}

/// The Pedersen hash of a nonempty bit stream against segment tables of a
/// uniform window count `wn`: the first segment seeds the Edwards
/// accumulator and the remaining segments are accumulated by unified
/// addition.
#[verifier::opaque]
pub open spec fn pedersen_c(gens: Seq<Vec<Vec<(Fq, Fq)>>>, bits: Seq<bool>, wn: int) -> Option<
    (int, int),
>
    recommends
        bits.len() > 0,
        wn >= 1,
{
    let chunks = chunk_count(bits.len() as int);
    let ns = (chunks + wn - 1) / wn;
    let nw0 = seg_width(wn, chunks, 0);
    let t0 = ph_window_c(
        gens[0]@[0]@,
        stream_bit(bits, 0),
        stream_bit(bits, 1),
        stream_bit(bits, 2),
    );
    match ph_seg_c(gens[0]@, bits, 0, 1, nw0, t0) {
        None => None,
        Some(m) => match mont_to_edwards_c(m) {
            None => None,
            Some(e) => ph_outer_c(gens, bits, wn, 1, ns, e),
        },
    }
}

/// The hash is deterministic: any two results carrying the hash of the
/// same personalization, bit stream and tables are the same point.
pub proof fn lemma_pedersen_deterministic(
    gens: Seq<Vec<Vec<(Fq, Fq)>>>,
    bits: Seq<bool>,
    wn: int,
    a: (int, int),
    b: (int, int),
)
    requires
        pedersen_c(gens, bits, wn) == Some(a),
        pedersen_c(gens, bits, wn) == Some(b),
    ensures
        a == b,
{
}

/// Bounds of the rounded-up segment count: `ns` segments of `wn` windows
/// cover the chunks, and no fewer do.
proof fn lemma_ceil_div_bounds(chunks: int, wn: int, ns: int)
    requires
        wn >= 1,
        chunks >= 1,
        ns == (chunks + wn - 1) / wn,
    ensures
        ns * wn >= chunks,
        (ns - 1) * wn <= chunks - 1,
        ns >= 1,
{
    vstd::arithmetic::div_mod::lemma_fundamental_div_mod(chunks + wn - 1, wn);
    vstd::arithmetic::div_mod::lemma_mod_bound(chunks + wn - 1, wn);
    let r = (chunks + wn - 1) % wn;
    assert(chunks + wn - 1 == wn * ns + r);
    assert(ns * wn == wn * ns) by (nonlinear_arith);
    assert((ns - 1) * wn == wn * ns - wn) by (nonlinear_arith);
    assert(ns >= 1) by (nonlinear_arith)
        requires
            wn * ns + r == chunks + wn - 1,
            0 <= r < wn,
            chunks >= 1,
            wn >= 1,
    ;
}

/// Looks one window of a segment up for the chunk at stream index `c`,
/// padding missing bits with constant false.
fn pedersen_window(
    cs: &mut ConstraintSystem,
    windows: &Vec<Vec<(Fq, Fq)>>,
    stream: &Vec<Boolean>,
    w: usize,
    c: usize,
) -> (r: MontgomeryPoint)
    requires
        old(cs).wf(),
        bits_wf(stream@, *old(cs)),
        w < windows@.len(),
        windows@[w as int]@.len() == 4,
        stream@.len() + 8 < usize::MAX,
        3 * c <= stream@.len() + 2,
    ensures
        final(cs).wf(),
        final(cs).extends(*old(cs)),
        final(cs).inputs@ == old(cs).inputs@,
        r.wf(*final(cs)),
        bits_all_known(stream@) ==> (r.has_value() && r.value() == ph_window_c(
            windows@[w as int]@,
            stream_bit(bits_values(stream@), 3 * c),
            stream_bit(bits_values(stream@), 3 * c + 1),
            stream_bit(bits_values(stream@), 3 * c + 2),
        ) && final(cs).new_sat(*old(cs))),
{
    let b0 = if 3 * c < stream.len() {
        stream[3 * c]
    } else {
        Boolean::constant(false)
    };
    let b1 = if 3 * c + 1 < stream.len() {
        stream[3 * c + 1]
    } else {
        Boolean::constant(false)
    };
    let b2 = if 3 * c + 2 < stream.len() {
        stream[3 * c + 2]
    } else {
        Boolean::constant(false)
    };
    let chunk = [b0, b1, b2];
    let (x, y) = lookup3_xy_with_conditional_negation(cs, &chunk, &windows[w]);
    MontgomeryPoint::interpret_unchecked(x, y)
}

/// Hashes a personalization prefix and a message bit stream to a curve
/// point: the combined stream is consumed three bits at a time against
/// successive windows of the generator segments, each segment is chained
/// in Montgomery form, and finished segments are accumulated in Edwards
/// form. With all message bits known, the result carries exactly the
/// hash's coordinates and any degenerate step surfaces as division by
/// zero.
#[verifier::rlimit(100)]
pub fn pedersen_hash(
    cs: &mut ConstraintSystem,
    personalization: &Personalization,
    bits: &Vec<Boolean>,
    gens: &Vec<Vec<Vec<(Fq, Fq)>>>,
) -> (r: Result<EdwardsPoint, SynthesisError>)
    requires
        old(cs).wf(),
        bits_wf(bits@, *old(cs)),
        personalization.valid(),
        gens@.len() >= 1,
        gens@[0]@.len() >= 1,
        forall|s: int| 0 <= s < gens@.len() ==> (#[trigger] gens@[s])@.len() == gens@[0]@.len(),
        forall|s: int, w: int|
            0 <= s < gens@.len() && 0 <= w < gens@[s]@.len() ==> (#[trigger] gens@[s]@[w])@.len()
                == 4,
        bits@.len() + 16 < usize::MAX,
        chunk_count(6 + bits@.len() as int) + gens@[0]@.len() < usize::MAX,
        (chunk_count(6 + bits@.len() as int) + gens@[0]@.len() - 1) / (gens@[0]@.len() as int)
            <= gens@.len(),
    ensures
        final(cs).wf(),
        final(cs).extends(*old(cs)),
        final(cs).inputs@ == old(cs).inputs@,
        r is Ok ==> r.unwrap().wf(*final(cs)),
        r is Err ==> r.unwrap_err() == SynthesisError::DivisionByZero,
        bits_all_known(bits@) ==> (match pedersen_c(
            gens@,
            personalization.bits_spec() + bits_values(bits@),
            gens@[0]@.len() as int,
        ) {
            Some(pv) => r is Ok && r.unwrap().has_value() && r.unwrap().value() == pv
                && final(cs).new_sat(*old(cs)),
            None => r is Err,
        }),
{
    proof {
        reveal(pedersen_c);
        reveal(ph_seg_c);
        reveal(ph_outer_c);
    }
    let ghost pre = *old(cs);
    let pers = personalization.get_bits();
    let mut stream: Vec<Boolean> = pers;
    let mut j: usize = 0;
    while j < bits.len()
        invariant
            0 <= j <= bits@.len(),
            stream@.len() == 6 + j,
            forall|i: int| 0 <= i < 6 ==> stream@[i] == Boolean::Constant(
                personalization.bits_spec()[i]),
            forall|i: int| 0 <= i < j ==> stream@[6 + i] == bits@[i],
        decreases bits@.len() - j,
    {
        let b = bits[j];
        stream.push(b);
        j = j + 1;
    }
    let ghost svals = bits_values(stream@);
    proof {
        assert(bits_wf(stream@, pre)) by {
            assert forall|i: int| 0 <= i < stream@.len() implies (#[trigger] stream@[i]).wf(pre) by {
                if i < 6 {
                } else {
                    assert(stream@[i] == bits@[i - 6]);
                }
            }
        }
        if bits_all_known(bits@) {
            assert(bits_all_known(stream@)) by {
                assert forall|i: int|
                    0 <= i < stream@.len() implies (#[trigger] stream@[i]).value_spec() is Some by {
                    if i >= 6 {
                        assert(stream@[i] == bits@[i - 6]);
                    }
                }
            }
            assert(svals =~= personalization.bits_spec() + bits_values(bits@)) by {
                assert(forall|i: int|
                    0 <= i < stream@.len() ==> svals[i] == (#[trigger] stream@[i]).value_spec().unwrap());
            }
        }
    }
    let ghost wmode = bits_all_known(stream@);
    let total = stream.len();
    let wn = gens[0].len();
    let chunks = (total + 2) / 3;
    let ns = (chunks + wn - 1) / wn;
    proof {
        vstd::arithmetic::div_mod::lemma_fundamental_div_mod((total + 2) as int, 3);
        vstd::arithmetic::div_mod::lemma_mod_bound((total + 2) as int, 3);
        assert(3 * (chunks as int) <= total + 2);
        vstd::arithmetic::div_mod::lemma_div_is_ordered(8, (total + 2) as int, 3);
        assert(chunks >= 2);
        lemma_ceil_div_bounds(chunks as int, wn as int, ns as int);
    }
    // First segment: its windows are chained in Montgomery form and the
    // conversion seeds the Edwards accumulator.
    let nw0 = if wn < chunks {
        wn
    } else {
        chunks
    };
    let seg0 = pedersen_segment(cs, &gens[0], &stream, 0, nw0);
    let ghost csa = *cs;
    proof {
        crate::boolean::lemma_bits_wf_extend(stream@, pre, csa);
    }
    let m0 = match seg0 {
        Ok(m) => m,
        Err(e) => {
            proof {
                reveal(pedersen_c);
            }
            return Err(e);
        },
    };
    let e0 = match m0.into_edwards(cs) {
        Ok(e) => e,
        Err(e) => {
            proof {
                reveal(pedersen_c);
                crate::cs::lemma_extends_trans(pre, csa, *cs);
            }
            return Err(e);
        },
    };
    proof {
        reveal(pedersen_c);
        crate::cs::lemma_extends_trans(pre, csa, *cs);
        crate::boolean::lemma_bits_wf_extend(stream@, csa, *cs);
        if wmode {
            crate::cs::lemma_new_sat_trans(pre, csa, *cs);
            assert(ph_outer_c(gens@, svals, wn as int, 1, ns as int, e0.value()) == pedersen_c(
                gens@,
                svals,
                wn as int,
            ));
        }
    }
    let mut acc = e0;
    let mut s: usize = 1;
    let mut c0: usize = wn;
    while c0 < chunks
        invariant
            pre == *old(cs),
            1 <= s,
            c0 == s * wn,
            wn == gens@[0]@.len(),
            wn >= 1,
            chunks == chunk_count(stream@.len() as int),
            chunks >= 1,
            ns == (chunks + wn - 1) as int / wn as int,
            ns * wn >= chunks,
            (ns - 1) * wn <= chunks - 1,
            s <= ns,
            chunks + wn < usize::MAX,
            stream@.len() + 8 < usize::MAX,
            stream@.len() >= 6,
            gens@.len() >= 1,
            ns <= gens@.len(),
            forall|t: int| 0 <= t < gens@.len() ==> (#[trigger] gens@[t])@.len() == wn,
            forall|t: int, w: int|
                0 <= t < gens@.len() && 0 <= w < gens@[t]@.len() ==> (#[trigger] gens@[t]@[w])@.len()
                    == 4,
            cs.wf(),
            cs.extends(pre),
            cs.inputs@ == pre.inputs@,
            bits_wf(stream@, *cs),
            acc.wf(*cs),
            wmode == bits_all_known(stream@),
            svals == bits_values(stream@),
            bits_all_known(bits@) ==> (wmode && svals == personalization.bits_spec()
                + bits_values(bits@)),
            wmode ==> (acc.has_value() && cs.new_sat(pre) && ph_outer_c(
                gens@,
                svals,
                wn as int,
                s as int,
                ns as int,
                acc.value(),
            ) == pedersen_c(gens@, svals, wn as int)),
        decreases ns - s,
    {
        proof {
            reveal(ph_outer_c);
            assert(s < ns) by {
                if s >= ns {
                    assert(s * wn >= ns * wn) by (nonlinear_arith)
                        requires
                            s >= ns,
                            wn >= 1,
                    ;
                }
            }
            assert(s * wn <= (ns - 1) * wn) by (nonlinear_arith)
                requires
                    s <= ns - 1,
                    wn >= 1,
            ;
            assert((s + 1) * wn == s * wn + wn) by (nonlinear_arith);
        }
        let ghost cs0 = *cs;
        let nw = if wn < chunks - c0 {
            wn
        } else {
            chunks - c0
        };
        let segr = pedersen_segment(cs, &gens[s], &stream, c0, nw);
        let ghost cs1 = *cs;
        proof {
            crate::boolean::lemma_bits_wf_extend(stream@, cs0, cs1);
            crate::num::lemma_num_wf_extend(acc.u, cs0, cs1);
            crate::num::lemma_num_wf_extend(acc.v, cs0, cs1);
        }
        let m = match segr {
            Ok(m) => m,
            Err(e) => {
                proof {
                    reveal(ph_outer_c);
                    crate::cs::lemma_extends_trans(pre, cs0, cs1);
                    if wmode {
                        assert(ph_outer_c(gens@, svals, wn as int, s as int, ns as int, acc.value())
                            is None);
                    }
                }
                return Err(e);
            },
        };
        let e_seg = match m.into_edwards(cs) {
            Ok(e) => e,
            Err(e) => {
                proof {
                    reveal(ph_outer_c);
                    crate::cs::lemma_extends_trans(cs0, cs1, *cs);
                    crate::cs::lemma_extends_trans(pre, cs0, *cs);
                    if wmode {
                        assert(ph_outer_c(gens@, svals, wn as int, s as int, ns as int, acc.value())
                            is None);
                    }
                }
                return Err(e);
            },
        };
        let ghost cs2 = *cs;
        proof {
            crate::boolean::lemma_bits_wf_extend(stream@, cs1, cs2);
            crate::num::lemma_num_wf_extend(acc.u, cs1, cs2);
            crate::num::lemma_num_wf_extend(acc.v, cs1, cs2);
        }
        let newacc = match e_seg.add(cs, &acc) {
            Ok(a) => a,
            Err(e) => {
                proof {
                    reveal(ph_outer_c);
                    crate::cs::lemma_extends_trans(cs0, cs1, cs2);
                    crate::cs::lemma_extends_trans(cs0, cs2, *cs);
                    crate::cs::lemma_extends_trans(pre, cs0, *cs);
                    if wmode {
                        assert(ph_outer_c(gens@, svals, wn as int, s as int, ns as int, acc.value())
                            is None);
                    }
                }
                return Err(e);
            },
        };
        proof {
            reveal(ph_outer_c);
            crate::boolean::lemma_bits_wf_extend(stream@, cs2, *cs);
            crate::cs::lemma_extends_trans(cs0, cs1, cs2);
            crate::cs::lemma_extends_trans(cs0, cs2, *cs);
            crate::cs::lemma_extends_trans(pre, cs0, *cs);
            if wmode {
                crate::cs::lemma_new_sat_trans(pre, cs0, cs1);
                crate::cs::lemma_new_sat_trans(pre, cs1, cs2);
                crate::cs::lemma_new_sat_trans(pre, cs2, *cs);
                assert(ph_outer_c(gens@, svals, wn as int, s as int + 1, ns as int, newacc.value())
                    == pedersen_c(gens@, svals, wn as int));
            }
        }
        acc = newacc;
        s = s + 1;
        c0 = c0 + wn;
    }
    proof {
        reveal(ph_outer_c);
        if wmode {
            assert(s >= ns) by {
                if s < ns {
                    assert(s * wn <= (ns - 1) * wn) by (nonlinear_arith)
                        requires
                            s <= ns - 1,
                            wn >= 1,
                    ;
                }
            }
        }
    }
    Ok(acc)
}

/// Chains the windows of one segment, starting at chunk `c0`, by
/// Montgomery addition; the first window seeds the chain.
#[verifier::rlimit(60)]
fn pedersen_segment(
    cs: &mut ConstraintSystem,
    windows: &Vec<Vec<(Fq, Fq)>>,
    stream: &Vec<Boolean>,
    c0: usize,
    nw: usize,
) -> (r: Result<MontgomeryPoint, SynthesisError>)
    requires
        old(cs).wf(),
        bits_wf(stream@, *old(cs)),
        1 <= nw <= windows@.len(),
        forall|w: int| 0 <= w < windows@.len() ==> (#[trigger] windows@[w])@.len() == 4,
        stream@.len() + 8 < usize::MAX,
        3 * (c0 + nw) <= stream@.len() + 2 + 3,
        c0 + nw <= chunk_count(stream@.len() as int),
    ensures
        final(cs).wf(),
        final(cs).extends(*old(cs)),
        final(cs).inputs@ == old(cs).inputs@,
        r is Ok ==> r.unwrap().wf(*final(cs)),
        r is Err ==> r.unwrap_err() == SynthesisError::DivisionByZero,
        bits_all_known(stream@) ==> (match ph_seg_c(
            windows@,
            bits_values(stream@),
            c0 as int,
            1,
            nw as int,
            ph_window_c(
                windows@[0]@,
                stream_bit(bits_values(stream@), 3 * c0),
                stream_bit(bits_values(stream@), 3 * c0 + 1),
                stream_bit(bits_values(stream@), 3 * c0 + 2),
            ),
        ) {
            Some(pv) => r is Ok && r.unwrap().has_value() && r.unwrap().value() == pv
                && final(cs).new_sat(*old(cs)),
            None => r is Err,
        }),
{
    proof {
        reveal(ph_seg_c);
    }
    let ghost pre = *old(cs);
    let ghost svals = bits_values(stream@);
    let ghost wmode = bits_all_known(stream@);
    let ghost goal = ph_seg_c(
        windows@,
        svals,
        c0 as int,
        1,
        nw as int,
        ph_window_c(
            windows@[0]@,
            stream_bit(svals, 3 * c0 as int),
            stream_bit(svals, 3 * c0 as int + 1),
            stream_bit(svals, 3 * c0 as int + 2),
        ),
    );
    let mut acc = pedersen_window(cs, windows, stream, 0, c0);
    proof {
        crate::boolean::lemma_bits_wf_extend(stream@, pre, *cs);
    }
    let mut w: usize = 1;
    while w < nw
        invariant
            pre == *old(cs),
            1 <= w <= nw,
            nw <= windows@.len(),
            forall|t: int| 0 <= t < windows@.len() ==> (#[trigger] windows@[t])@.len() == 4,
            stream@.len() + 8 < usize::MAX,
            3 * (c0 + nw) <= stream@.len() + 2 + 3,
            cs.wf(),
            cs.extends(pre),
            cs.inputs@ == pre.inputs@,
            bits_wf(stream@, *cs),
            acc.wf(*cs),
            wmode == bits_all_known(stream@),
            svals == bits_values(stream@),
            goal == ph_seg_c(
                windows@,
                svals,
                c0 as int,
                1,
                nw as int,
                ph_window_c(
                    windows@[0]@,
                    stream_bit(svals, 3 * c0 as int),
                    stream_bit(svals, 3 * c0 as int + 1),
                    stream_bit(svals, 3 * c0 as int + 2),
                ),
            ),
            wmode ==> (acc.has_value() && cs.new_sat(pre) && ph_seg_c(
                windows@,
                svals,
                c0 as int,
                w as int,
                nw as int,
                acc.value(),
            ) == goal),
        decreases nw - w,
    {
        proof {
            reveal(ph_seg_c);
        }
        let ghost cs0 = *cs;
        let t = pedersen_window(cs, windows, stream, w, c0 + w);
        let ghost cs1 = *cs;
        proof {
            crate::boolean::lemma_bits_wf_extend(stream@, cs0, cs1);
            crate::num::lemma_lcnum_wf_extend(acc.x, cs0, cs1);
            crate::num::lemma_lcnum_wf_extend(acc.y, cs0, cs1);
        }
        let newacc = match t.add(cs, &acc) {
            Ok(m) => m,
            Err(e) => {
                proof {
                    reveal(ph_seg_c);
                    crate::cs::lemma_extends_trans(pre, cs0, cs1);
                    crate::cs::lemma_extends_trans(pre, cs1, *cs);
                    if wmode {
                        assert(ph_seg_c(windows@, svals, c0 as int, w as int, nw as int, acc.value())
                            is None);
                    }
                }
                return Err(e);
            },
        };
        proof {
            reveal(ph_seg_c);
            crate::boolean::lemma_bits_wf_extend(stream@, cs1, *cs);
            crate::cs::lemma_extends_trans(pre, cs0, cs1);
            crate::cs::lemma_extends_trans(pre, cs1, *cs);
            if wmode {
                crate::cs::lemma_new_sat_trans(pre, cs0, cs1);
                crate::cs::lemma_new_sat_trans(pre, cs1, *cs);
                assert(ph_seg_c(windows@, svals, c0 as int, w as int + 1, nw as int, newacc.value())
                    == goal);
            }
        }
        acc = newacc;
        w = w + 1;
    }
    proof {
        reveal(ph_seg_c);
    }
    Ok(acc)
}

} // verus!
