//! A rank-1 constraint system, recorded in memory.
//!
//! The system holds the witness assignment made so far (public inputs and
//! auxiliary variables, each optionally valued so that a circuit's shape can
//! be built without a witness) together with the list of enforced
//! `A * B = C` constraints over linear combinations of variables.

use vstd::prelude::*;

use crate::field::{fq_eq, fq_mul, fq_one, fq_zero, fq_q, Fq};

verus! {

/// A failure met while building a circuit: a witness value that was needed
/// but absent, or a division by zero inside witness arithmetic.
#[derive(Clone, Copy, Debug, PartialEq, Eq, Structural)]
pub enum SynthesisError {
    AssignmentMissing,
    DivisionByZero,
}

/// A variable: either a public input or an auxiliary (witness) variable.
#[derive(Clone, Copy, Debug, PartialEq, Eq, Structural)]
pub enum Var {
    Input(usize),
    Aux(usize),
}

/// One addend of a linear combination: a coefficient times a variable.
#[derive(Clone, Copy, Debug)]
pub struct Term {
    pub var: Var,
    pub coeff: Fq,
}

/// A linear combination of variables.
#[derive(Clone, Debug)]
pub struct LinComb {
    pub terms: Vec<Term>,
}

/// An enforced equation `a * b = c` over linear combinations.
#[derive(Clone, Debug)]
pub struct Constraint {
    pub a: LinComb,
    pub b: LinComb,
    pub c: LinComb,
}

/// The recorded constraint system.
#[derive(Debug)]
pub struct ConstraintSystem {
    pub inputs: Vec<Option<Fq>>,
    pub aux: Vec<Option<Fq>>,
    pub constraints: Vec<Constraint>,
}

/// The value of an optional assignment; an absent value counts as zero.
pub open spec fn opt_val(o: Option<Fq>) -> int {
    match o {
        Some(f) => f.val(),
        None => 0,
    }
}

/// The value a variable takes under an assignment.
pub open spec fn var_eval(v: Var, ins: Seq<Option<Fq>>, aux: Seq<Option<Fq>>) -> int {
    match v {
        Var::Input(i) => opt_val(ins[i as int]),
        Var::Aux(i) => opt_val(aux[i as int]),
    }
}

/// Whether a variable's index lies within the assignment.
pub open spec fn var_in_bounds(v: Var, n_ins: nat, n_aux: nat) -> bool {
    match v {
        Var::Input(i) => i < n_ins,
        Var::Aux(i) => i < n_aux,
    }
}

/// The integer value of a linear combination under an assignment.
pub open spec fn lc_eval(terms: Seq<Term>, ins: Seq<Option<Fq>>, aux: Seq<Option<Fq>>) -> int
    decreases terms.len(),
{
    if terms.len() == 0 {
        0
    } else {
        lc_eval(terms.drop_last(), ins, aux) + terms.last().coeff.val() * var_eval(
            terms.last().var,
            ins,
            aux,
        )
    }
}

/// Whether every variable of a linear combination lies within the assignment.
pub open spec fn lc_in_bounds(terms: Seq<Term>, n_ins: nat, n_aux: nat) -> bool {
    forall|i: int| 0 <= i < terms.len() ==> var_in_bounds(#[trigger] terms[i].var, n_ins, n_aux)
}

/// Whether a constraint holds under an assignment: `a * b` and `c` agree
/// modulo the field modulus.
pub open spec fn c_sat(c: Constraint, ins: Seq<Option<Fq>>, aux: Seq<Option<Fq>>) -> bool {
    (lc_eval(c.a.terms@, ins, aux) * lc_eval(c.b.terms@, ins, aux) - lc_eval(c.c.terms@, ins, aux))
        % fq_q() == 0
}

/// Whether a constraint's variables lie within the assignment.
pub open spec fn c_in_bounds(c: Constraint, n_ins: nat, n_aux: nat) -> bool {
    lc_in_bounds(c.a.terms@, n_ins, n_aux) && lc_in_bounds(c.b.terms@, n_ins, n_aux)
        && lc_in_bounds(c.c.terms@, n_ins, n_aux)
}

/// Evaluation of a linear combination extended by one term.
pub proof fn lemma_lc_eval_push(s: Seq<Term>, t: Term, ins: Seq<Option<Fq>>, aux: Seq<Option<Fq>>)
    ensures
        lc_eval(s.push(t), ins, aux) == lc_eval(s, ins, aux) + t.coeff.val() * var_eval(
            t.var,
            ins,
            aux,
        ),
{
    assert(s.push(t).drop_last() =~= s);
    assert(s.push(t).last() == t);
}

/// Evaluation of a single unit-coefficient term.
pub proof fn lemma_lc_eval_single1(v: Var, one: Fq, ins: Seq<Option<Fq>>, aux: Seq<Option<Fq>>)
    requires
        one.val() == 1,
    ensures
        lc_eval(Seq::<Term>::empty().push((Term { var: v, coeff: one })), ins, aux) == var_eval(
            v,
            ins,
            aux,
        ),
{
    lemma_lc_eval_push(Seq::<Term>::empty(), (Term { var: v, coeff: one }), ins, aux);
    assert(1 * var_eval(v, ins, aux) == var_eval(v, ins, aux)) by (nonlinear_arith);
}

/// Evaluation of a sum of two unit-coefficient terms.
pub proof fn lemma_lc_eval_pair1(
    v1: Var,
    v2: Var,
    one: Fq,
    ins: Seq<Option<Fq>>,
    aux: Seq<Option<Fq>>,
)
    requires
        one.val() == 1,
    ensures
        lc_eval(
            Seq::<Term>::empty().push((Term { var: v1, coeff: one })).push(
                (Term { var: v2, coeff: one }),
            ),
            ins,
            aux,
        ) == var_eval(v1, ins, aux) + var_eval(v2, ins, aux),
{
    lemma_lc_eval_single1(v1, one, ins, aux);
    lemma_lc_eval_push(
        Seq::<Term>::empty().push((Term { var: v1, coeff: one })),
        (Term { var: v2, coeff: one }),
        ins,
        aux,
    );
    assert(1 * var_eval(v2, ins, aux) == var_eval(v2, ins, aux)) by (nonlinear_arith);
}

/// Evaluation of a constant-one term plus a scaled variable.
pub proof fn lemma_lc_eval_one_and(
    vc: Var,
    c: Fq,
    one: Fq,
    ins: Seq<Option<Fq>>,
    aux: Seq<Option<Fq>>,
)
    requires
        one.val() == 1,
        var_eval(Var::Input(0), ins, aux) == 1,
    ensures
        lc_eval(
            Seq::<Term>::empty().push((Term { var: Var::Input(0), coeff: one })).push(
                (Term { var: vc, coeff: c }),
            ),
            ins,
            aux,
        ) == 1 + c.val() * var_eval(vc, ins, aux),
{
    lemma_lc_eval_single1(Var::Input(0), one, ins, aux);
    lemma_lc_eval_push(
        Seq::<Term>::empty().push((Term { var: Var::Input(0), coeff: one })),
        (Term { var: vc, coeff: c }),
        ins,
        aux,
    );
}

/// Evaluation of a sum of three scaled terms.
pub proof fn lemma_lc_eval_triple(
    v1: Var,
    c1: Fq,
    v2: Var,
    c2: Fq,
    v3: Var,
    c3: Fq,
    ins: Seq<Option<Fq>>,
    aux: Seq<Option<Fq>>,
)
    ensures
        lc_eval(
            Seq::<Term>::empty().push((Term { var: v1, coeff: c1 })).push(
                (Term { var: v2, coeff: c2 }),
            ).push((Term { var: v3, coeff: c3 })),
            ins,
            aux,
        ) == c1.val() * var_eval(v1, ins, aux) + c2.val() * var_eval(v2, ins, aux) + c3.val()
            * var_eval(v3, ins, aux),
{
    lemma_lc_eval_push(Seq::<Term>::empty(), (Term { var: v1, coeff: c1 }), ins, aux);
    lemma_lc_eval_push(
        Seq::<Term>::empty().push((Term { var: v1, coeff: c1 })),
        (Term { var: v2, coeff: c2 }),
        ins,
        aux,
    );
    lemma_lc_eval_push(
        Seq::<Term>::empty().push((Term { var: v1, coeff: c1 })).push(
            (Term { var: v2, coeff: c2 }),
        ),
        (Term { var: v3, coeff: c3 }),
        ins,
        aux,
    );
}

/// A linear combination within bounds evaluates the same under any extension
/// of the assignment.
pub proof fn lemma_lc_eval_extend(
    s: Seq<Term>,
    ins1: Seq<Option<Fq>>,
    aux1: Seq<Option<Fq>>,
    ins2: Seq<Option<Fq>>,
    aux2: Seq<Option<Fq>>,
)
    requires
        lc_in_bounds(s, ins1.len(), aux1.len()),
        ins1.is_prefix_of(ins2),
        aux1.is_prefix_of(aux2),
    ensures
        lc_eval(s, ins2, aux2) == lc_eval(s, ins1, aux1),
    decreases s.len(),
{
    if s.len() > 0 {
        assert(forall|i: int| 0 <= i < s.len() - 1 ==> s.drop_last()[i] == s[i]);
        lemma_lc_eval_extend(s.drop_last(), ins1, aux1, ins2, aux2);
        assert(var_eval(s.last().var, ins2, aux2) == var_eval(s.last().var, ins1, aux1));
    }
}

/// A constraint within bounds keeps its satisfaction status under any
/// extension of the assignment.
pub proof fn lemma_c_sat_extend(
    c: Constraint,
    ins1: Seq<Option<Fq>>,
    aux1: Seq<Option<Fq>>,
    ins2: Seq<Option<Fq>>,
    aux2: Seq<Option<Fq>>,
)
    requires
        c_in_bounds(c, ins1.len(), aux1.len()),
        ins1.is_prefix_of(ins2),
        aux1.is_prefix_of(aux2),
    ensures
        c_sat(c, ins2, aux2) == c_sat(c, ins1, aux1),
{
    lemma_lc_eval_extend(c.a.terms@, ins1, aux1, ins2, aux2);
    lemma_lc_eval_extend(c.b.terms@, ins1, aux1, ins2, aux2);
    lemma_lc_eval_extend(c.c.terms@, ins1, aux1, ins2, aux2);
}

impl LinComb {
    /// The empty linear combination.
    pub fn empty() -> (r: Self)
        ensures
            r.terms@ =~= Seq::<Term>::empty(),
    {
        LinComb { terms: Vec::new() }
    }

    /// A linear combination of a single term.
    pub fn of_term(v: Var, c: Fq) -> (r: Self)
        ensures
            r.terms@ =~= Seq::<Term>::empty().push((Term { var: v, coeff: c })),
    {
        let mut terms: Vec<Term> = Vec::new();
        terms.push(Term { var: v, coeff: c });
        LinComb { terms }
    }

    /// Appends one term.
    pub fn push_term(&mut self, v: Var, c: Fq)
        ensures
            final(self).terms@ == old(self).terms@.push((Term { var: v, coeff: c })),
    {
        self.terms.push(Term { var: v, coeff: c });
    }

    /// Appends every term of another combination.
    pub fn extend_with(&mut self, other: &LinComb)
        ensures
            final(self).terms@ == old(self).terms@ + other.terms@,
    {
        let mut i: usize = 0;
        while i < other.terms.len()
            invariant
                0 <= i <= other.terms@.len(),
                self.terms@ == old(self).terms@ + other.terms@.subrange(0, i as int),
            decreases other.terms@.len() - i,
        {
            let t = other.terms[i];
            self.terms.push(t);
            proof {
                assert(old(self).terms@ + other.terms@.subrange(0, i as int + 1) =~= (old(
                    self,
                ).terms@ + other.terms@.subrange(0, i as int)).push(other.terms@[i as int]));
            }
            i = i + 1;
        }
        proof {
            assert(other.terms@.subrange(0, other.terms@.len() as int) =~= other.terms@);
        }
    }

    /// This combination with every coefficient multiplied by `k`.
    pub fn scaled(&self, k: &Fq) -> (r: Self)
        ensures
            r.terms@.len() == self.terms@.len(),
            forall|i: int|
                0 <= i < self.terms@.len() ==> (#[trigger] r.terms@[i]).var == self.terms@[i].var
                    && r.terms@[i].coeff.val() == (k.val() * self.terms@[i].coeff.val()) % fq_q(),
    {
        let mut terms: Vec<Term> = Vec::new();
        let mut i: usize = 0;
        while i < self.terms.len()
            invariant
                0 <= i <= self.terms@.len(),
                terms@.len() == i,
                forall|j: int|
                    0 <= j < i ==> (#[trigger] terms@[j]).var == self.terms@[j].var
                        && terms@[j].coeff.val() == (k.val() * self.terms@[j].coeff.val()) % fq_q(),
            decreases self.terms@.len() - i,
        {
            let t = self.terms[i];
            terms.push(Term { var: t.var, coeff: fq_mul(k, &t.coeff) });
            i = i + 1;
        }
        LinComb { terms }
    }
}

/// Bounds of a concatenation follow from bounds of the parts.
pub proof fn lemma_lc_in_bounds_append(s: Seq<Term>, t: Seq<Term>, ni: nat, na: nat)
    requires
        lc_in_bounds(s, ni, na),
        lc_in_bounds(t, ni, na),
    ensures
        lc_in_bounds(s + t, ni, na),
{
    assert forall|i: int| 0 <= i < (s + t).len() implies var_in_bounds(
        #[trigger] (s + t)[i].var,
        ni,
        na,
    ) by {
        if i < s.len() {
            assert((s + t)[i] == s[i]);
        } else {
            assert((s + t)[i] == t[i - s.len()]);
        }
    }
}

/// Bounds carry over to a combination with the same variables.
pub proof fn lemma_lc_in_bounds_same_vars(s: Seq<Term>, t: Seq<Term>, ni: nat, na: nat)
    requires
        lc_in_bounds(s, ni, na),
        t.len() == s.len(),
        forall|i: int| 0 <= i < t.len() ==> (#[trigger] t[i]).var == s[i].var,
    ensures
        lc_in_bounds(t, ni, na),
{
    assert forall|i: int| 0 <= i < t.len() implies var_in_bounds(#[trigger] t[i].var, ni, na) by {
        assert(var_in_bounds(s[i].var, ni, na));
    }
}

/// Evaluation of concatenated linear combinations.
pub proof fn lemma_lc_eval_append(
    s: Seq<Term>,
    t: Seq<Term>,
    ins: Seq<Option<Fq>>,
    aux: Seq<Option<Fq>>,
)
    ensures
        lc_eval(s + t, ins, aux) == lc_eval(s, ins, aux) + lc_eval(t, ins, aux),
    decreases t.len(),
{
    if t.len() == 0 {
        assert(s + t =~= s);
    } else {
        assert((s + t).drop_last() =~= s + t.drop_last());
        assert((s + t).last() == t.last());
        lemma_lc_eval_append(s, t.drop_last(), ins, aux);
    }
}

/// A scaled combination evaluates, modulo the field modulus, to the scale
/// times the original evaluation.
pub proof fn lemma_lc_eval_scaled(
    s: Seq<Term>,
    t: Seq<Term>,
    k: int,
    ins: Seq<Option<Fq>>,
    aux: Seq<Option<Fq>>,
)
    requires
        s.len() == t.len(),
        forall|i: int|
            0 <= i < s.len() ==> (#[trigger] t[i]).var == s[i].var && t[i].coeff.val() == (k
                * s[i].coeff.val()) % fq_q(),
    ensures
        lc_eval(t, ins, aux) % fq_q() == (k * lc_eval(s, ins, aux)) % fq_q(),
    decreases s.len(),
{
    let q = fq_q();
    if s.len() == 0 {
        vstd::arithmetic::div_mod::lemma_small_mod(0nat, q as nat);
        assert(k * 0 == 0) by (nonlinear_arith);
    } else {
        assert(forall|i: int| 0 <= i < s.len() - 1 ==> (#[trigger] t.drop_last()[i]) == t[i]);
        assert(forall|i: int| 0 <= i < s.len() - 1 ==> (#[trigger] s.drop_last()[i]) == s[i]);
        lemma_lc_eval_scaled(s.drop_last(), t.drop_last(), k, ins, aux);
        let es = lc_eval(s.drop_last(), ins, aux);
        let et = lc_eval(t.drop_last(), ins, aux);
        let cs_ = s.last().coeff.val();
        let ct = t.last().coeff.val();
        let v = var_eval(s.last().var, ins, aux);
        assert(t.last().var == s.last().var);
        assert(ct == (k * cs_) % q);
        assert(lc_eval(t, ins, aux) == et + ct * v);
        assert(lc_eval(s, ins, aux) == es + cs_ * v);
        assert((et + ct * v) % q == (k * (es + cs_ * v)) % q) by {
            vstd::arithmetic::div_mod::lemma_add_mod_noop(et, ct * v, q);
            assert((ct * v) % q == (k * cs_ * v) % q) by {
                vstd::arithmetic::div_mod::lemma_mul_mod_noop_left(k * cs_, v, q);
                assert(((k * cs_) % q) * v == ct * v);
            }
            assert((et % q + (ct * v) % q) % q == ((k * es) % q + (k * cs_ * v) % q) % q);
            vstd::arithmetic::div_mod::lemma_add_mod_noop(k * es, k * cs_ * v, q);
            assert(k * es + k * cs_ * v == k * (es + cs_ * v)) by (nonlinear_arith);
        }
    }
}

impl ConstraintSystem {
    /// Well-formed: the first input is the constant one, and every recorded
    /// constraint speaks only of allocated variables.
    pub open spec fn wf(self) -> bool {
        &&& self.inputs@.len() >= 1
        &&& self.inputs@[0] is Some
        &&& self.inputs@[0].unwrap().val() == 1
        &&& forall|i: int|
            0 <= i < self.constraints@.len() ==> c_in_bounds(
                #[trigger] self.constraints@[i],
                self.inputs@.len(),
                self.aux@.len(),
            )
    }

    /// Whether every variable carries a witness value.
    pub open spec fn full(self) -> bool {
        &&& forall|i: int| 0 <= i < self.inputs@.len() ==> (#[trigger] self.inputs@[i]) is Some
        &&& forall|i: int| 0 <= i < self.aux@.len() ==> (#[trigger] self.aux@[i]) is Some
    }

    /// Whether every recorded constraint holds under the recorded assignment.
    pub open spec fn satisfied(self) -> bool {
        forall|i: int|
            0 <= i < self.constraints@.len() ==> c_sat(
                #[trigger] self.constraints@[i],
                self.inputs@,
                self.aux@,
            )
    }

    /// Whether `self` grew out of `o` by allocations and constraints alone.
    pub open spec fn extends(self, o: Self) -> bool {
        &&& o.inputs@.is_prefix_of(self.inputs@)
        &&& o.aux@.is_prefix_of(self.aux@)
        &&& o.constraints@.is_prefix_of(self.constraints@)
    }

    /// The recorded assignment of a variable.
    pub open spec fn assignment_of(self, v: Var) -> Option<Fq> {
        match v {
            Var::Input(i) => self.inputs@[i as int],
            Var::Aux(i) => self.aux@[i as int],
        }
    }

    /// Every constraint recorded since `o` holds under the recorded
    /// assignment.
    pub open spec fn new_sat(self, o: Self) -> bool {
        forall|i: int|
            o.constraints@.len() <= i < self.constraints@.len() ==> c_sat(
                #[trigger] self.constraints@[i],
                self.inputs@,
                self.aux@,
            )
    }

    /// A fresh system holding only the constant-one input.
    pub fn new() -> (r: Self)
        ensures
            r.wf(),
            r.full(),
            r.satisfied(),
            r.inputs@.len() == 1,
            r.aux@.len() == 0,
            r.constraints@.len() == 0,
    {
        let one = fq_one();
        ConstraintSystem { inputs: vec![Some(one)], aux: Vec::new(), constraints: Vec::new() }
    }

    /// The constant-one variable.
    pub fn one() -> (v: Var)
        ensures
            v == Var::Input(0),
    {
        Var::Input(0)
    }

    /// Allocates an auxiliary variable with an optional witness value.
    pub fn allocate(&mut self, value: Option<Fq>) -> (v: Var)
        requires
            old(self).wf(),
        ensures
            final(self).wf(),
            final(self).extends(*old(self)),
            final(self).inputs@ == old(self).inputs@,
            final(self).aux@ == old(self).aux@.push(value),
            final(self).constraints@ == old(self).constraints@,
            v == Var::Aux(old(self).aux@.len() as usize),
            var_in_bounds(v, final(self).inputs@.len(), final(self).aux@.len()),
            final(self).assignment_of(v) == value,
    {
        let idx = self.aux.len();
        self.aux.push(value);
        Var::Aux(idx)
    }

    /// Allocates a public-input variable with an optional witness value.
    pub fn allocate_input(&mut self, value: Option<Fq>) -> (v: Var)
        requires
            old(self).wf(),
        ensures
            final(self).wf(),
            final(self).extends(*old(self)),
            final(self).inputs@ == old(self).inputs@.push(value),
            final(self).aux@ == old(self).aux@,
            final(self).constraints@ == old(self).constraints@,
            v == Var::Input(old(self).inputs@.len() as usize),
            var_in_bounds(v, final(self).inputs@.len(), final(self).aux@.len()),
            final(self).assignment_of(v) == value,
    {
        let idx = self.inputs.len();
        self.inputs.push(value);
        Var::Input(idx)
    }

    /// Records the constraint `a * b = c`.
    pub fn enforce(&mut self, a: LinComb, b: LinComb, c: LinComb)
        requires
            old(self).wf(),
            lc_in_bounds(a.terms@, old(self).inputs@.len(), old(self).aux@.len()),
            lc_in_bounds(b.terms@, old(self).inputs@.len(), old(self).aux@.len()),
            lc_in_bounds(c.terms@, old(self).inputs@.len(), old(self).aux@.len()),
        ensures
            final(self).wf(),
            final(self).extends(*old(self)),
            final(self).inputs@ == old(self).inputs@,
            final(self).aux@ == old(self).aux@,
            final(self).constraints@ == old(self).constraints@.push(Constraint { a, b, c }),
    {
        self.constraints.push(Constraint { a, b, c });
    }
}

impl ConstraintSystem {
    /// The value a variable holds; the assignment must be complete.
    fn var_value(&self, v: Var) -> (r: Fq)
        requires
            self.wf(),
            self.full(),
            var_in_bounds(v, self.inputs@.len(), self.aux@.len()),
        ensures
            r.val() == var_eval(v, self.inputs@, self.aux@),
    {
        match v {
            Var::Input(i) => self.inputs[i].unwrap(),
            Var::Aux(i) => self.aux[i].unwrap(),
        }
    }

    /// Evaluates a linear combination under the complete assignment.
    pub fn eval_lc(&self, lc: &LinComb) -> (r: Fq)
        requires
            self.wf(),
            self.full(),
            lc_in_bounds(lc.terms@, self.inputs@.len(), self.aux@.len()),
        ensures
            r.val() == lc_eval(lc.terms@, self.inputs@, self.aux@) % fq_q(),
    {
        let ghost ins = self.inputs@;
        let ghost auxv = self.aux@;
        let mut acc = fq_zero();
        let mut i: usize = 0;
        proof {
            vstd::arithmetic::div_mod::lemma_small_mod(0nat, fq_q() as nat);
            assert(lc.terms@.subrange(0, 0) =~= Seq::<Term>::empty());
        }
        while i < lc.terms.len()
            invariant
                0 <= i <= lc.terms@.len(),
                self.wf(),
                self.full(),
                lc_in_bounds(lc.terms@, self.inputs@.len(), self.aux@.len()),
                ins == self.inputs@,
                auxv == self.aux@,
                acc.val() == lc_eval(lc.terms@.subrange(0, i as int), ins, auxv) % fq_q(),
            decreases lc.terms@.len() - i,
        {
            let t = lc.terms[i];
            let v = self.var_value(t.var);
            let term = crate::field::fq_mul(&t.coeff, &v);
            let next = crate::field::fq_add(&acc, &term);
            proof {
                let q = fq_q();
                let pre = lc.terms@.subrange(0, i as int);
                let cur = lc.terms@.subrange(0, i as int + 1);
                assert(cur.drop_last() =~= pre);
                assert(cur.last() == lc.terms@[i as int]);
                let e = lc_eval(pre, ins, auxv);
                let tv = t.coeff.val() * var_eval(t.var, ins, auxv);
                assert(lc_eval(cur, ins, auxv) == e + tv);
                crate::field::lemma_fq_val_bound(acc);
                vstd::arithmetic::div_mod::lemma_add_mod_noop(e, tv, q);
                vstd::arithmetic::div_mod::lemma_mod_twice(e, q);
                vstd::arithmetic::div_mod::lemma_mod_twice(tv, q);
                assert(next.val() == ((e % q) + (tv % q)) % q) by {
                    vstd::arithmetic::div_mod::lemma_add_mod_noop(e % q, tv % q, q);
                }
            }
            acc = next;
            i = i + 1;
        }
        proof {
            assert(lc.terms@.subrange(0, lc.terms@.len() as int) =~= lc.terms@);
        }
        acc
    }

    /// Decides whether every recorded constraint holds under the complete
    /// assignment.
    pub fn is_satisfied(&self) -> (r: bool)
        requires
            self.wf(),
            self.full(),
        ensures
            r == self.satisfied(),
    {
        let mut i: usize = 0;
        while i < self.constraints.len()
            invariant
                0 <= i <= self.constraints@.len(),
                self.wf(),
                self.full(),
                forall|j: int|
                    0 <= j < i ==> c_sat(#[trigger] self.constraints@[j], self.inputs@, self.aux@),
            decreases self.constraints@.len() - i,
        {
            let c = &self.constraints[i];
            let ea = self.eval_lc(&c.a);
            let eb = self.eval_lc(&c.b);
            let ec = self.eval_lc(&c.c);
            let prod = fq_mul(&ea, &eb);
            let same = fq_eq(&prod, &ec);
            proof {
                let q = fq_q();
                let ins = self.inputs@;
                let aux = self.aux@;
                let av = lc_eval(c.a.terms@, ins, aux);
                let bv = lc_eval(c.b.terms@, ins, aux);
                let cv = lc_eval(c.c.terms@, ins, aux);
                vstd::arithmetic::div_mod::lemma_mul_mod_noop_general(av, bv, q);
                assert(prod.val() == (av * bv) % q);
                crate::field::lemma_mod_eq_iff_diff_zero(av * bv, cv);
                vstd::arithmetic::div_mod::lemma_mod_twice(av * bv, q);
                vstd::arithmetic::div_mod::lemma_mod_twice(cv, q);
                assert(same == c_sat(self.constraints@[i as int], ins, aux));
            }
            if !same {
                return false;
            }
            i = i + 1;
        }
        true
    }
}

/// An extension preserves the assignment of every variable already
/// allocated.
pub proof fn lemma_extends_assignment(n: ConstraintSystem, o: ConstraintSystem, v: Var)
    requires
        n.extends(o),
        var_in_bounds(v, o.inputs@.len(), o.aux@.len()),
    ensures
        var_in_bounds(v, n.inputs@.len(), n.aux@.len()),
        n.assignment_of(v) == o.assignment_of(v),
{
}

/// A prefix of a completely assigned system is itself completely assigned.
pub proof fn lemma_full_of_extension(n: ConstraintSystem, o: ConstraintSystem)
    requires
        n.extends(o),
        n.full(),
    ensures
        o.full(),
{
    assert forall|i: int| 0 <= i < o.inputs@.len() implies (#[trigger] o.inputs@[i]) is Some by {
        assert(o.inputs@[i] == n.inputs@[i]);
    }
    assert forall|i: int| 0 <= i < o.aux@.len() implies (#[trigger] o.aux@[i]) is Some by {
        assert(o.aux@[i] == n.aux@[i]);
    }
}

/// When only satisfied constraints were recorded, a satisfied system stays
/// satisfied.
pub proof fn lemma_satisfied_extend(o: ConstraintSystem, n: ConstraintSystem)
    requires
        o.wf(),
        o.satisfied(),
        n.extends(o),
        n.new_sat(o),
    ensures
        n.satisfied(),
{
    assert forall|i: int| 0 <= i < n.constraints@.len() implies c_sat(
        #[trigger] n.constraints@[i],
        n.inputs@,
        n.aux@,
    ) by {
        if i < o.constraints@.len() {
            assert(n.constraints@[i] == o.constraints@[i]);
            lemma_c_sat_extend(o.constraints@[i], o.inputs@, o.aux@, n.inputs@, n.aux@);
        }
    }
}

/// Constraints recorded across two consecutive extensions all hold in the
/// final system.
pub proof fn lemma_new_sat_trans(c1: ConstraintSystem, c2: ConstraintSystem, c3: ConstraintSystem)
    requires
        c2.wf(),
        c2.extends(c1),
        c3.extends(c2),
        c2.new_sat(c1),
        c3.new_sat(c2),
    ensures
        c3.new_sat(c1),
        c3.extends(c1),
{
    assert forall|i: int|
        c1.constraints@.len() <= i < c3.constraints@.len() implies c_sat(
        #[trigger] c3.constraints@[i],
        c3.inputs@,
        c3.aux@,
    ) by {
        if i < c2.constraints@.len() {
            assert(c3.constraints@[i] == c2.constraints@[i]);
            lemma_c_sat_extend(c2.constraints@[i], c2.inputs@, c2.aux@, c3.inputs@, c3.aux@);
        }
    }
    assert(c1.inputs@.is_prefix_of(c3.inputs@));
    assert(c1.aux@.is_prefix_of(c3.aux@));
    assert(c1.constraints@.is_prefix_of(c3.constraints@));
}

/// Extension is transitive.
pub proof fn lemma_extends_trans(c1: ConstraintSystem, c2: ConstraintSystem, c3: ConstraintSystem)
    requires
        c2.extends(c1),
        c3.extends(c2),
    ensures
        c3.extends(c1),
{
}

} // verus!
