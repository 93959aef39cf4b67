//! The rank-1 constraint system the gadgets emit into.
//!
//! A constraint system holds an assignment (public inputs, private auxiliary
//! witnesses, and the designated constant-one input) together with an
//! append-only list of rank-1 constraints `A·x * B·x = C·x`. Gadgets allocate
//! variables and register constraints; satisfiability of the accumulated
//! constraints under an assignment is the system's meaning.
//!
//! In witness mode every allocation carries a concrete value and the running
//! assignment is tracked; in setup mode only the shape of the system is
//! built and no hints are recorded.

use vstd::prelude::*;
use vstd::arithmetic::div_mod::{lemma_small_mod, lemma_mod_multiples_vanish};
use crate::field::{
    Fp, MODULUS, prime, fadd, fmul, fneg, lemma_fadd_bound, lemma_fmul_bound, lemma_fadd_assoc,
    lemma_fadd_assoc_free, lemma_fadd_cancel, lemma_fadd_zero, lemma_fmul_assoc,
    lemma_fmul_comm, lemma_fmul_distrib, lemma_fmul_zero,
};

verus! {

/// Whether a variable is a public input or a private auxiliary witness.
#[derive(Clone, Copy, Debug, PartialEq, Eq, Structural)]
pub enum Index {
    Input(usize),
    Aux(usize),
}

/// A handle to one slot of the assignment vector.
#[derive(Clone, Copy, Debug, PartialEq, Eq, Structural)]
pub struct Variable(pub Index);

impl Variable {
    pub fn new_unchecked(idx: Index) -> (r: Variable)
        ensures
            r.0 == idx,
    {
        Variable(idx)
    }

    /// Whether the handle points into an assignment of the given shape.
    pub open spec fn in_range(self, ni: nat, na: nat) -> bool {
        match self.0 {
            Index::Input(i) => i < ni,
            Index::Aux(i) => i < na,
        }
    }
}

/// A failure while building a circuit.
#[derive(Clone, Copy, Debug, PartialEq, Eq, Structural)]
pub enum SynthesisError {
    /// A value hint was required but absent.
    AssignmentMissing,
    /// A nonzero assertion was asked of a zero value.
    DivisionByZero,
    /// A structural mismatch that no assignment could satisfy.
    Unsatisfiable,
}

/// The value a variable takes under an assignment.
pub open spec fn var_val(v: Variable, inputs: Seq<nat>, aux: Seq<nat>) -> nat {
    match v.0 {
        Index::Input(i) => if i < inputs.len() {
            inputs[i as int]
        } else {
            0
        },
        Index::Aux(i) => if i < aux.len() {
            aux[i as int]
        } else {
            0
        },
    }
}

/// The canonical residues of a vector of field elements.
pub open spec fn vals(s: Seq<Fp>) -> Seq<nat> {
    s.map_values(|f: Fp| f.v as nat)
}

/// An assignment covering at least the given shape: the constant-one input
/// is one and all values are canonical residues.
pub open spec fn wf_assign(inputs: Seq<nat>, aux: Seq<nat>, ni: nat, na: nat) -> bool {
    &&& inputs.len() >= ni
    &&& aux.len() >= na
    &&& ni >= 1
    &&& inputs[0] == 1
    &&& forall|i: int| 0 <= i < inputs.len() ==> #[trigger] inputs[i] < prime()
    &&& forall|i: int| 0 <= i < aux.len() ==> #[trigger] aux[i] < prime()
}

/// The value of a weighted sum of variables under an assignment.
pub open spec fn lc_eval(terms: Seq<(Variable, Fp)>, inputs: Seq<nat>, aux: Seq<nat>) -> nat
    decreases terms.len(),
{
    if terms.len() == 0 {
        0
    } else {
        fadd(
            lc_eval(terms.drop_last(), inputs, aux),
            fmul(terms.last().1.n(), var_val(terms.last().0, inputs, aux)),
        )
    }
}

/// The merged coefficient of one variable: entries for the same variable
/// combine by field addition.
pub open spec fn lc_coeff(terms: Seq<(Variable, Fp)>, v: Variable) -> nat
    decreases terms.len(),
{
    if terms.len() == 0 {
        0
    } else if terms.last().0 == v {
        fadd(lc_coeff(terms.drop_last(), v), terms.last().1.n())
    } else {
        lc_coeff(terms.drop_last(), v)
    }
}

/// No variable appears in two entries: the combination is a map.
pub open spec fn lc_unique(terms: Seq<(Variable, Fp)>) -> bool {
    forall|i: int, j: int|
        0 <= i < j < terms.len() ==> (#[trigger] terms[i]).0 != (#[trigger] terms[j]).0
}

/// Whether the combination has an entry for a variable.
pub open spec fn lc_mentions(terms: Seq<(Variable, Fp)>, v: Variable) -> bool {
    exists|i: int| 0 <= i < terms.len() && (#[trigger] terms[i]).0 == v
}

/// All stored coefficients are canonical residues.
pub open spec fn lc_coeffs_wf(terms: Seq<(Variable, Fp)>) -> bool {
    forall|i: int| 0 <= i < terms.len() ==> (#[trigger] terms[i]).1.wf()
}

/// All mentioned variables point into an assignment of the given shape.
pub open spec fn lc_in_range(terms: Seq<(Variable, Fp)>, ni: nat, na: nat) -> bool {
    forall|i: int| 0 <= i < terms.len() ==> (#[trigger] terms[i]).0.in_range(ni, na)
}

pub broadcast proof fn lemma_lc_eval_push(
    terms: Seq<(Variable, Fp)>,
    t: (Variable, Fp),
    inputs: Seq<nat>,
    aux: Seq<nat>,
)
    ensures
        #[trigger] lc_eval(terms.push(t), inputs, aux) == fadd(
            lc_eval(terms, inputs, aux),
            fmul(t.1.n(), var_val(t.0, inputs, aux)),
        ),
{
    assert(terms.push(t).drop_last() =~= terms);
    assert(terms.push(t).last() == t);
}

/// Evaluation of a termwise-scaled combination is the scaled evaluation.
pub proof fn lemma_lc_eval_scaled(
    s1: Seq<(Variable, Fp)>,
    s2: Seq<(Variable, Fp)>,
    k: nat,
    inputs: Seq<nat>,
    aux: Seq<nat>,
)
    requires
        s2.len() == s1.len(),
        forall|i: int|
            0 <= i < s1.len() ==> (#[trigger] s2[i]).0 == s1[i].0 && s2[i].1.n() == fmul(
                k,
                s1[i].1.n(),
            ),
    ensures
        lc_eval(s2, inputs, aux) == fmul(k, lc_eval(s1, inputs, aux)),
    decreases s1.len(),
{
    if s1.len() == 0 {
        lemma_fmul_zero(k);
    } else {
        lemma_lc_eval_scaled(s1.drop_last(), s2.drop_last(), k, inputs, aux);
        let x = lc_eval(s1.drop_last(), inputs, aux);
        let c = s1.last().1.n();
        let v = var_val(s1.last().0, inputs, aux);
        assert(s2.last().0 == s1.last().0 && s2.last().1.n() == fmul(k, c));
        lemma_fmul_assoc(k, c, v);
        lemma_fmul_distrib(k, x, fmul(c, v));
        assert(fmul(fmul(k, c), v) == fmul(k, fmul(c, v)));
    }
}

/// A merged coefficient is always a canonical residue.
pub proof fn lemma_lc_coeff_bound(terms: Seq<(Variable, Fp)>, v: Variable)
    ensures
        lc_coeff(terms, v) < prime(),
    decreases terms.len(),
{
    broadcast use lemma_fadd_bound;

    if terms.len() > 0 {
        lemma_lc_coeff_bound(terms.drop_last(), v);
    }
}

/// Replacing one entry's coefficient shifts the evaluation by the change,
/// stated symmetrically to avoid subtraction.
#[verifier::rlimit(100)]
#[verifier::spinoff_prover]
proof fn lemma_lc_eval_update(
    terms: Seq<(Variable, Fp)>,
    k: int,
    c1: Fp,
    inputs: Seq<nat>,
    aux: Seq<nat>,
)
    requires
        0 <= k < terms.len(),
    ensures
        fadd(
            lc_eval(terms.update(k, (terms[k].0, c1)), inputs, aux),
            fmul(terms[k].1.n(), var_val(terms[k].0, inputs, aux)),
        ) == fadd(
            lc_eval(terms, inputs, aux),
            fmul(c1.n(), var_val(terms[k].0, inputs, aux)),
        ),
    decreases terms.len(),
{
    let u = terms[k].0;
    let c0 = terms[k].1;
    let upd = terms.update(k, (u, c1));
    let x = var_val(u, inputs, aux);
    if k == terms.len() - 1 {
        assert(upd.drop_last() =~= terms.drop_last());
        assert(upd.last() == (u, c1));
        let e = lc_eval(terms.drop_last(), inputs, aux);
        lemma_fadd_assoc_free(e, fmul(c1.n(), x), fmul(c0.n(), x));
    } else {
        assert(upd.drop_last() =~= terms.drop_last().update(k, (u, c1)));
        assert(upd.last() == terms.last());
        assert(terms.drop_last()[k] == terms[k]);
        lemma_lc_eval_update(terms.drop_last(), k, c1, inputs, aux);
        let e0 = lc_eval(terms.drop_last(), inputs, aux);
        let e1 = lc_eval(upd.drop_last(), inputs, aux);
        let t = fmul(terms.last().1.n(), var_val(terms.last().0, inputs, aux));
        let a0 = fmul(c0.n(), x);
        let a1 = fmul(c1.n(), x);
        assert(fadd(e1, a0) == fadd(e0, a1));
        assert(lc_eval(upd, inputs, aux) == fadd(e1, t));
        assert(lc_eval(terms, inputs, aux) == fadd(e0, t));
        assert(fadd(fadd(e1, t), a0) == fadd(e1, fadd(t, a0))) by {
            lemma_fadd_assoc_free(e1, t, a0);
        }
        assert(fadd(t, a0) == fadd(a0, t));
        assert(fadd(e1, fadd(a0, t)) == fadd(fadd(e1, a0), t)) by {
            lemma_fadd_assoc_free(e1, a0, t);
        }
        assert(fadd(fadd(e0, a1), t) == fadd(e0, fadd(a1, t))) by {
            lemma_fadd_assoc_free(e0, a1, t);
        }
        assert(fadd(a1, t) == fadd(t, a1));
        assert(fadd(e0, fadd(t, a1)) == fadd(fadd(e0, t), a1)) by {
            lemma_fadd_assoc_free(e0, t, a1);
        }
    }
}

/// Replacing one entry's coefficient shifts the merged coefficient of its
/// variable by the change, and leaves every other variable's alone.
#[verifier::rlimit(100)]
#[verifier::spinoff_prover]
proof fn lemma_lc_coeff_update(terms: Seq<(Variable, Fp)>, k: int, c1: Fp, w: Variable)
    requires
        0 <= k < terms.len(),
    ensures
        terms[k].0 != w ==> lc_coeff(terms.update(k, (terms[k].0, c1)), w) == lc_coeff(terms, w),
        terms[k].0 == w ==> fadd(
            lc_coeff(terms.update(k, (terms[k].0, c1)), w),
            terms[k].1.n(),
        ) == fadd(lc_coeff(terms, w), c1.n()),
    decreases terms.len(),
{
    let u = terms[k].0;
    let c0 = terms[k].1;
    let upd = terms.update(k, (u, c1));
    if k == terms.len() - 1 {
        assert(upd.drop_last() =~= terms.drop_last());
        assert(upd.last() == (u, c1));
        if u == w {
            let e = lc_coeff(terms.drop_last(), w);
            lemma_fadd_assoc_free(e, c1.n(), c0.n());
        }
    } else {
        assert(upd.drop_last() =~= terms.drop_last().update(k, (u, c1)));
        assert(upd.last() == terms.last());
        assert(terms.drop_last()[k] == terms[k]);
        lemma_lc_coeff_update(terms.drop_last(), k, c1, w);
        if u == w && terms.last().0 == w {
            let e0 = lc_coeff(terms.drop_last(), w);
            let e1 = lc_coeff(upd.drop_last(), w);
            let t = terms.last().1.n();
            assert(fadd(e1, c0.n()) == fadd(e0, c1.n()));
            assert(lc_coeff(upd, w) == fadd(e1, t));
            assert(lc_coeff(terms, w) == fadd(e0, t));
            assert(fadd(fadd(e1, t), c0.n()) == fadd(e1, fadd(t, c0.n()))) by {
                lemma_fadd_assoc_free(e1, t, c0.n());
            }
            assert(fadd(t, c0.n()) == fadd(c0.n(), t));
            assert(fadd(e1, fadd(c0.n(), t)) == fadd(fadd(e1, c0.n()), t)) by {
                lemma_fadd_assoc_free(e1, c0.n(), t);
            }
            assert(fadd(fadd(e0, c1.n()), t) == fadd(e0, fadd(c1.n(), t))) by {
                lemma_fadd_assoc_free(e0, c1.n(), t);
            }
            assert(fadd(c1.n(), t) == fadd(t, c1.n()));
            assert(fadd(e0, fadd(t, c1.n())) == fadd(fadd(e0, t), c1.n())) by {
                lemma_fadd_assoc_free(e0, t, c1.n());
            }
        }
    }
}

/// Extending the assignment with fresh slots does not change the value of a
/// combination whose variables all point into the original shape.
pub proof fn lemma_lc_eval_extend(
    terms: Seq<(Variable, Fp)>,
    inputs1: Seq<nat>,
    aux1: Seq<nat>,
    inputs2: Seq<nat>,
    aux2: Seq<nat>,
)
    requires
        lc_in_range(terms, inputs1.len(), aux1.len()),
        inputs1.is_prefix_of(inputs2),
        aux1.is_prefix_of(aux2),
    ensures
        lc_eval(terms, inputs2, aux2) == lc_eval(terms, inputs1, aux1),
    decreases terms.len(),
{
    if terms.len() > 0 {
        assert(lc_in_range(terms.drop_last(), inputs1.len(), aux1.len()));
        lemma_lc_eval_extend(terms.drop_last(), inputs1, aux1, inputs2, aux2);
        assert(terms.last().0.in_range(inputs1.len(), aux1.len()));
        assert(var_val(terms.last().0, inputs2, aux2) == var_val(terms.last().0, inputs1, aux1));
    }
}

/// Prefixes compose.
pub proof fn lemma_prefix_trans<T>(s1: Seq<T>, s2: Seq<T>, s3: Seq<T>)
    requires
        s1.is_prefix_of(s2),
        s2.is_prefix_of(s3),
    ensures
        s1.is_prefix_of(s3),
{
    assert(s1 =~= s3.subrange(0, s1.len() as int));
}

/// A variable's value is stable when the assignment gains fresh slots.
pub proof fn lemma_var_val_extend(
    v: Variable,
    inputs1: Seq<nat>,
    aux1: Seq<nat>,
    inputs2: Seq<nat>,
    aux2: Seq<nat>,
)
    requires
        v.in_range(inputs1.len(), aux1.len()),
        inputs1.is_prefix_of(inputs2),
        aux1.is_prefix_of(aux2),
    ensures
        var_val(v, inputs2, aux2) == var_val(v, inputs1, aux1),
{
}

/// A weighted sum of variables plus (via the constant-one input) a constant.
#[derive(Debug)]
pub struct LinearCombination {
    pub terms: Vec<(Variable, Fp)>,
}

impl Clone for LinearCombination {
    fn clone(&self) -> (r: Self)
        ensures
            r.terms@ == self.terms@,
    {
        let mut out: Vec<(Variable, Fp)> = Vec::new();
        let mut i: usize = 0;
        while i < self.terms.len()
            invariant
                i <= self.terms.len(),
                out@ == self.terms@.subrange(0, i as int),
            decreases self.terms.len() - i,
        {
            out.push(self.terms[i]);
            proof {
                assert(out@ =~= self.terms@.subrange(0, i + 1 as int));
            }
            i = i + 1;
        }
        proof {
            assert(out@ =~= self.terms@);
        }
        LinearCombination { terms: out }
    }
}

impl Default for LinearCombination {
    fn default() -> (r: Self)
        ensures
            r.terms@.len() == 0,
    {
        LinearCombination { terms: Vec::new() }
    }
}

impl LinearCombination {
    /// The empty combination, evaluating to zero.
    pub fn zero() -> (r: Self)
        ensures
            r.terms@.len() == 0,
    {
        LinearCombination { terms: Vec::new() }
    }

    /// The combination consisting of one variable with coefficient one.
    pub fn from_variable(v: Variable) -> (r: Self)
        ensures
            r.terms@ =~= Seq::<(Variable, Fp)>::empty().push((v, Fp { v: 1 })),
    {
        let mut terms: Vec<(Variable, Fp)> = Vec::new();
        terms.push((v, Fp { v: 1 }));
        LinearCombination { terms }
    }

    /// Adds `coeff · var` to the combination.
    pub fn add_term(self, coeff: Fp, var: Variable) -> (r: Self)
        ensures
            r.terms@ == self.terms@.push((var, coeff)),
    {
        let mut terms = self.terms;
        terms.push((var, coeff));
        LinearCombination { terms }
    }

    /// Adds `1 · var` to the combination.
    pub fn add_var(self, var: Variable) -> (r: Self)
        ensures
            r.terms@ == self.terms@.push((var, Fp { v: 1 })),
    {
        self.add_term(Fp { v: 1 }, var)
    }

    /// Subtracts `var`: adds it with coefficient minus one.
    pub fn sub_var(self, var: Variable) -> (r: Self)
        ensures
            r.terms@ == self.terms@.push((var, Fp { v: (MODULUS - 1) as u64 })),
            (MODULUS - 1) as nat == fneg(1),
    {
        proof {
            lemma_mod_multiples_vanish(1, -1, MODULUS as int);
            lemma_small_mod((MODULUS - 1) as nat, prime());
        }
        self.add_term(Fp { v: MODULUS - 1 }, var)
    }

    /// Adds `coeff · var`, merging with an existing entry for `var`: each
    /// variable keeps a single entry whose coefficients combine by field
    /// addition.
    pub fn merge_term(self, coeff: Fp, var: Variable) -> (r: Self)
        requires
            coeff.wf(),
            lc_coeffs_wf(self.terms@),
        ensures
            lc_coeffs_wf(r.terms@),
            lc_unique(self.terms@) ==> lc_unique(r.terms@),
            forall|w: Variable| #[trigger] lc_mentions(r.terms@, w) <==> (lc_mentions(
                self.terms@,
                w,
            ) || w == var),
            forall|w: Variable| #[trigger] lc_coeff(r.terms@, w) == (if w == var {
                fadd(lc_coeff(self.terms@, w), coeff.n())
            } else {
                lc_coeff(self.terms@, w)
            }),
            forall|inp: Seq<nat>, ax: Seq<nat>| #[trigger] lc_eval(r.terms@, inp, ax) == fadd(
                lc_eval(self.terms@, inp, ax),
                fmul(coeff.n(), var_val(var, inp, ax)),
            ),
    {
        let n = self.terms.len();
        let mut k: usize = n;
        let mut j: usize = 0;
        while j < n
            invariant
                n == self.terms@.len(),
                j <= n,
                k == n || (k < n && self.terms@[k as int].0 == var),
                k == n ==> forall|t: int| 0 <= t < j ==> (#[trigger] self.terms@[t]).0 != var,
            decreases n - j,
        {
            if k == n && self.terms[j].0 == var {
                k = j;
            }
            j = j + 1;
        }
        if k == n {
            // no entry yet: a fresh one
            let mut terms = self.terms;
            terms.push((var, coeff));
            let r = LinearCombination { terms };
            proof {
                assert(r.terms@.drop_last() =~= self.terms@);
                assert(r.terms@.last() == (var, coeff));
                broadcast use lemma_lc_eval_push;

                assert forall|w: Variable| #[trigger] lc_mentions(r.terms@, w) <==> (lc_mentions(
                    self.terms@,
                    w,
                ) || w == var) by {
                    if lc_mentions(self.terms@, w) {
                        let j = choose|j: int|
                            0 <= j < self.terms@.len() && (#[trigger] self.terms@[j]).0 == w;
                        assert(r.terms@[j].0 == w);
                    }
                    assert(r.terms@[r.terms@.len() - 1].0 == var);
                    if lc_mentions(r.terms@, w) && w != var {
                        let j = choose|j: int|
                            0 <= j < r.terms@.len() && (#[trigger] r.terms@[j]).0 == w;
                        assert(j < self.terms@.len());
                        assert(self.terms@[j].0 == w);
                    }
                }
                if lc_unique(self.terms@) {
                    assert forall|i: int, j: int|
                        0 <= i < j < r.terms@.len() implies (#[trigger] r.terms@[i]).0 != (
                    #[trigger] r.terms@[j]).0 by {
                        if j == r.terms@.len() - 1 {
                            assert(r.terms@[i] == self.terms@[i]);
                        }
                    }
                }
            }
            r
        } else {
            // merge into the existing entry
            let newc = self.terms[k].1.add(coeff);
            let ghost orig = self.terms@;
            let mut terms: Vec<(Variable, Fp)> = Vec::new();
            let mut i: usize = 0;
            while i < n
                invariant
                    n == orig.len(),
                    k < n,
                    orig == self.terms@,
                    orig[k as int].0 == var,
                    newc.wf(),
                    newc.n() == fadd(orig[k as int].1.n(), coeff.n()),
                    i <= n,
                    terms@.len() == i,
                    forall|j: int|
                        0 <= j < i ==> #[trigger] terms@[j] == (if j == k {
                            (var, newc)
                        } else {
                            orig[j]
                        }),
                decreases n - i,
            {
                let (u, c) = self.terms[i];
                if i == k {
                    terms.push((var, newc));
                } else {
                    terms.push((u, c));
                }
                i = i + 1;
            }
            let r = LinearCombination { terms };
            proof {
                assert(r.terms@ =~= orig.update(k as int, (var, newc)));
                assert forall|inp: Seq<nat>, ax: Seq<nat>| #[trigger] lc_eval(r.terms@, inp, ax)
                    == fadd(lc_eval(orig, inp, ax), fmul(coeff.n(), var_val(var, inp, ax))) by {
                    broadcast use lemma_fadd_bound, lemma_fmul_bound;

                    let x = var_val(var, inp, ax);
                    let c0 = orig[k as int].1;
                    lemma_lc_eval_update(orig, k as int, newc, inp, ax);
                    assert(fadd(lc_eval(r.terms@, inp, ax), fmul(c0.n(), x)) == fadd(
                        lc_eval(orig, inp, ax),
                        fmul(newc.n(), x),
                    ));
                    assert(fmul(newc.n(), x) == fadd(fmul(c0.n(), x), fmul(coeff.n(), x))) by {
                        lemma_fmul_comm(newc.n(), x);
                        lemma_fmul_distrib(x, c0.n(), coeff.n());
                        lemma_fmul_comm(x, c0.n());
                        lemma_fmul_comm(x, coeff.n());
                    }
                    let e = lc_eval(orig, inp, ax);
                    let cfx = fmul(coeff.n(), x);
                    let c0x = fmul(c0.n(), x);
                    assert(fadd(e, fadd(c0x, cfx)) == fadd(e, fadd(cfx, c0x)));
                    lemma_fadd_assoc_free(e, cfx, c0x);
                    assert(fadd(lc_eval(r.terms@, inp, ax), c0x) == fadd(fadd(e, cfx), c0x));
                    assert(lc_eval(r.terms@, inp, ax) < prime()) by {
                        if r.terms@.len() == 0 {
                        } else {
                        }
                    }
                    assert(fadd(e, cfx) < prime());
                    lemma_fadd_cancel(lc_eval(r.terms@, inp, ax), fadd(e, cfx), c0x);
                }
                assert forall|w: Variable| #[trigger] lc_coeff(r.terms@, w) == (if w == var {
                    fadd(lc_coeff(orig, w), coeff.n())
                } else {
                    lc_coeff(orig, w)
                }) by {
                    let c0 = orig[k as int].1;
                    lemma_lc_coeff_update(orig, k as int, newc, w);
                    if w == var {
                        assert(fadd(lc_coeff(r.terms@, w), c0.n()) == fadd(
                            lc_coeff(orig, w),
                            newc.n(),
                        ));
                        let cw = lc_coeff(orig, w);
                        lemma_fadd_assoc_free(cw, coeff.n(), c0.n());
                        assert(fadd(c0.n(), coeff.n()) == fadd(coeff.n(), c0.n()));
                        lemma_fadd_assoc_free(cw, c0.n(), coeff.n());
                        assert(fadd(cw, newc.n()) == fadd(fadd(cw, coeff.n()), c0.n()));
                        lemma_lc_coeff_bound(r.terms@, w);
                        broadcast use lemma_fadd_bound;

                        lemma_fadd_cancel(lc_coeff(r.terms@, w), fadd(cw, coeff.n()), c0.n());
                    }
                }
                assert forall|w: Variable| #[trigger] lc_mentions(r.terms@, w) <==> (lc_mentions(
                    orig,
                    w,
                ) || w == var) by {
                    assert(r.terms@[k as int].0 == var);
                    if lc_mentions(orig, w) {
                        let j = choose|j: int|
                            0 <= j < orig.len() && (#[trigger] orig[j]).0 == w;
                        assert(r.terms@[j].0 == w);
                    }
                    if lc_mentions(r.terms@, w) && w != var {
                        let j = choose|j: int|
                            0 <= j < r.terms@.len() && (#[trigger] r.terms@[j]).0 == w;
                        assert(orig[j].0 == w);
                    }
                }
                if lc_unique(orig) {
                    assert forall|i2: int, j2: int|
                        0 <= i2 < j2 < r.terms@.len() implies (#[trigger] r.terms@[i2]).0 != (
                    #[trigger] r.terms@[j2]).0 by {
                        assert(r.terms@[i2].0 == orig[i2].0);
                        assert(r.terms@[j2].0 == orig[j2].0);
                    }
                }
                assert forall|j: int| 0 <= j < r.terms@.len() implies (#[trigger] r.terms@[j]).1.wf()
                    by {
                    if j != k {
                        assert(r.terms@[j] == orig[j]);
                    }
                }
            }
            r
        }
    }

    /// Merges every term of `other` into this combination by key.
    pub fn merge_lc(self, other: &LinearCombination) -> (r: Self)
        requires
            lc_coeffs_wf(self.terms@),
            lc_coeffs_wf(other.terms@),
        ensures
            lc_coeffs_wf(r.terms@),
            lc_unique(self.terms@) ==> lc_unique(r.terms@),
            forall|w: Variable| #[trigger] lc_coeff(r.terms@, w) == fadd(
                lc_coeff(self.terms@, w),
                lc_coeff(other.terms@, w),
            ),
            forall|inp: Seq<nat>, ax: Seq<nat>| #[trigger] lc_eval(r.terms@, inp, ax) == fadd(
                lc_eval(self.terms@, inp, ax),
                lc_eval(other.terms@, inp, ax),
            ),
    {
        let ghost base = self.terms@;
        let mut acc = self;
        let mut i: usize = 0;
        proof {
            assert forall|w: Variable| #[trigger] lc_coeff(base, w) == fadd(
                lc_coeff(base, w),
                lc_coeff(other.terms@.subrange(0, 0), w),
            ) by {
                assert(other.terms@.subrange(0, 0) =~= Seq::<(Variable, Fp)>::empty());
                lemma_lc_coeff_bound(base, w);
                lemma_fadd_zero(lc_coeff(base, w));
            }
            assert forall|inp: Seq<nat>, ax: Seq<nat>| #[trigger] lc_eval(base, inp, ax) == fadd(
                lc_eval(base, inp, ax),
                lc_eval(other.terms@.subrange(0, 0), inp, ax),
            ) by {
                assert(other.terms@.subrange(0, 0) =~= Seq::<(Variable, Fp)>::empty());
                broadcast use lemma_fadd_bound;

                if base.len() == 0 {
                    lemma_fadd_zero(0);
                } else {
                    lemma_fadd_zero(lc_eval(base, inp, ax));
                }
            }
        }
        while i < other.terms.len()
            invariant
                i <= other.terms@.len(),
                base == self.terms@,
                lc_coeffs_wf(other.terms@),
                lc_coeffs_wf(acc.terms@),
                lc_unique(base) ==> lc_unique(acc.terms@),
                forall|w: Variable| #[trigger] lc_coeff(acc.terms@, w) == fadd(
                    lc_coeff(base, w),
                    lc_coeff(other.terms@.subrange(0, i as int), w),
                ),
                forall|inp: Seq<nat>, ax: Seq<nat>| #[trigger] lc_eval(acc.terms@, inp, ax)
                    == fadd(
                    lc_eval(base, inp, ax),
                    lc_eval(other.terms@.subrange(0, i as int), inp, ax),
                ),
            decreases other.terms@.len() - i,
        {
            let (u, c) = other.terms[i];
            assert(other.terms@[i as int].1.wf());
            let ghost prev = acc.terms@;
            acc = acc.merge_term(c, u);
            proof {
                let pre = other.terms@.subrange(0, i as int);
                let post = other.terms@.subrange(0, i + 1 as int);
                assert(post.drop_last() =~= pre);
                assert(post.last() == (u, c));
                assert forall|w: Variable| #[trigger] lc_coeff(acc.terms@, w) == fadd(
                    lc_coeff(base, w),
                    lc_coeff(post, w),
                ) by {
                    if w == u {
                        lemma_fadd_assoc_free(lc_coeff(base, w), lc_coeff(pre, w), c.n());
                    }
                }
                assert forall|inp: Seq<nat>, ax: Seq<nat>| #[trigger] lc_eval(acc.terms@, inp, ax)
                    == fadd(lc_eval(base, inp, ax), lc_eval(post, inp, ax)) by {
                    broadcast use lemma_lc_eval_push;

                    lemma_fadd_assoc_free(
                        lc_eval(base, inp, ax),
                        lc_eval(pre, inp, ax),
                        fmul(c.n(), var_val(u, inp, ax)),
                    );
                }
            }
            i = i + 1;
        }
        proof {
            assert(other.terms@.subrange(0, other.terms@.len() as int) =~= other.terms@);
        }
        acc
    }

    /// Every coefficient multiplied by `k`.
    pub fn scaled(&self, k: Fp) -> (r: Self)
        requires
            k.wf(),
            lc_coeffs_wf(self.terms@),
        ensures
            r.terms@.len() == self.terms@.len(),
            forall|i: int|
                0 <= i < self.terms@.len() ==> (#[trigger] r.terms@[i]).0 == self.terms@[i].0
                    && r.terms@[i].1.n() == fmul(k.n(), self.terms@[i].1.n())
                    && r.terms@[i].1.wf(),
    {
        let mut terms: Vec<(Variable, Fp)> = Vec::new();
        let mut i: usize = 0;
        while i < self.terms.len()
            invariant
                i <= self.terms.len(),
                k.wf(),
                lc_coeffs_wf(self.terms@),
                terms@.len() == i,
                forall|j: int|
                    0 <= j < i ==> (#[trigger] terms@[j]).0 == self.terms@[j].0
                        && terms@[j].1.n() == fmul(k.n(), self.terms@[j].1.n())
                        && terms@[j].1.wf(),
            decreases self.terms.len() - i,
        {
            let (v, c) = self.terms[i];
            assert(self.terms@[i as int].1.wf());
            terms.push((v, c.mul(k)));
            proof {
                assert(c.n() * k.n() == k.n() * c.n()) by (nonlinear_arith);
            }
            i = i + 1;
        }
        LinearCombination { terms }
    }

    pub fn len(&self) -> (r: usize)
        ensures
            r == self.terms@.len(),
    {
        self.terms.len()
    }

    /// The term at one position, for inspection.
    pub fn term_at(&self, i: usize) -> (r: (Variable, Fp))
        requires
            i < self.terms@.len(),
        ensures
            r == self.terms@[i as int],
    {
        self.terms[i]
    }
}

/// One rank-1 relation `A·x * B·x = C·x`.
#[derive(Clone, Debug)]
pub struct Constraint {
    pub a: LinearCombination,
    pub b: LinearCombination,
    pub c: LinearCombination,
}

impl Constraint {
    /// Coefficients canonical, variables inside the given shape.
    pub open spec fn wf(self, ni: nat, na: nat) -> bool {
        &&& lc_coeffs_wf(self.a.terms@)
        &&& lc_coeffs_wf(self.b.terms@)
        &&& lc_coeffs_wf(self.c.terms@)
        &&& lc_in_range(self.a.terms@, ni, na)
        &&& lc_in_range(self.b.terms@, ni, na)
        &&& lc_in_range(self.c.terms@, ni, na)
    }
}

/// Whether one constraint holds under an assignment.
pub open spec fn constraint_holds(c: Constraint, inputs: Seq<nat>, aux: Seq<nat>) -> bool {
    fmul(lc_eval(c.a.terms@, inputs, aux), lc_eval(c.b.terms@, inputs, aux)) == lc_eval(
        c.c.terms@,
        inputs,
        aux,
    )
}

/// An R1CS instance under construction.
#[derive(Debug)]
pub struct ConstraintSystem {
    /// Whether concrete witness values are tracked.
    pub witness: bool,
    /// Assignment of the public inputs; slot 0 is the constant one.
    pub inputs: Vec<Fp>,
    /// Assignment of the private auxiliary variables.
    pub aux: Vec<Fp>,
    /// The registered constraints, append-only.
    pub constraints: Vec<Constraint>,
}

impl ConstraintSystem {
    pub open spec fn input_vals(self) -> Seq<nat> {
        vals(self.inputs@)
    }

    pub open spec fn aux_vals(self) -> Seq<nat> {
        vals(self.aux@)
    }

    pub open spec fn ni(self) -> nat {
        self.inputs@.len()
    }

    pub open spec fn na(self) -> nat {
        self.aux@.len()
    }

    pub open spec fn wf(self) -> bool {
        &&& self.inputs@.len() >= 1
        &&& self.inputs@[0].n() == 1
        &&& forall|i: int| 0 <= i < self.inputs@.len() ==> (#[trigger] self.inputs@[i]).wf()
        &&& forall|i: int| 0 <= i < self.aux@.len() ==> (#[trigger] self.aux@[i]).wf()
        &&& forall|k: int|
            0 <= k < self.constraints@.len() ==> (#[trigger] self.constraints@[k]).wf(
                self.ni(),
                self.na(),
            )
    }

    /// Whether every registered constraint holds under the given assignment.
    pub open spec fn sat_with(self, inputs: Seq<nat>, aux: Seq<nat>) -> bool {
        forall|k: int|
            0 <= k < self.constraints@.len() ==> constraint_holds(
                #[trigger] self.constraints@[k],
                inputs,
                aux,
            )
    }

    /// Whether the running assignment satisfies every registered constraint.
    pub open spec fn sat(self) -> bool {
        self.sat_with(self.input_vals(), self.aux_vals())
    }

    /// The running assignment has the system's own shape and is canonical.
    pub proof fn lemma_own_assign_wf(self)
        requires
            self.wf(),
        ensures
            wf_assign(self.input_vals(), self.aux_vals(), self.ni(), self.na()),
    {
    }

    /// A fresh system: one constant input, no witnesses, no constraints.
    pub fn new(witness: bool) -> (r: Self)
        ensures
            r.wf(),
            r.witness == witness,
            r.ni() == 1,
            r.na() == 0,
            r.constraints@.len() == 0,
            r.sat(),
    {
        let mut inputs: Vec<Fp> = Vec::new();
        inputs.push(Fp { v: 1 });
        ConstraintSystem { witness, inputs, aux: Vec::new(), constraints: Vec::new() }
    }

    /// The handle of the constant-one input.
    pub fn one() -> (r: Variable)
        ensures
            r.0 == Index::Input(0),
    {
        Variable(Index::Input(0))
    }

    /// Allocates a private auxiliary variable. In witness mode the value is
    /// required and recorded; in setup mode a placeholder slot is added.
    pub fn allocate(&mut self, value: Option<Fp>) -> (r: Result<Variable, SynthesisError>)
        requires
            old(self).wf(),
            value matches Some(f) ==> f.wf(),
        ensures
            final(self).witness == old(self).witness,
            final(self).inputs@ == old(self).inputs@,
            match r {
                Ok(v) => {
                    &&& final(self).wf()
                    &&& (v.0 matches Index::Aux(k) && k == old(self).aux@.len())
                    &&& v.in_range(final(self).ni(), final(self).na())
                    &&& final(self).constraints@ == old(self).constraints@
                    &&& final(self).na() == old(self).na() + 1
                    &&& (old(self).witness ==> (value matches Some(f) && final(self).aux@ == old(
                        self,
                    ).aux@.push(f)))
                    &&& (!old(self).witness ==> final(self).aux@ == old(self).aux@.push(
                        Fp { v: 0 },
                    ))
                    &&& old(self).aux_vals().is_prefix_of(final(self).aux_vals())
                },
                Err(e) => {
                    &&& *final(self) == *old(self)
                    &&& e == SynthesisError::AssignmentMissing
                    &&& old(self).witness
                    &&& value is None
                },
            },
            r is Ok <==> (old(self).witness ==> value is Some),
    {
        let pushed: Fp = if self.witness {
            match value {
                Some(f) => f,
                None => {
                    return Err(SynthesisError::AssignmentMissing);
                },
            }
        } else {
            Fp { v: 0 }
        };
        let idx = self.aux.len();
        self.aux.push(pushed);
        proof {
            assert(self.aux_vals() =~= old(self).aux_vals().push(pushed.n()));
            assert(old(self).aux_vals().is_prefix_of(self.aux_vals()));
        }
        Ok(Variable(Index::Aux(idx)))
    }

    /// Allocates a public input variable.
    pub fn alloc_input(&mut self, value: Option<Fp>) -> (r: Result<Variable, SynthesisError>)
        requires
            old(self).wf(),
            value matches Some(f) ==> f.wf(),
        ensures
            final(self).witness == old(self).witness,
            final(self).aux@ == old(self).aux@,
            match r {
                Ok(v) => {
                    &&& final(self).wf()
                    &&& (v.0 matches Index::Input(k) && k == old(self).inputs@.len())
                    &&& v.in_range(final(self).ni(), final(self).na())
                    &&& final(self).constraints@ == old(self).constraints@
                    &&& final(self).ni() == old(self).ni() + 1
                    &&& (old(self).witness ==> (value matches Some(f) && final(self).inputs@
                        == old(self).inputs@.push(f)))
                    &&& (!old(self).witness ==> final(self).inputs@ == old(self).inputs@.push(
                        Fp { v: 0 },
                    ))
                    &&& old(self).input_vals().is_prefix_of(final(self).input_vals())
                },
                Err(e) => {
                    &&& *final(self) == *old(self)
                    &&& e == SynthesisError::AssignmentMissing
                    &&& old(self).witness
                    &&& value is None
                },
            },
            r is Ok <==> (old(self).witness ==> value is Some),
    {
        let pushed: Fp = if self.witness {
            match value {
                Some(f) => f,
                None => {
                    return Err(SynthesisError::AssignmentMissing);
                },
            }
        } else {
            Fp { v: 0 }
        };
        let idx = self.inputs.len();
        self.inputs.push(pushed);
        proof {
            assert(self.input_vals() =~= old(self).input_vals().push(pushed.n()));
            assert(old(self).input_vals().is_prefix_of(self.input_vals()));
            assert(self.inputs@[0] == old(self).inputs@[0]);
        }
        Ok(Variable(Index::Input(idx)))
    }

    /// Registers the constraint `a · b = c`.
    pub fn enforce(&mut self, a: LinearCombination, b: LinearCombination, c: LinearCombination)
        requires
            old(self).wf(),
            lc_coeffs_wf(a.terms@),
            lc_coeffs_wf(b.terms@),
            lc_coeffs_wf(c.terms@),
            lc_in_range(a.terms@, old(self).ni(), old(self).na()),
            lc_in_range(b.terms@, old(self).ni(), old(self).na()),
            lc_in_range(c.terms@, old(self).ni(), old(self).na()),
        ensures
            final(self).wf(),
            final(self).witness == old(self).witness,
            final(self).inputs@ == old(self).inputs@,
            final(self).aux@ == old(self).aux@,
            final(self).constraints@ == old(self).constraints@.push(Constraint { a, b, c }),
            final(self).constraints@.last() == (Constraint { a, b, c }),
    {
        self.constraints.push(Constraint { a, b, c });
    }

    pub fn num_constraints(&self) -> (r: usize)
        ensures
            r == self.constraints@.len(),
    {
        self.constraints.len()
    }

    /// The assigned value of a variable, for inspection in tests.
    pub fn get(&self, v: Variable) -> (r: Fp)
        requires
            self.wf(),
            v.in_range(self.ni(), self.na()),
        ensures
            r.wf(),
            r.n() == var_val(v, self.input_vals(), self.aux_vals()),
    {
        match v.0 {
            Index::Input(i) => self.inputs[i],
            Index::Aux(i) => self.aux[i],
        }
    }

    /// Overwrites the assigned value of a variable: the tampering primitive
    /// used to probe which assignments the constraints reject.
    pub fn set(&mut self, v: Variable, f: Fp)
        requires
            old(self).wf(),
            v.in_range(old(self).ni(), old(self).na()),
            v.0 != Index::Input(0),
            f.wf(),
        ensures
            final(self).wf(),
            final(self).witness == old(self).witness,
            final(self).constraints@ == old(self).constraints@,
            final(self).ni() == old(self).ni(),
            final(self).na() == old(self).na(),
            match v.0 {
                Index::Input(i) => final(self).input_vals() == old(self).input_vals().update(
                    i as int,
                    f.n(),
                ) && final(self).aux@ == old(self).aux@,
                Index::Aux(i) => final(self).aux_vals() == old(self).aux_vals().update(
                    i as int,
                    f.n(),
                ) && final(self).inputs@ == old(self).inputs@,
            },
    {
        match v.0 {
            Index::Input(i) => {
                self.inputs[i] = f;
                proof {
                    assert(self.input_vals() =~= old(self).input_vals().update(i as int, f.n()));
                }
            },
            Index::Aux(i) => {
                self.aux[i] = f;
                proof {
                    assert(self.aux_vals() =~= old(self).aux_vals().update(i as int, f.n()));
                }
            },
        }
    }

    /// Evaluates one combination under the running assignment.
    fn eval_lc(&self, lc: &LinearCombination) -> (r: Fp)
        requires
            self.wf(),
            lc_coeffs_wf(lc.terms@),
            lc_in_range(lc.terms@, self.ni(), self.na()),
        ensures
            r.wf(),
            r.n() == lc_eval(lc.terms@, self.input_vals(), self.aux_vals()),
    {
        let mut acc = Fp { v: 0 };
        let mut i: usize = 0;
        while i < lc.terms.len()
            invariant
                self.wf(),
                lc_coeffs_wf(lc.terms@),
                lc_in_range(lc.terms@, self.ni(), self.na()),
                i <= lc.terms@.len(),
                acc.wf(),
                acc.n() == lc_eval(lc.terms@.subrange(0, i as int), self.input_vals(), self.aux_vals()),
            decreases lc.terms@.len() - i,
        {
            let (v, c) = lc.terms[i];
            assert(lc.terms@[i as int].1.wf());
            assert(lc.terms@[i as int].0.in_range(self.ni(), self.na()));
            let val = self.get(v);
            acc = acc.add(c.mul(val));
            proof {
                let pre = lc.terms@.subrange(0, i as int);
                let post = lc.terms@.subrange(0, i + 1 as int);
                assert(post.drop_last() =~= pre);
                assert(post.last() == lc.terms@[i as int]);
            }
            i = i + 1;
        }
        proof {
            assert(lc.terms@.subrange(0, lc.terms@.len() as int) =~= lc.terms@);
        }
        acc
    }

    /// Whether the running assignment satisfies every registered constraint.
    pub fn is_satisfied(&self) -> (r: bool)
        requires
            self.wf(),
        ensures
            r == self.sat(),
    {
        let mut k: usize = 0;
        while k < self.constraints.len()
            invariant
                self.wf(),
                k <= self.constraints@.len(),
                forall|j: int|
                    0 <= j < k ==> constraint_holds(
                        #[trigger] self.constraints@[j],
                        self.input_vals(),
                        self.aux_vals(),
                    ),
            decreases self.constraints@.len() - k,
        {
            let cst = &self.constraints[k];
            assert(self.constraints@[k as int].wf(self.ni(), self.na()));
            let ea = self.eval_lc(&cst.a);
            let eb = self.eval_lc(&cst.b);
            let ec = self.eval_lc(&cst.c);
            if ea.mul(eb) != ec {
                assert(!constraint_holds(
                    self.constraints@[k as int],
                    self.input_vals(),
                    self.aux_vals(),
                ));
                return false;
            }
            k = k + 1;
        }
        true
    }

    /// Which constraint fails first under the running assignment, if any.
    pub fn which_is_unsatisfied(&self) -> (r: Option<usize>)
        requires
            self.wf(),
        ensures
            match r {
                Some(k) => !constraint_holds(
                    self.constraints@[k as int],
                    self.input_vals(),
                    self.aux_vals(),
                ) && k < self.constraints@.len(),
                None => self.sat(),
            },
    {
        let mut k: usize = 0;
        while k < self.constraints.len()
            invariant
                self.wf(),
                k <= self.constraints@.len(),
                forall|j: int|
                    0 <= j < k ==> constraint_holds(
                        #[trigger] self.constraints@[j],
                        self.input_vals(),
                        self.aux_vals(),
                    ),
            decreases self.constraints@.len() - k,
        {
            let cst = &self.constraints[k];
            assert(self.constraints@[k as int].wf(self.ni(), self.na()));
            let ea = self.eval_lc(&cst.a);
            let eb = self.eval_lc(&cst.b);
            let ec = self.eval_lc(&cst.c);
            if ea.mul(eb) != ec {
                return Some(k);
            }
            k = k + 1;
        }
        None
    }
}

/// Extending the assignment with fresh slots, while leaving the constraint
/// list alone, does not change satisfaction.
pub proof fn lemma_sat_extend(pre: ConstraintSystem, post: ConstraintSystem)
    requires
        pre.wf(),
        post.constraints@ == pre.constraints@,
        pre.input_vals().is_prefix_of(post.input_vals()),
        pre.aux_vals().is_prefix_of(post.aux_vals()),
    ensures
        post.sat() == pre.sat(),
        forall|k: int|
            0 <= k < pre.constraints@.len() ==> constraint_holds(
                #[trigger] pre.constraints@[k],
                post.input_vals(),
                post.aux_vals(),
            ) == constraint_holds(pre.constraints@[k], pre.input_vals(), pre.aux_vals()),
{
    assert forall|k: int| 0 <= k < pre.constraints@.len() implies constraint_holds(
        #[trigger] pre.constraints@[k],
        post.input_vals(),
        post.aux_vals(),
    ) == constraint_holds(pre.constraints@[k], pre.input_vals(), pre.aux_vals()) by {
        let cst = pre.constraints@[k];
        assert(cst.wf(pre.ni(), pre.na()));
        lemma_lc_eval_extend(
            cst.a.terms@,
            pre.input_vals(),
            pre.aux_vals(),
            post.input_vals(),
            post.aux_vals(),
        );
        lemma_lc_eval_extend(
            cst.b.terms@,
            pre.input_vals(),
            pre.aux_vals(),
            post.input_vals(),
            post.aux_vals(),
        );
        lemma_lc_eval_extend(
            cst.c.terms@,
            pre.input_vals(),
            pre.aux_vals(),
            post.input_vals(),
            post.aux_vals(),
        );
    }
}

/// Appending one constraint under an unchanged assignment: the system is
/// satisfied exactly when it was before and the new constraint holds.
pub proof fn lemma_sat_push(pre: ConstraintSystem, post: ConstraintSystem, c: Constraint)
    requires
        post.constraints@ == pre.constraints@.push(c),
        post.input_vals() == pre.input_vals(),
        post.aux_vals() == pre.aux_vals(),
    ensures
        post.sat() == (pre.sat() && constraint_holds(c, post.input_vals(), post.aux_vals())),
{
    assert(post.constraints@.last() == c);
    assert forall|k: int| 0 <= k < pre.constraints@.len() implies #[trigger] post.constraints@[k]
        == pre.constraints@[k] by {}
    if pre.sat() && constraint_holds(c, post.input_vals(), post.aux_vals()) {
        assert forall|k: int| 0 <= k < post.constraints@.len() implies constraint_holds(
            #[trigger] post.constraints@[k],
            post.input_vals(),
            post.aux_vals(),
        ) by {
            if k < pre.constraints@.len() {
                assert(constraint_holds(pre.constraints@[k], pre.input_vals(), pre.aux_vals()));
            }
        }
    }
    if post.sat() {
        assert forall|k: int| 0 <= k < pre.constraints@.len() implies constraint_holds(
            #[trigger] pre.constraints@[k],
            pre.input_vals(),
            pre.aux_vals(),
        ) by {
            assert(constraint_holds(post.constraints@[k], post.input_vals(), post.aux_vals()));
        }
        assert(constraint_holds(c, post.input_vals(), post.aux_vals()));
    }
}

} // verus!
