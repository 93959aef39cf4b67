//! Single-bit witnesses and the boolean view the numeric gadgets consume.
//!
//! An allocated bit is a witness variable constrained to zero or one. A
//! `Boolean` is an allocated bit, its logical negation, or a literal
//! constant; the numeric gadgets consume it only through its optional value
//! and its weighted linear combination.

use vstd::prelude::*;
use crate::field::{
    Fp, MODULUS, prime, fadd, fsub, fneg, fmul, lemma_fadd_bound, lemma_fmul_bound,
    lemma_fsub_bound, lemma_fadd_zero, lemma_fmul_one, lemma_fmul_zero, lemma_fmul_comm,
    lemma_fmul_neg_one, lemma_fadd_fneg, lemma_fsub_eq_zero, lemma_bool_constraint,
    lemma_no_zero_divisors, lemma_fmul_fneg, lemma_fmul_fsub,
};
use crate::cs::{
    Index, Variable, SynthesisError, ConstraintSystem, LinearCombination, Constraint, var_val,
    wf_assign, lc_eval, lc_coeffs_wf, lc_in_range, constraint_holds, lemma_lc_eval_push,
    lemma_sat_extend, lemma_sat_push,
};

verus! {

/// A boolean as a canonical residue.
pub open spec fn b2n(b: bool) -> nat {
    if b {
        1
    } else {
        0
    }
}

/// Whether a residue is a valid bit value.
pub open spec fn is_bit_val(x: nat) -> bool {
    x == 0 || x == 1
}

/// A witness variable constrained to the values zero and one.
#[derive(Clone, Copy, Debug)]
pub struct AllocatedBit {
    pub value: Option<bool>,
    pub variable: Variable,
}

impl AllocatedBit {
    /// The handle is in range, and in witness mode the hint matches the
    /// running assignment.
    pub open spec fn wf(self, cs: ConstraintSystem) -> bool {
        &&& self.variable.in_range(cs.ni(), cs.na())
        &&& (cs.witness ==> (self.value matches Some(b) && var_val(
            self.variable,
            cs.input_vals(),
            cs.aux_vals(),
        ) == b2n(b)))
    }

    pub fn get_value(&self) -> (r: Option<bool>)
        ensures
            r == self.value,
    {
        self.value
    }

    pub fn get_variable(&self) -> (r: Variable)
        ensures
            r == self.variable,
    {
        self.variable
    }

    /// Well-formedness is stable when the system gains fresh slots.
    pub proof fn lemma_wf_extend(self, pre: ConstraintSystem, post: ConstraintSystem)
        requires
            self.wf(pre),
            pre.input_vals().is_prefix_of(post.input_vals()),
            pre.aux_vals().is_prefix_of(post.aux_vals()),
            post.witness == pre.witness,
        ensures
            self.wf(post),
    {
        crate::cs::lemma_var_val_extend(
            self.variable,
            pre.input_vals(),
            pre.aux_vals(),
            post.input_vals(),
            post.aux_vals(),
        );
    }

    /// Allocates a bit witness and registers the boolean constraint
    /// `(1 - x) * x = 0`, which an assignment satisfies exactly when the
    /// bit's slot holds zero or one.
    pub fn allocate(cs: &mut ConstraintSystem, value: Option<bool>) -> (r: Result<
        AllocatedBit,
        SynthesisError,
    >)
        requires
            old(cs).wf(),
        ensures
            final(cs).witness == old(cs).witness,
            r is Ok <==> (old(cs).witness ==> value is Some),
            match r {
                Ok(bit) => {
                    &&& final(cs).wf()
                    &&& final(cs).inputs@ == old(cs).inputs@
                    &&& old(cs).aux_vals().is_prefix_of(final(cs).aux_vals())
                    &&& bit.wf(*final(cs))
                    &&& bit.value == value
                    &&& (bit.variable.0 matches Index::Aux(k) && k == old(cs).aux@.len())
                    &&& final(cs).na() == old(cs).na() + 1
                    &&& old(cs).constraints@.is_prefix_of(final(cs).constraints@)
                    &&& final(cs).constraints@.len() == old(cs).constraints@.len() + 1
                    &&& (forall|inp: Seq<nat>, ax: Seq<nat>|
                        wf_assign(inp, ax, final(cs).ni(), final(cs).na()) ==> (
                        #[trigger] constraint_holds(final(cs).constraints@.last(), inp, ax)
                            <==> is_bit_val(var_val(bit.variable, inp, ax))))
                    &&& (old(cs).witness && old(cs).sat() ==> final(cs).sat())
                },
                Err(e) => *final(cs) == *old(cs) && e == SynthesisError::AssignmentMissing,
            },
    {
        let hint: Option<Fp> = match value {
            Some(true) => Some(Fp::one()),
            Some(false) => Some(Fp::zero()),
            None => None,
        };
        let var = match cs.allocate(hint) {
            Ok(v) => v,
            Err(e) => {
                return Err(e);
            },
        };
        let ghost mid = *cs;
        let one = ConstraintSystem::one();
        let a_lc = LinearCombination::zero().add_var(one).sub_var(var);
        let b_lc = LinearCombination::zero().add_var(var);
        let c_lc = LinearCombination::zero();
        proof {
            assert(lc_in_range(a_lc.terms@, cs.ni(), cs.na()));
            assert(lc_in_range(b_lc.terms@, cs.ni(), cs.na()));
            assert(lc_coeffs_wf(a_lc.terms@));
            assert(lc_coeffs_wf(b_lc.terms@));
        }
        cs.enforce(a_lc, b_lc, c_lc);
        proof {
            let post = *cs;
            let cst = post.constraints@.last();
            assert forall|inp: Seq<nat>, ax: Seq<nat>|
                wf_assign(inp, ax, post.ni(), post.na()) implies (#[trigger] constraint_holds(
                cst,
                inp,
                ax,
            ) <==> is_bit_val(var_val(var, inp, ax))) by {
                broadcast use lemma_lc_eval_push, lemma_fadd_bound, lemma_fmul_bound;

                let x = var_val(var, inp, ax);
                assert(x < prime());
                assert(var_val(one, inp, ax) == 1);
                lemma_fmul_one(1);
                lemma_fadd_zero(1);
                lemma_fmul_neg_one(x);
                lemma_fadd_fneg(1, x);
                assert(lc_eval(cst.a.terms@, inp, ax) == fsub(1, x));
                lemma_fmul_one(x);
                lemma_fadd_zero(x);
                assert(lc_eval(cst.b.terms@, inp, ax) == x);
                assert(lc_eval(cst.c.terms@, inp, ax) == 0);
                lemma_bool_constraint(x);
            }
            if old(cs).witness {
                let b = value.unwrap();
                let f = hint.unwrap();
                assert(mid.aux@ == old(cs).aux@.push(f));
                assert(post.aux@ == mid.aux@);
                assert(post.aux@[old(cs).na() as int] == f);
                assert(post.aux_vals()[old(cs).na() as int] == f.n());
                assert(var_val(var, post.input_vals(), post.aux_vals()) == f.n());
                assert(f.n() == b2n(b));
            }
            if old(cs).witness && old(cs).sat() {
                lemma_sat_extend(*old(cs), mid);
                lemma_sat_push(mid, post, cst);
                post.lemma_own_assign_wf();
                assert(is_bit_val(var_val(var, post.input_vals(), post.aux_vals())));
                assert(post.sat());
            }
        }
        Ok(AllocatedBit { value, variable: var })
    }

    /// The logical AND of two bits: allocates the result and registers
    /// `a * b = c`, which holds exactly when `c`'s slot is the product.
    pub fn and(cs: &mut ConstraintSystem, a: &AllocatedBit, b: &AllocatedBit) -> (r: Result<
        AllocatedBit,
        SynthesisError,
    >)
        requires
            old(cs).wf(),
            a.wf(*old(cs)),
            b.wf(*old(cs)),
        ensures
            final(cs).witness == old(cs).witness,
            match r {
                Ok(bit) => {
                    &&& final(cs).wf()
                    &&& final(cs).inputs@ == old(cs).inputs@
                    &&& old(cs).aux_vals().is_prefix_of(final(cs).aux_vals())
                    &&& bit.wf(*final(cs))
                    &&& a.wf(*final(cs))
                    &&& b.wf(*final(cs))
                    &&& (old(cs).witness ==> (a.value matches Some(av) && b.value matches Some(bv)
                        && bit.value == Some(av && bv)))
                    &&& (!old(cs).witness ==> bit.value is None)
                    &&& (bit.variable.0 matches Index::Aux(k) && k == old(cs).aux@.len())
                    &&& final(cs).na() == old(cs).na() + 1
                    &&& old(cs).constraints@.is_prefix_of(final(cs).constraints@)
                    &&& final(cs).constraints@.len() == old(cs).constraints@.len() + 1
                    &&& (forall|inp: Seq<nat>, ax: Seq<nat>|
                        wf_assign(inp, ax, final(cs).ni(), final(cs).na()) ==> (
                        #[trigger] constraint_holds(final(cs).constraints@.last(), inp, ax)
                            <==> fmul(var_val(a.variable, inp, ax), var_val(b.variable, inp, ax))
                            == var_val(bit.variable, inp, ax)))
                    &&& (old(cs).witness && old(cs).sat() ==> final(cs).sat())
                },
                Err(_) => false,
            },
    {
        let hint: Option<Fp> = if cs.witness {
            match (a.value, b.value) {
                (Some(av), Some(bv)) => Some(
                    if av && bv {
                        Fp::one()
                    } else {
                        Fp::zero()
                    },
                ),
                _ => None,
            }
        } else {
            None
        };
        let var = match cs.allocate(hint) {
            Ok(v) => v,
            Err(_) => {
                proof {
                    assert(false);
                }
                return Err(SynthesisError::AssignmentMissing);
            },
        };
        let ghost mid = *cs;
        let a_lc = LinearCombination::zero().add_var(a.variable);
        let b_lc = LinearCombination::zero().add_var(b.variable);
        let c_lc = LinearCombination::zero().add_var(var);
        proof {
            assert(lc_in_range(a_lc.terms@, cs.ni(), cs.na()));
            assert(lc_in_range(b_lc.terms@, cs.ni(), cs.na()));
            assert(lc_in_range(c_lc.terms@, cs.ni(), cs.na()));
        }
        cs.enforce(a_lc, b_lc, c_lc);
        proof {
            let post = *cs;
            let cst = post.constraints@.last();
            assert forall|inp: Seq<nat>, ax: Seq<nat>|
                wf_assign(inp, ax, post.ni(), post.na()) implies (#[trigger] constraint_holds(
                cst,
                inp,
                ax,
            ) <==> fmul(var_val(a.variable, inp, ax), var_val(b.variable, inp, ax)) == var_val(
                var,
                inp,
                ax,
            )) by {
                broadcast use lemma_lc_eval_push, lemma_fadd_bound, lemma_fmul_bound;

                let xa = var_val(a.variable, inp, ax);
                let xb = var_val(b.variable, inp, ax);
                let xc = var_val(var, inp, ax);
                assert(xa < prime() && xb < prime() && xc < prime());
                lemma_fmul_one(xa);
                lemma_fadd_zero(xa);
                lemma_fmul_one(xb);
                lemma_fadd_zero(xb);
                lemma_fmul_one(xc);
                lemma_fadd_zero(xc);
                assert(lc_eval(cst.a.terms@, inp, ax) == xa);
                assert(lc_eval(cst.b.terms@, inp, ax) == xb);
                assert(lc_eval(cst.c.terms@, inp, ax) == xc);
            }
            if old(cs).witness {
                let f = hint.unwrap();
                assert(mid.aux@ == old(cs).aux@.push(f));
                assert(post.aux@ == mid.aux@);
                assert(post.aux@[old(cs).na() as int] == f);
                assert(post.aux_vals()[old(cs).na() as int] == f.n());
                assert(var_val(var, post.input_vals(), post.aux_vals()) == f.n());
            }
            if old(cs).witness && old(cs).sat() {
                lemma_sat_extend(*old(cs), mid);
                lemma_sat_push(mid, post, cst);
                post.lemma_own_assign_wf();
                let iv = post.input_vals();
                let av = post.aux_vals();
                let xa = var_val(a.variable, iv, av);
                let xb = var_val(b.variable, iv, av);
                let va = a.value.unwrap();
                let vb = b.value.unwrap();
                assert(xa == b2n(va) && xb == b2n(vb));
                assert(var_val(var, iv, av) == b2n(va && vb));
                if va && vb {
                    assert(fmul(1, 1) == 1) by {
                        lemma_fmul_one(1);
                    }
                } else if va {
                    lemma_fmul_zero(1);
                } else {
                    lemma_fmul_zero(xb);
                }
                assert(fmul(xa, xb) == var_val(var, iv, av));
                assert(post.sat());
            }
        }
        Ok(
            AllocatedBit {
                value: match (a.value, b.value) {
                    (Some(av), Some(bv)) => if cs.witness {
                        Some(av && bv)
                    } else {
                        None
                    },
                    _ => None,
                },
                variable: var,
            },
        )
    }

    /// Allocates a bit that is forced to zero whenever `must_be_false`'s
    /// slot is one, via `(1 - m - x) * x = 0`: with `m = 1` the constraint
    /// pins `x` to zero, with `m = 0` it is the plain boolean constraint.
    pub fn alloc_conditionally(
        cs: &mut ConstraintSystem,
        value: Option<bool>,
        must_be_false: &AllocatedBit,
    ) -> (r: Result<AllocatedBit, SynthesisError>)
        requires
            old(cs).wf(),
            must_be_false.wf(*old(cs)),
            old(cs).witness ==> value is Some,
            (old(cs).witness && must_be_false.value == Some(true)) ==> value == Some(false),
        ensures
            final(cs).witness == old(cs).witness,
            match r {
                Ok(bit) => {
                    &&& final(cs).wf()
                    &&& final(cs).inputs@ == old(cs).inputs@
                    &&& old(cs).aux_vals().is_prefix_of(final(cs).aux_vals())
                    &&& bit.wf(*final(cs))
                    &&& must_be_false.wf(*final(cs))
                    &&& bit.value == value
                    &&& (bit.variable.0 matches Index::Aux(k) && k == old(cs).aux@.len())
                    &&& final(cs).na() == old(cs).na() + 1
                    &&& old(cs).constraints@.is_prefix_of(final(cs).constraints@)
                    &&& final(cs).constraints@.len() == old(cs).constraints@.len() + 1
                    &&& (forall|inp: Seq<nat>, ax: Seq<nat>|
                        wf_assign(inp, ax, final(cs).ni(), final(cs).na()) && is_bit_val(
                            var_val(must_be_false.variable, inp, ax),
                        ) ==> (#[trigger] constraint_holds(final(cs).constraints@.last(), inp, ax)
                            <==> (if var_val(must_be_false.variable, inp, ax) == 1 {
                            var_val(bit.variable, inp, ax) == 0
                        } else {
                            is_bit_val(var_val(bit.variable, inp, ax))
                        })))
                    &&& (old(cs).witness && old(cs).sat() ==> final(cs).sat())
                },
                Err(_) => false,
            },
    {
        let hint: Option<Fp> = match value {
            Some(true) => Some(Fp::one()),
            Some(false) => Some(Fp::zero()),
            None => None,
        };
        let var = match cs.allocate(hint) {
            Ok(v) => v,
            Err(_) => {
                proof {
                    assert(false);
                }
                return Err(SynthesisError::AssignmentMissing);
            },
        };
        let ghost mid = *cs;
        let one = ConstraintSystem::one();
        let a_lc = LinearCombination::zero().add_var(one).sub_var(must_be_false.variable).sub_var(
            var,
        );
        let b_lc = LinearCombination::zero().add_var(var);
        let c_lc = LinearCombination::zero();
        proof {
            assert(lc_in_range(a_lc.terms@, cs.ni(), cs.na()));
            assert(lc_in_range(b_lc.terms@, cs.ni(), cs.na()));
        }
        cs.enforce(a_lc, b_lc, c_lc);
        proof {
            let post = *cs;
            let cst = post.constraints@.last();
            assert forall|inp: Seq<nat>, ax: Seq<nat>|
                wf_assign(inp, ax, post.ni(), post.na()) && is_bit_val(
                    var_val(must_be_false.variable, inp, ax),
                ) implies (#[trigger] constraint_holds(cst, inp, ax) <==> (if var_val(
                must_be_false.variable,
                inp,
                ax,
            ) == 1 {
                var_val(var, inp, ax) == 0
            } else {
                is_bit_val(var_val(var, inp, ax))
            })) by {
                broadcast use
                    lemma_lc_eval_push,
                    lemma_fadd_bound,
                    lemma_fmul_bound,
                    lemma_fsub_bound;

                let xm = var_val(must_be_false.variable, inp, ax);
                let x = var_val(var, inp, ax);
                assert(x < prime() && xm < prime());
                assert(var_val(one, inp, ax) == 1);
                lemma_fmul_one(1);
                lemma_fadd_zero(1);
                lemma_fmul_neg_one(xm);
                lemma_fadd_fneg(1, xm);
                lemma_fmul_neg_one(x);
                lemma_fadd_fneg(fsub(1, xm), x);
                assert(lc_eval(cst.a.terms@, inp, ax) == fsub(fsub(1, xm), x));
                lemma_fmul_one(x);
                lemma_fadd_zero(x);
                assert(lc_eval(cst.b.terms@, inp, ax) == x);
                assert(lc_eval(cst.c.terms@, inp, ax) == 0);
                if xm == 1 {
                    lemma_fsub_eq_zero(1, 1);
                    assert(fsub(1, xm) == 0);
                    assert(fsub(0, x) == fneg(x));
                    if x == 0 {
                        assert(fneg(0nat) == 0) by {
                            vstd::arithmetic::div_mod::lemma_small_mod(0, prime());
                        }
                        assert(fmul(fneg(x), x) == 0) by {
                            lemma_fmul_zero(fneg(x));
                        }
                    } else {
                        if fmul(fneg(x), x) == 0 {
                            lemma_fmul_comm(fneg(x), x);
                            lemma_no_zero_divisors(x, fneg(x));
                            lemma_fsub_eq_zero(0, x);
                            assert(false);
                        }
                    }
                } else {
                    assert(xm == 0);
                    lemma_fsub_eq_zero(1, 0);
                    assert(fsub(1nat, 0nat) == 1);
                    lemma_bool_constraint(x);
                }
            }
            if old(cs).witness {
                let b = value.unwrap();
                let f = hint.unwrap();
                assert(mid.aux@ == old(cs).aux@.push(f));
                assert(post.aux@ == mid.aux@);
                assert(post.aux@[old(cs).na() as int] == f);
                assert(post.aux_vals()[old(cs).na() as int] == f.n());
                assert(var_val(var, post.input_vals(), post.aux_vals()) == f.n());
                assert(f.n() == b2n(b));
            }
            if old(cs).witness && old(cs).sat() {
                lemma_sat_extend(*old(cs), mid);
                lemma_sat_push(mid, post, cst);
                post.lemma_own_assign_wf();
                let iv = post.input_vals();
                let av = post.aux_vals();
                let xm = var_val(must_be_false.variable, iv, av);
                let vm = must_be_false.value.unwrap();
                assert(xm == b2n(vm));
                assert(is_bit_val(xm));
                if vm {
                    assert(value == Some(false));
                    assert(var_val(var, iv, av) == 0);
                } else {
                    assert(is_bit_val(var_val(var, iv, av)));
                }
                assert(post.sat());
            }
        }
        Ok(AllocatedBit { value, variable: var })
    }
}

/// A single-bit value: a bit witness, its negation, or a literal constant.
#[derive(Clone, Copy, Debug)]
pub enum Boolean {
    Is(AllocatedBit),
    Not(AllocatedBit),
    Constant(bool),
}

impl Boolean {
    pub open spec fn wf(self, cs: ConstraintSystem) -> bool {
        match self {
            Boolean::Is(b) => b.wf(cs),
            Boolean::Not(b) => b.wf(cs),
            Boolean::Constant(_) => true,
        }
    }

    pub open spec fn var_in_range(self, ni: nat, na: nat) -> bool {
        match self {
            Boolean::Is(b) => b.variable.in_range(ni, na),
            Boolean::Not(b) => b.variable.in_range(ni, na),
            Boolean::Constant(_) => true,
        }
    }

    /// The boolean's hint: the bit's hint, negated for `Not`.
    pub open spec fn spec_value(self) -> Option<bool> {
        match self {
            Boolean::Is(b) => b.value,
            Boolean::Not(b) => match b.value {
                Some(x) => Some(!x),
                None => None,
            },
            Boolean::Constant(b) => Some(b),
        }
    }

    /// The boolean's residue under an assignment.
    pub open spec fn eval(self, inputs: Seq<nat>, aux: Seq<nat>) -> nat {
        match self {
            Boolean::Is(b) => var_val(b.variable, inputs, aux),
            Boolean::Not(b) => fsub(1, var_val(b.variable, inputs, aux)),
            Boolean::Constant(b) => b2n(b),
        }
    }

    /// In witness mode a well-formed boolean's residue under the running
    /// assignment is its hint.
    pub proof fn lemma_eval_matches_hint(self, cs: ConstraintSystem)
        requires
            cs.witness,
            self.wf(cs),
        ensures
            self.spec_value() matches Some(b) && self.eval(cs.input_vals(), cs.aux_vals()) == b2n(
                b,
            ),
    {
        match self {
            Boolean::Not(b) => {
                lemma_fsub_eq_zero(1, 1);
                lemma_fsub_eq_zero(1, 0);
                assert(fsub(1nat, 0nat) == 1) by {
                    vstd::arithmetic::div_mod::lemma_small_mod(1, prime());
                }
            },
            _ => {},
        }
    }

    /// Well-formedness is stable when the system gains fresh slots.
    pub proof fn lemma_wf_extend(self, pre: ConstraintSystem, post: ConstraintSystem)
        requires
            self.wf(pre),
            pre.input_vals().is_prefix_of(post.input_vals()),
            pre.aux_vals().is_prefix_of(post.aux_vals()),
            post.witness == pre.witness,
        ensures
            self.wf(post),
            self.eval(post.input_vals(), post.aux_vals()) == self.eval(
                pre.input_vals(),
                pre.aux_vals(),
            ),
    {
        match self {
            Boolean::Is(b) => {
                b.lemma_wf_extend(pre, post);
                crate::cs::lemma_var_val_extend(
                    b.variable,
                    pre.input_vals(),
                    pre.aux_vals(),
                    post.input_vals(),
                    post.aux_vals(),
                );
            },
            Boolean::Not(b) => {
                b.lemma_wf_extend(pre, post);
                crate::cs::lemma_var_val_extend(
                    b.variable,
                    pre.input_vals(),
                    pre.aux_vals(),
                    post.input_vals(),
                    post.aux_vals(),
                );
            },
            Boolean::Constant(_) => {},
        }
    }

    pub fn constant(b: bool) -> (r: Boolean)
        ensures
            r == Boolean::Constant(b),
    {
        Boolean::Constant(b)
    }

    pub fn from_bit(b: AllocatedBit) -> (r: Boolean)
        ensures
            r == Boolean::Is(b),
    {
        Boolean::Is(b)
    }

    pub fn get_value(&self) -> (r: Option<bool>)
        ensures
            r == self.spec_value(),
    {
        match self {
            Boolean::Is(b) => b.value,
            Boolean::Not(b) => match b.value {
                Some(x) => Some(!x),
                None => None,
            },
            Boolean::Constant(b) => Some(*b),
        }
    }

    /// The weighted linear combination `coeff · self`, over the designated
    /// constant-one variable.
    pub fn lc(&self, one: Variable, coeff: Fp) -> (r: LinearCombination)
        requires
            coeff.wf(),
            one.0 == Index::Input(0),
        ensures
            lc_coeffs_wf(r.terms@),
            forall|ni: nat, na: nat|
                ni >= 1 && self.var_in_range(ni, na) ==> #[trigger] lc_in_range(r.terms@, ni, na),
            forall|inp: Seq<nat>, ax: Seq<nat>|
                inp.len() >= 1 && inp[0] == 1 ==> #[trigger] lc_eval(r.terms@, inp, ax) == fmul(
                    coeff.n(),
                    self.eval(inp, ax),
                ),
    {
        let r = match self {
            Boolean::Is(b) => LinearCombination::zero().add_term(coeff, b.get_variable()),
            Boolean::Not(b) => LinearCombination::zero().add_term(coeff, one).add_term(
                coeff.neg(),
                b.get_variable(),
            ),
            Boolean::Constant(true) => LinearCombination::zero().add_term(coeff, one),
            Boolean::Constant(false) => LinearCombination::zero(),
        };
        proof {
            assert forall|inp: Seq<nat>, ax: Seq<nat>| inp.len() >= 1 && inp[0] == 1 implies #[trigger] lc_eval(
                r.terms@,
                inp,
                ax,
            ) == fmul(coeff.n(), self.eval(inp, ax)) by {
                broadcast use lemma_lc_eval_push, lemma_fadd_bound, lemma_fmul_bound;

                let c = coeff.n();
                match self {
                    Boolean::Is(b) => {
                        let x = var_val(b.variable, inp, ax);
                        lemma_fadd_zero(fmul(c, x));
                    },
                    Boolean::Not(b) => {
                        let x = var_val(b.variable, inp, ax);
                        assert(var_val(one, inp, ax) == 1);
                        lemma_fmul_one(c);
                        lemma_fadd_zero(c);
                        lemma_fmul_fneg(c, x);
                        lemma_fadd_fneg(c, fmul(c, x));
                        lemma_fmul_fsub(c, 1, x);
                        assert(fmul(c, 1) == c) by {
                            lemma_fmul_one(c);
                        }
                        assert(lc_eval(r.terms@, inp, ax) == fsub(c, fmul(c, x)));
                        assert(fmul(c, fsub(1, x)) == fsub(fmul(c, 1), fmul(c, x)));
                    },
                    Boolean::Constant(true) => {
                        assert(var_val(one, inp, ax) == 1);
                        lemma_fmul_one(c);
                        lemma_fadd_zero(fmul(c, 1));
                    },
                    Boolean::Constant(false) => {
                        lemma_fmul_zero(c);
                    },
                }
            }
        }
        r
    }
}

} // verus!
