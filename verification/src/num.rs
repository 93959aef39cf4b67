//! Committed and deferred field values.
//!
//! An `AllocatedNum` is a field value bound to exactly one witness variable;
//! every arithmetic operation allocates one fresh variable for the result
//! and registers one rank-1 constraint that pins the result's slot to the
//! operation's value under every assignment. A `Num` is a deferred
//! accumulator: a pending linear combination with an optional hint, which
//! never allocates a variable or registers a constraint on its own.

use vstd::prelude::*;
use vstd::arithmetic::power2::{pow2, lemma_pow2_unfold, lemma_pow2_pos};
use crate::field::{
    Fp, prime, fadd, fsub, fneg, fmul, lemma_fadd_bound, lemma_fmul_bound, lemma_fsub_bound,
    lemma_fadd_zero, lemma_fmul_one, lemma_fmul_zero, lemma_fmul_comm, lemma_fmul_assoc,
    lemma_fmul_neg_one, lemma_fadd_fneg, lemma_fadd_eq_zero, lemma_fsub_eq_zero,
    lemma_fsub_cancel, lemma_no_zero_divisors,
};
use crate::cs::{
    Index, Variable, SynthesisError, ConstraintSystem, LinearCombination, var_val, wf_assign,
    lc_eval, lc_coeff, lc_coeffs_wf, lc_unique, lc_in_range, constraint_holds,
    lemma_lc_eval_push, lemma_lc_eval_scaled, lemma_sat_extend, lemma_sat_push,
    lemma_var_val_extend,
};
use crate::boolean::{AllocatedBit, Boolean, b2n, is_bit_val};
use crate::bits::{range_holds, lemma_range_holds_prefix};

verus! {

/// A field value bound one-to-one to a single witness variable.
#[derive(Clone, Copy, Debug)]
pub struct AllocatedNum {
    pub value: Option<Fp>,
    pub variable: Variable,
}

impl AllocatedNum {
    /// The handle is in range, the hint is canonical, and in witness mode
    /// the hint matches the running assignment.
    pub open spec fn wf(self, cs: ConstraintSystem) -> bool {
        &&& self.variable.in_range(cs.ni(), cs.na())
        &&& (self.value matches Some(f) ==> f.wf())
        &&& (cs.witness ==> (self.value matches Some(f) && var_val(
            self.variable,
            cs.input_vals(),
            cs.aux_vals(),
        ) == f.n()))
    }

    /// Well-formedness is stable when the system gains fresh slots.
    pub proof fn lemma_wf_extend(self, pre: ConstraintSystem, post: ConstraintSystem)
        requires
            self.wf(pre),
            pre.input_vals().is_prefix_of(post.input_vals()),
            pre.aux_vals().is_prefix_of(post.aux_vals()),
            post.witness == pre.witness,
        ensures
            self.wf(post),
    {
        lemma_var_val_extend(
            self.variable,
            pre.input_vals(),
            pre.aux_vals(),
            post.input_vals(),
            post.aux_vals(),
        );
    }

    pub fn get_value(&self) -> (r: Option<Fp>)
        ensures
            r == self.value,
    {
        self.value
    }

    pub fn get_variable(&self) -> (r: Variable)
        ensures
            r == self.variable,
    {
        self.variable
    }

    /// Allocates a private witness carrying `value`. In witness mode the
    /// value is required; in setup mode no hint is retained.
    pub fn allocate(cs: &mut ConstraintSystem, value: Option<Fp>) -> (r: Result<
        Self,
        SynthesisError,
    >)
        requires
            old(cs).wf(),
            value matches Some(f) ==> f.wf(),
        ensures
            final(cs).witness == old(cs).witness,
            r is Ok <==> (old(cs).witness ==> value is Some),
            match r {
                Ok(n) => {
                    &&& final(cs).wf()
                    &&& final(cs).inputs@ == old(cs).inputs@
                    &&& old(cs).aux_vals().is_prefix_of(final(cs).aux_vals())
                    &&& final(cs).na() == old(cs).na() + 1
                    &&& final(cs).constraints@ == old(cs).constraints@
                    &&& n.wf(*final(cs))
                    &&& (n.variable.0 matches Index::Aux(k) && k == old(cs).na())
                    &&& (old(cs).witness ==> n.value == value)
                    &&& (!old(cs).witness ==> n.value is None)
                    &&& (old(cs).sat() ==> final(cs).sat())
                },
                Err(_) => *final(cs) == *old(cs),
            },
    {
        let var = match cs.allocate(value) {
            Ok(v) => v,
            Err(e) => {
                return Err(e);
            },
        };
        let kept: Option<Fp> = if cs.witness {
            value
        } else {
            None
        };
        proof {
            if old(cs).sat() {
                lemma_sat_extend(*old(cs), *cs);
            }
        }
        Ok(AllocatedNum { value: kept, variable: var })
    }

    /// Allocation from a value that is always available.
    pub fn alloc_infallible(cs: &mut ConstraintSystem, value: Fp) -> (n: Self)
        requires
            old(cs).wf(),
            value.wf(),
        ensures
            final(cs).witness == old(cs).witness,
            final(cs).wf(),
            final(cs).inputs@ == old(cs).inputs@,
            old(cs).aux_vals().is_prefix_of(final(cs).aux_vals()),
            final(cs).na() == old(cs).na() + 1,
            final(cs).constraints@ == old(cs).constraints@,
            n.wf(*final(cs)),
            (n.variable.0 matches Index::Aux(k) && k == old(cs).na()),
            old(cs).witness ==> n.value == Some(value),
            !old(cs).witness ==> n.value is None,
            old(cs).sat() ==> final(cs).sat(),
    {
        match Self::allocate(cs, Some(value)) {
            Ok(n) => n,
            Err(_) => {
                proof {
                    assert(false);
                }
                unreached()
            },
        }
    }

    /// Allocates a public input carrying `value`.
    pub fn alloc_input(cs: &mut ConstraintSystem, value: Option<Fp>) -> (r: Result<
        Self,
        SynthesisError,
    >)
        requires
            old(cs).wf(),
            value matches Some(f) ==> f.wf(),
        ensures
            final(cs).witness == old(cs).witness,
            r is Ok <==> (old(cs).witness ==> value is Some),
            match r {
                Ok(n) => {
                    &&& final(cs).wf()
                    &&& final(cs).aux@ == old(cs).aux@
                    &&& old(cs).input_vals().is_prefix_of(final(cs).input_vals())
                    &&& final(cs).ni() == old(cs).ni() + 1
                    &&& final(cs).constraints@ == old(cs).constraints@
                    &&& n.wf(*final(cs))
                    &&& (n.variable.0 matches Index::Input(k) && k == old(cs).ni())
                    &&& (old(cs).witness ==> n.value == value)
                    &&& (!old(cs).witness ==> n.value is None)
                    &&& (old(cs).sat() ==> final(cs).sat())
                },
                Err(_) => *final(cs) == *old(cs),
            },
    {
        let var = match cs.alloc_input(value) {
            Ok(v) => v,
            Err(e) => {
                return Err(e);
            },
        };
        let kept: Option<Fp> = if cs.witness {
            value
        } else {
            None
        };
        proof {
            if old(cs).sat() {
                lemma_sat_extend(*old(cs), *cs);
            }
        }
        Ok(AllocatedNum { value: kept, variable: var })
    }

    /// Allocates either a public input or a private witness, depending on
    /// the flag, so that one circuit description serves both uses.
    pub fn alloc_maybe_input(cs: &mut ConstraintSystem, is_input: bool, value: Option<Fp>) -> (r:
        Result<Self, SynthesisError>)
        requires
            old(cs).wf(),
            value matches Some(f) ==> f.wf(),
        ensures
            final(cs).witness == old(cs).witness,
            r is Ok <==> (old(cs).witness ==> value is Some),
            match r {
                Ok(n) => {
                    &&& final(cs).wf()
                    &&& old(cs).input_vals().is_prefix_of(final(cs).input_vals())
                    &&& old(cs).aux_vals().is_prefix_of(final(cs).aux_vals())
                    &&& final(cs).constraints@ == old(cs).constraints@
                    &&& n.wf(*final(cs))
                    &&& (if is_input {
                        n.variable.0 matches Index::Input(k) && k == old(cs).ni()
                    } else {
                        n.variable.0 matches Index::Aux(k) && k == old(cs).na()
                    })
                    &&& (old(cs).witness ==> n.value == value)
                    &&& (!old(cs).witness ==> n.value is None)
                    &&& (old(cs).sat() ==> final(cs).sat())
                },
                Err(_) => *final(cs) == *old(cs),
            },
    {
        if is_input {
            Self::alloc_input(cs, value)
        } else {
            Self::allocate(cs, value)
        }
    }

    /// Promotes an already-allocated number to a public input: allocates an
    /// input variable with the same value and registers
    /// `input * 1 = self`, which holds exactly when the two slots agree.
    pub fn inputize(&self, cs: &mut ConstraintSystem) -> (r: Result<(), SynthesisError>)
        requires
            old(cs).wf(),
            self.wf(*old(cs)),
        ensures
            final(cs).witness == old(cs).witness,
            match r {
                Ok(_) => {
                    &&& final(cs).wf()
                    &&& final(cs).aux@ == old(cs).aux@
                    &&& old(cs).input_vals().is_prefix_of(final(cs).input_vals())
                    &&& final(cs).ni() == old(cs).ni() + 1
                    &&& self.wf(*final(cs))
                    &&& old(cs).constraints@.is_prefix_of(final(cs).constraints@)
                    &&& final(cs).constraints@.len() == old(cs).constraints@.len() + 1
                    &&& (forall|inp: Seq<nat>, ax: Seq<nat>|
                        wf_assign(inp, ax, final(cs).ni(), final(cs).na()) ==> (
                        #[trigger] constraint_holds(final(cs).constraints@.last(), inp, ax)
                            <==> var_val(Variable(Index::Input((final(cs).ni() - 1) as usize)), inp, ax)
                            == var_val(self.variable, inp, ax)))
                    &&& (old(cs).witness && old(cs).sat() ==> final(cs).sat())
                },
                Err(_) => false,
            },
    {
        let input = match cs.alloc_input(self.value) {
            Ok(v) => v,
            Err(_) => {
                proof {
                    assert(false);
                }
                return Err(SynthesisError::AssignmentMissing);
            },
        };
        let ghost mid = *cs;
        let one = ConstraintSystem::one();
        let a_lc = LinearCombination::zero().add_var(input);
        let b_lc = LinearCombination::zero().add_var(one);
        let c_lc = LinearCombination::zero().add_var(self.variable);
        proof {
            assert(lc_in_range(a_lc.terms@, cs.ni(), cs.na()));
            assert(lc_in_range(b_lc.terms@, cs.ni(), cs.na()));
            assert(lc_in_range(c_lc.terms@, cs.ni(), cs.na()));
        }
        cs.enforce(a_lc, b_lc, c_lc);
        proof {
            let post = *cs;
            let cst = post.constraints@.last();
            assert forall|inp: Seq<nat>, ax: Seq<nat>|
                wf_assign(inp, ax, post.ni(), post.na()) implies (#[trigger] constraint_holds(
                cst,
                inp,
                ax,
            ) <==> var_val(Variable(Index::Input((post.ni() - 1) as usize)), inp, ax) == var_val(
                self.variable,
                inp,
                ax,
            )) by {
                broadcast use lemma_lc_eval_push, lemma_fadd_bound, lemma_fmul_bound;

                let xi = var_val(input, inp, ax);
                let xa = var_val(self.variable, inp, ax);
                assert(xi < prime() && xa < prime());
                assert(var_val(one, inp, ax) == 1);
                lemma_fmul_one(xi);
                lemma_fadd_zero(xi);
                lemma_fmul_one(1);
                lemma_fadd_zero(1);
                lemma_fmul_one(xa);
                lemma_fadd_zero(xa);
                assert(lc_eval(cst.a.terms@, inp, ax) == xi);
                assert(lc_eval(cst.b.terms@, inp, ax) == 1);
                assert(lc_eval(cst.c.terms@, inp, ax) == xa);
                lemma_fmul_one(xi);
                assert(input.0 == Variable(Index::Input((post.ni() - 1) as usize)).0);
            }
            if old(cs).witness {
                let f = self.value.unwrap();
                assert(mid.inputs@ == old(cs).inputs@.push(f));
                assert(post.inputs@[old(cs).ni() as int] == f);
                assert(var_val(input, post.input_vals(), post.aux_vals()) == f.n());
                lemma_var_val_extend(
                    self.variable,
                    old(cs).input_vals(),
                    old(cs).aux_vals(),
                    post.input_vals(),
                    post.aux_vals(),
                );
            }
            if old(cs).witness && old(cs).sat() {
                lemma_sat_extend(*old(cs), mid);
                lemma_sat_push(mid, post, cst);
                post.lemma_own_assign_wf();
                assert(post.sat());
            }
            self.lemma_wf_extend(*old(cs), post);
        }
        Ok(())
    }

    /// The sum: allocates the result and registers `(a + b) * 1 = out`,
    /// which an assignment satisfies exactly when the result slot holds the
    /// field sum of the operand slots.
    pub fn add(&self, cs: &mut ConstraintSystem, other: &Self) -> (r: Result<
        Self,
        SynthesisError,
    >)
        requires
            old(cs).wf(),
            self.wf(*old(cs)),
            other.wf(*old(cs)),
        ensures
            final(cs).witness == old(cs).witness,
            match r {
                Ok(out) => {
                    &&& final(cs).wf()
                    &&& final(cs).inputs@ == old(cs).inputs@
                    &&& old(cs).aux_vals().is_prefix_of(final(cs).aux_vals())
                    &&& final(cs).na() == old(cs).na() + 1
                    &&& out.wf(*final(cs))
                    &&& self.wf(*final(cs))
                    &&& other.wf(*final(cs))
                    &&& (out.variable.0 matches Index::Aux(k) && k == old(cs).na())
                    &&& old(cs).constraints@.is_prefix_of(final(cs).constraints@)
                    &&& final(cs).constraints@.len() == old(cs).constraints@.len() + 1
                    &&& (old(cs).witness ==> (self.value matches Some(av) && other.value matches
                        Some(bv) && out.value matches Some(ov) && ov.n() == fadd(av.n(), bv.n())))
                    &&& (!old(cs).witness ==> out.value is None)
                    &&& (forall|inp: Seq<nat>, ax: Seq<nat>|
                        wf_assign(inp, ax, final(cs).ni(), final(cs).na()) ==> (
                        #[trigger] constraint_holds(final(cs).constraints@.last(), inp, ax)
                            <==> var_val(out.variable, inp, ax) == fadd(
                            var_val(self.variable, inp, ax),
                            var_val(other.variable, inp, ax),
                        )))
                    &&& (old(cs).witness && old(cs).sat() ==> final(cs).sat())
                },
                Err(_) => false,
            },
    {
        let value: Option<Fp> = if cs.witness {
            match (self.value, other.value) {
                (Some(av), Some(bv)) => Some(av.add(bv)),
                _ => {
                    proof {
                        assert(false);
                    }
                    return Err(SynthesisError::AssignmentMissing);
                },
            }
        } else {
            None
        };
        let var = match cs.allocate(value) {
            Ok(v) => v,
            Err(_) => {
                proof {
                    assert(false);
                }
                return Err(SynthesisError::AssignmentMissing);
            },
        };
        let ghost mid = *cs;
        let one = ConstraintSystem::one();
        let a_lc = LinearCombination::zero().add_var(self.variable).add_var(other.variable);
        let b_lc = LinearCombination::zero().add_var(one);
        let c_lc = LinearCombination::zero().add_var(var);
        proof {
            assert(lc_in_range(a_lc.terms@, cs.ni(), cs.na()));
            assert(lc_in_range(b_lc.terms@, cs.ni(), cs.na()));
            assert(lc_in_range(c_lc.terms@, cs.ni(), cs.na()));
        }
        cs.enforce(a_lc, b_lc, c_lc);
        proof {
            let post = *cs;
            let cst = post.constraints@.last();
            assert forall|inp: Seq<nat>, ax: Seq<nat>|
                wf_assign(inp, ax, post.ni(), post.na()) implies (#[trigger] constraint_holds(
                cst,
                inp,
                ax,
            ) <==> var_val(var, inp, ax) == fadd(
                var_val(self.variable, inp, ax),
                var_val(other.variable, inp, ax),
            )) by {
                broadcast use lemma_lc_eval_push, lemma_fadd_bound, lemma_fmul_bound;

                let xa = var_val(self.variable, inp, ax);
                let xb = var_val(other.variable, inp, ax);
                let x = var_val(var, inp, ax);
                assert(xa < prime() && xb < prime() && x < prime());
                assert(var_val(one, inp, ax) == 1);
                lemma_fmul_one(xa);
                lemma_fadd_zero(xa);
                lemma_fmul_one(xb);
                assert(lc_eval(cst.a.terms@, inp, ax) == fadd(xa, xb));
                lemma_fmul_one(1);
                lemma_fadd_zero(1);
                assert(lc_eval(cst.b.terms@, inp, ax) == 1);
                lemma_fmul_one(x);
                lemma_fadd_zero(x);
                assert(lc_eval(cst.c.terms@, inp, ax) == x);
                lemma_fmul_one(fadd(xa, xb));
            }
            if old(cs).witness {
                let f = value.unwrap();
                assert(mid.aux@ == old(cs).aux@.push(f));
                assert(post.aux@[old(cs).na() as int] == f);
                assert(var_val(var, post.input_vals(), post.aux_vals()) == f.n());
                lemma_var_val_extend(
                    self.variable,
                    old(cs).input_vals(),
                    old(cs).aux_vals(),
                    post.input_vals(),
                    post.aux_vals(),
                );
                lemma_var_val_extend(
                    other.variable,
                    old(cs).input_vals(),
                    old(cs).aux_vals(),
                    post.input_vals(),
                    post.aux_vals(),
                );
            }
            if old(cs).witness && old(cs).sat() {
                lemma_sat_extend(*old(cs), mid);
                lemma_sat_push(mid, post, cst);
                post.lemma_own_assign_wf();
                assert(post.sat());
            }
            self.lemma_wf_extend(*old(cs), post);
            other.lemma_wf_extend(*old(cs), post);
        }
        Ok(AllocatedNum { value, variable: var })
    }

    /// The difference: allocates the result and registers
    /// `(a - b) * 1 = out`.
    pub fn sub(&self, cs: &mut ConstraintSystem, other: &Self) -> (r: Result<
        Self,
        SynthesisError,
    >)
        requires
            old(cs).wf(),
            self.wf(*old(cs)),
            other.wf(*old(cs)),
        ensures
            final(cs).witness == old(cs).witness,
            match r {
                Ok(out) => {
                    &&& final(cs).wf()
                    &&& final(cs).inputs@ == old(cs).inputs@
                    &&& old(cs).aux_vals().is_prefix_of(final(cs).aux_vals())
                    &&& final(cs).na() == old(cs).na() + 1
                    &&& out.wf(*final(cs))
                    &&& self.wf(*final(cs))
                    &&& other.wf(*final(cs))
                    &&& (out.variable.0 matches Index::Aux(k) && k == old(cs).na())
                    &&& old(cs).constraints@.is_prefix_of(final(cs).constraints@)
                    &&& final(cs).constraints@.len() == old(cs).constraints@.len() + 1
                    &&& (old(cs).witness ==> (self.value matches Some(av) && other.value matches
                        Some(bv) && out.value matches Some(ov) && ov.n() == fsub(av.n(), bv.n())))
                    &&& (!old(cs).witness ==> out.value is None)
                    &&& (forall|inp: Seq<nat>, ax: Seq<nat>|
                        wf_assign(inp, ax, final(cs).ni(), final(cs).na()) ==> (
                        #[trigger] constraint_holds(final(cs).constraints@.last(), inp, ax)
                            <==> var_val(out.variable, inp, ax) == fsub(
                            var_val(self.variable, inp, ax),
                            var_val(other.variable, inp, ax),
                        )))
                    &&& (old(cs).witness && old(cs).sat() ==> final(cs).sat())
                },
                Err(_) => false,
            },
    {
        let value: Option<Fp> = if cs.witness {
            match (self.value, other.value) {
                (Some(av), Some(bv)) => Some(av.sub(bv)),
                _ => {
                    proof {
                        assert(false);
                    }
                    return Err(SynthesisError::AssignmentMissing);
                },
            }
        } else {
            None
        };
        let var = match cs.allocate(value) {
            Ok(v) => v,
            Err(_) => {
                proof {
                    assert(false);
                }
                return Err(SynthesisError::AssignmentMissing);
            },
        };
        let ghost mid = *cs;
        let one = ConstraintSystem::one();
        let a_lc = LinearCombination::zero().add_var(self.variable).sub_var(other.variable);
        let b_lc = LinearCombination::zero().add_var(one);
        let c_lc = LinearCombination::zero().add_var(var);
        proof {
            assert(lc_in_range(a_lc.terms@, cs.ni(), cs.na()));
            assert(lc_in_range(b_lc.terms@, cs.ni(), cs.na()));
            assert(lc_in_range(c_lc.terms@, cs.ni(), cs.na()));
        }
        cs.enforce(a_lc, b_lc, c_lc);
        proof {
            let post = *cs;
            let cst = post.constraints@.last();
            assert forall|inp: Seq<nat>, ax: Seq<nat>|
                wf_assign(inp, ax, post.ni(), post.na()) implies (#[trigger] constraint_holds(
                cst,
                inp,
                ax,
            ) <==> var_val(var, inp, ax) == fsub(
                var_val(self.variable, inp, ax),
                var_val(other.variable, inp, ax),
            )) by {
                broadcast use
                    lemma_lc_eval_push,
                    lemma_fadd_bound,
                    lemma_fmul_bound,
                    lemma_fsub_bound;

                let xa = var_val(self.variable, inp, ax);
                let xb = var_val(other.variable, inp, ax);
                let x = var_val(var, inp, ax);
                assert(xa < prime() && xb < prime() && x < prime());
                assert(var_val(one, inp, ax) == 1);
                lemma_fmul_one(xa);
                lemma_fadd_zero(xa);
                lemma_fmul_neg_one(xb);
                lemma_fadd_fneg(xa, xb);
                assert(lc_eval(cst.a.terms@, inp, ax) == fsub(xa, xb));
                lemma_fmul_one(1);
                lemma_fadd_zero(1);
                assert(lc_eval(cst.b.terms@, inp, ax) == 1);
                lemma_fmul_one(x);
                lemma_fadd_zero(x);
                assert(lc_eval(cst.c.terms@, inp, ax) == x);
                lemma_fmul_one(fsub(xa, xb));
            }
            if old(cs).witness {
                let f = value.unwrap();
                assert(mid.aux@ == old(cs).aux@.push(f));
                assert(post.aux@[old(cs).na() as int] == f);
                assert(var_val(var, post.input_vals(), post.aux_vals()) == f.n());
                lemma_var_val_extend(
                    self.variable,
                    old(cs).input_vals(),
                    old(cs).aux_vals(),
                    post.input_vals(),
                    post.aux_vals(),
                );
                lemma_var_val_extend(
                    other.variable,
                    old(cs).input_vals(),
                    old(cs).aux_vals(),
                    post.input_vals(),
                    post.aux_vals(),
                );
            }
            if old(cs).witness && old(cs).sat() {
                lemma_sat_extend(*old(cs), mid);
                lemma_sat_push(mid, post, cst);
                post.lemma_own_assign_wf();
                assert(post.sat());
            }
            self.lemma_wf_extend(*old(cs), post);
            other.lemma_wf_extend(*old(cs), post);
        }
        Ok(AllocatedNum { value, variable: var })
    }

    /// The negation: allocates the result and registers
    /// `0 * 0 = a + out`, forcing the result slot to the additive inverse.
    pub fn neg(&self, cs: &mut ConstraintSystem) -> (r: Result<Self, SynthesisError>)
        requires
            old(cs).wf(),
            self.wf(*old(cs)),
        ensures
            final(cs).witness == old(cs).witness,
            match r {
                Ok(out) => {
                    &&& final(cs).wf()
                    &&& final(cs).inputs@ == old(cs).inputs@
                    &&& old(cs).aux_vals().is_prefix_of(final(cs).aux_vals())
                    &&& final(cs).na() == old(cs).na() + 1
                    &&& out.wf(*final(cs))
                    &&& self.wf(*final(cs))
                    &&& (out.variable.0 matches Index::Aux(k) && k == old(cs).na())
                    &&& old(cs).constraints@.is_prefix_of(final(cs).constraints@)
                    &&& final(cs).constraints@.len() == old(cs).constraints@.len() + 1
                    &&& (old(cs).witness ==> (self.value matches Some(av) && out.value matches
                        Some(ov) && ov.n() == fneg(av.n())))
                    &&& (!old(cs).witness ==> out.value is None)
                    &&& (forall|inp: Seq<nat>, ax: Seq<nat>|
                        wf_assign(inp, ax, final(cs).ni(), final(cs).na()) ==> (
                        #[trigger] constraint_holds(final(cs).constraints@.last(), inp, ax)
                            <==> var_val(out.variable, inp, ax) == fneg(
                            var_val(self.variable, inp, ax),
                        )))
                    &&& (old(cs).witness && old(cs).sat() ==> final(cs).sat())
                },
                Err(_) => false,
            },
    {
        let value: Option<Fp> = if cs.witness {
            match self.value {
                Some(av) => Some(av.neg()),
                None => {
                    proof {
                        assert(false);
                    }
                    return Err(SynthesisError::AssignmentMissing);
                },
            }
        } else {
            None
        };
        let var = match cs.allocate(value) {
            Ok(v) => v,
            Err(_) => {
                proof {
                    assert(false);
                }
                return Err(SynthesisError::AssignmentMissing);
            },
        };
        let ghost mid = *cs;
        let a_lc = LinearCombination::zero();
        let b_lc = LinearCombination::zero();
        let c_lc = LinearCombination::zero().add_var(self.variable).add_var(var);
        proof {
            assert(lc_in_range(c_lc.terms@, cs.ni(), cs.na()));
        }
        cs.enforce(a_lc, b_lc, c_lc);
        proof {
            let post = *cs;
            let cst = post.constraints@.last();
            assert forall|inp: Seq<nat>, ax: Seq<nat>|
                wf_assign(inp, ax, post.ni(), post.na()) implies (#[trigger] constraint_holds(
                cst,
                inp,
                ax,
            ) <==> var_val(var, inp, ax) == fneg(var_val(self.variable, inp, ax))) by {
                broadcast use lemma_lc_eval_push, lemma_fadd_bound, lemma_fmul_bound;

                let xa = var_val(self.variable, inp, ax);
                let x = var_val(var, inp, ax);
                assert(xa < prime() && x < prime());
                lemma_fmul_one(xa);
                lemma_fadd_zero(xa);
                lemma_fmul_one(x);
                assert(lc_eval(cst.c.terms@, inp, ax) == fadd(xa, x));
                assert(lc_eval(cst.a.terms@, inp, ax) == 0);
                assert(lc_eval(cst.b.terms@, inp, ax) == 0);
                lemma_fmul_zero(0);
                lemma_fadd_eq_zero(xa, x);
            }
            if old(cs).witness {
                let f = value.unwrap();
                assert(mid.aux@ == old(cs).aux@.push(f));
                assert(post.aux@[old(cs).na() as int] == f);
                assert(var_val(var, post.input_vals(), post.aux_vals()) == f.n());
                lemma_var_val_extend(
                    self.variable,
                    old(cs).input_vals(),
                    old(cs).aux_vals(),
                    post.input_vals(),
                    post.aux_vals(),
                );
            }
            if old(cs).witness && old(cs).sat() {
                lemma_sat_extend(*old(cs), mid);
                lemma_sat_push(mid, post, cst);
                post.lemma_own_assign_wf();
                assert(post.sat());
            }
            self.lemma_wf_extend(*old(cs), post);
        }
        Ok(AllocatedNum { value, variable: var })
    }

    /// The product: allocates the result and registers `a * b = out`.
    pub fn mul(&self, cs: &mut ConstraintSystem, other: &Self) -> (r: Result<
        Self,
        SynthesisError,
    >)
        requires
            old(cs).wf(),
            self.wf(*old(cs)),
            other.wf(*old(cs)),
        ensures
            final(cs).witness == old(cs).witness,
            match r {
                Ok(out) => {
                    &&& final(cs).wf()
                    &&& final(cs).inputs@ == old(cs).inputs@
                    &&& old(cs).aux_vals().is_prefix_of(final(cs).aux_vals())
                    &&& final(cs).na() == old(cs).na() + 1
                    &&& out.wf(*final(cs))
                    &&& self.wf(*final(cs))
                    &&& other.wf(*final(cs))
                    &&& (out.variable.0 matches Index::Aux(k) && k == old(cs).na())
                    &&& old(cs).constraints@.is_prefix_of(final(cs).constraints@)
                    &&& final(cs).constraints@.len() == old(cs).constraints@.len() + 1
                    &&& (old(cs).witness ==> (self.value matches Some(av) && other.value matches
                        Some(bv) && out.value matches Some(ov) && ov.n() == fmul(av.n(), bv.n())))
                    &&& (!old(cs).witness ==> out.value is None)
                    &&& (forall|inp: Seq<nat>, ax: Seq<nat>|
                        wf_assign(inp, ax, final(cs).ni(), final(cs).na()) ==> (
                        #[trigger] constraint_holds(final(cs).constraints@.last(), inp, ax)
                            <==> var_val(out.variable, inp, ax) == fmul(
                            var_val(self.variable, inp, ax),
                            var_val(other.variable, inp, ax),
                        )))
                    &&& (old(cs).witness && old(cs).sat() ==> final(cs).sat())
                },
                Err(_) => false,
            },
    {
        let value: Option<Fp> = if cs.witness {
            match (self.value, other.value) {
                (Some(av), Some(bv)) => Some(av.mul(bv)),
                _ => {
                    proof {
                        assert(false);
                    }
                    return Err(SynthesisError::AssignmentMissing);
                },
            }
        } else {
            None
        };
        let var = match cs.allocate(value) {
            Ok(v) => v,
            Err(_) => {
                proof {
                    assert(false);
                }
                return Err(SynthesisError::AssignmentMissing);
            },
        };
        let ghost mid = *cs;
        let a_lc = LinearCombination::zero().add_var(self.variable);
        let b_lc = LinearCombination::zero().add_var(other.variable);
        let c_lc = LinearCombination::zero().add_var(var);
        proof {
            assert(lc_in_range(a_lc.terms@, cs.ni(), cs.na()));
            assert(lc_in_range(b_lc.terms@, cs.ni(), cs.na()));
            assert(lc_in_range(c_lc.terms@, cs.ni(), cs.na()));
        }
        cs.enforce(a_lc, b_lc, c_lc);
        proof {
            let post = *cs;
            let cst = post.constraints@.last();
            assert forall|inp: Seq<nat>, ax: Seq<nat>|
                wf_assign(inp, ax, post.ni(), post.na()) implies (#[trigger] constraint_holds(
                cst,
                inp,
                ax,
            ) <==> var_val(var, inp, ax) == fmul(
                var_val(self.variable, inp, ax),
                var_val(other.variable, inp, ax),
            )) by {
                broadcast use lemma_lc_eval_push, lemma_fadd_bound, lemma_fmul_bound;

                let xa = var_val(self.variable, inp, ax);
                let xb = var_val(other.variable, inp, ax);
                let x = var_val(var, inp, ax);
                assert(xa < prime() && xb < prime() && x < prime());
                lemma_fmul_one(xa);
                lemma_fadd_zero(xa);
                lemma_fmul_one(xb);
                lemma_fadd_zero(xb);
                lemma_fmul_one(x);
                lemma_fadd_zero(x);
                assert(lc_eval(cst.a.terms@, inp, ax) == xa);
                assert(lc_eval(cst.b.terms@, inp, ax) == xb);
                assert(lc_eval(cst.c.terms@, inp, ax) == x);
            }
            if old(cs).witness {
                let f = value.unwrap();
                assert(mid.aux@ == old(cs).aux@.push(f));
                assert(post.aux@[old(cs).na() as int] == f);
                assert(var_val(var, post.input_vals(), post.aux_vals()) == f.n());
                lemma_var_val_extend(
                    self.variable,
                    old(cs).input_vals(),
                    old(cs).aux_vals(),
                    post.input_vals(),
                    post.aux_vals(),
                );
                lemma_var_val_extend(
                    other.variable,
                    old(cs).input_vals(),
                    old(cs).aux_vals(),
                    post.input_vals(),
                    post.aux_vals(),
                );
            }
            if old(cs).witness && old(cs).sat() {
                lemma_sat_extend(*old(cs), mid);
                lemma_sat_push(mid, post, cst);
                post.lemma_own_assign_wf();
                assert(post.sat());
            }
            self.lemma_wf_extend(*old(cs), post);
            other.lemma_wf_extend(*old(cs), post);
        }
        Ok(AllocatedNum { value, variable: var })
    }

    /// The quotient `self * other^(-1)`: allocates the result with that
    /// value and registers `out * b = a`. The divisor's value must be
    /// nonzero; under every assignment whose divisor slot is nonzero the
    /// constraint pins the result slot uniquely.
    pub fn div(&self, cs: &mut ConstraintSystem, other: &Self) -> (r: Result<
        Self,
        SynthesisError,
    >)
        requires
            old(cs).wf(),
            self.wf(*old(cs)),
            other.wf(*old(cs)),
            old(cs).witness ==> (other.value matches Some(bv) && bv.n() != 0),
        ensures
            final(cs).witness == old(cs).witness,
            match r {
                Ok(out) => {
                    &&& final(cs).wf()
                    &&& final(cs).inputs@ == old(cs).inputs@
                    &&& old(cs).aux_vals().is_prefix_of(final(cs).aux_vals())
                    &&& final(cs).na() == old(cs).na() + 1
                    &&& out.wf(*final(cs))
                    &&& self.wf(*final(cs))
                    &&& other.wf(*final(cs))
                    &&& (out.variable.0 matches Index::Aux(k) && k == old(cs).na())
                    &&& old(cs).constraints@.is_prefix_of(final(cs).constraints@)
                    &&& final(cs).constraints@.len() == old(cs).constraints@.len() + 1
                    &&& (old(cs).witness ==> (self.value matches Some(av) && other.value matches
                        Some(bv) && out.value matches Some(ov) && fmul(ov.n(), bv.n()) == av.n()))
                    &&& (!old(cs).witness ==> out.value is None)
                    &&& (forall|inp: Seq<nat>, ax: Seq<nat>|
                        wf_assign(inp, ax, final(cs).ni(), final(cs).na()) ==> (
                        #[trigger] constraint_holds(final(cs).constraints@.last(), inp, ax)
                            <==> fmul(
                            var_val(out.variable, inp, ax),
                            var_val(other.variable, inp, ax),
                        ) == var_val(self.variable, inp, ax)))
                    &&& (old(cs).witness && old(cs).sat() ==> final(cs).sat())
                },
                Err(_) => false,
            },
    {
        let value: Option<Fp> = if cs.witness {
            match (self.value, other.value) {
                (Some(av), Some(bv)) => {
                    match bv.invert() {
                        Some(i) => {
                            let ov = av.mul(i);
                            proof {
                                lemma_fmul_assoc(av.n(), i.n(), bv.n());
                                lemma_fmul_comm(i.n(), bv.n());
                                lemma_fmul_one(av.n());
                            }
                            Some(ov)
                        },
                        None => {
                            proof {
                                assert(false);
                            }
                            return Err(SynthesisError::DivisionByZero);
                        },
                    }
                },
                _ => {
                    proof {
                        assert(false);
                    }
                    return Err(SynthesisError::AssignmentMissing);
                },
            }
        } else {
            None
        };
        let ghost old_self = *self;
        let var = match cs.allocate(value) {
            Ok(v) => v,
            Err(_) => {
                proof {
                    assert(false);
                }
                return Err(SynthesisError::AssignmentMissing);
            },
        };
        let ghost mid = *cs;
        let a_lc = LinearCombination::zero().add_var(var);
        let b_lc = LinearCombination::zero().add_var(other.variable);
        let c_lc = LinearCombination::zero().add_var(self.variable);
        proof {
            assert(lc_in_range(a_lc.terms@, cs.ni(), cs.na()));
            assert(lc_in_range(b_lc.terms@, cs.ni(), cs.na()));
            assert(lc_in_range(c_lc.terms@, cs.ni(), cs.na()));
        }
        cs.enforce(a_lc, b_lc, c_lc);
        proof {
            let post = *cs;
            let cst = post.constraints@.last();
            assert forall|inp: Seq<nat>, ax: Seq<nat>|
                wf_assign(inp, ax, post.ni(), post.na()) implies (#[trigger] constraint_holds(
                cst,
                inp,
                ax,
            ) <==> fmul(var_val(var, inp, ax), var_val(other.variable, inp, ax)) == var_val(
                self.variable,
                inp,
                ax,
            )) by {
                broadcast use lemma_lc_eval_push, lemma_fadd_bound, lemma_fmul_bound;

                let xa = var_val(self.variable, inp, ax);
                let xb = var_val(other.variable, inp, ax);
                let x = var_val(var, inp, ax);
                assert(xa < prime() && xb < prime() && x < prime());
                lemma_fmul_one(xa);
                lemma_fadd_zero(xa);
                lemma_fmul_one(xb);
                lemma_fadd_zero(xb);
                lemma_fmul_one(x);
                lemma_fadd_zero(x);
                assert(lc_eval(cst.a.terms@, inp, ax) == x);
                assert(lc_eval(cst.b.terms@, inp, ax) == xb);
                assert(lc_eval(cst.c.terms@, inp, ax) == xa);
            }
            if old(cs).witness {
                let f = value.unwrap();
                assert(mid.aux@ == old(cs).aux@.push(f));
                assert(post.aux@[old(cs).na() as int] == f);
                assert(var_val(var, post.input_vals(), post.aux_vals()) == f.n());
                lemma_var_val_extend(
                    self.variable,
                    old(cs).input_vals(),
                    old(cs).aux_vals(),
                    post.input_vals(),
                    post.aux_vals(),
                );
                lemma_var_val_extend(
                    other.variable,
                    old(cs).input_vals(),
                    old(cs).aux_vals(),
                    post.input_vals(),
                    post.aux_vals(),
                );
            }
            if old(cs).witness && old(cs).sat() {
                lemma_sat_extend(*old(cs), mid);
                lemma_sat_push(mid, post, cst);
                post.lemma_own_assign_wf();
                assert(post.sat());
            }
            self.lemma_wf_extend(*old(cs), post);
            other.lemma_wf_extend(*old(cs), post);
        }
        Ok(AllocatedNum { value, variable: var })
    }

    /// The square: allocates the result and registers `a * a = out`.
    pub fn square(&self, cs: &mut ConstraintSystem) -> (r: Result<Self, SynthesisError>)
        requires
            old(cs).wf(),
            self.wf(*old(cs)),
        ensures
            final(cs).witness == old(cs).witness,
            match r {
                Ok(out) => {
                    &&& final(cs).wf()
                    &&& final(cs).inputs@ == old(cs).inputs@
                    &&& old(cs).aux_vals().is_prefix_of(final(cs).aux_vals())
                    &&& final(cs).na() == old(cs).na() + 1
                    &&& out.wf(*final(cs))
                    &&& self.wf(*final(cs))
                    &&& (out.variable.0 matches Index::Aux(k) && k == old(cs).na())
                    &&& old(cs).constraints@.is_prefix_of(final(cs).constraints@)
                    &&& final(cs).constraints@.len() == old(cs).constraints@.len() + 1
                    &&& (old(cs).witness ==> (self.value matches Some(av) && out.value matches
                        Some(ov) && ov.n() == fmul(av.n(), av.n())))
                    &&& (!old(cs).witness ==> out.value is None)
                    &&& (forall|inp: Seq<nat>, ax: Seq<nat>|
                        wf_assign(inp, ax, final(cs).ni(), final(cs).na()) ==> (
                        #[trigger] constraint_holds(final(cs).constraints@.last(), inp, ax)
                            <==> var_val(out.variable, inp, ax) == fmul(
                            var_val(self.variable, inp, ax),
                            var_val(self.variable, inp, ax),
                        )))
                    &&& (old(cs).witness && old(cs).sat() ==> final(cs).sat())
                },
                Err(_) => false,
            },
    {
        let value: Option<Fp> = if cs.witness {
            match self.value {
                Some(av) => Some(av.square()),
                None => {
                    proof {
                        assert(false);
                    }
                    return Err(SynthesisError::AssignmentMissing);
                },
            }
        } else {
            None
        };
        let var = match cs.allocate(value) {
            Ok(v) => v,
            Err(_) => {
                proof {
                    assert(false);
                }
                return Err(SynthesisError::AssignmentMissing);
            },
        };
        let ghost mid = *cs;
        let a_lc = LinearCombination::zero().add_var(self.variable);
        let b_lc = LinearCombination::zero().add_var(self.variable);
        let c_lc = LinearCombination::zero().add_var(var);
        proof {
            assert(lc_in_range(a_lc.terms@, cs.ni(), cs.na()));
            assert(lc_in_range(b_lc.terms@, cs.ni(), cs.na()));
            assert(lc_in_range(c_lc.terms@, cs.ni(), cs.na()));
        }
        cs.enforce(a_lc, b_lc, c_lc);
        proof {
            let post = *cs;
            let cst = post.constraints@.last();
            assert forall|inp: Seq<nat>, ax: Seq<nat>|
                wf_assign(inp, ax, post.ni(), post.na()) implies (#[trigger] constraint_holds(
                cst,
                inp,
                ax,
            ) <==> var_val(var, inp, ax) == fmul(
                var_val(self.variable, inp, ax),
                var_val(self.variable, inp, ax),
            )) by {
                broadcast use lemma_lc_eval_push, lemma_fadd_bound, lemma_fmul_bound;

                let xa = var_val(self.variable, inp, ax);
                let x = var_val(var, inp, ax);
                assert(xa < prime() && x < prime());
                lemma_fmul_one(xa);
                lemma_fadd_zero(xa);
                lemma_fmul_one(x);
                lemma_fadd_zero(x);
                assert(lc_eval(cst.a.terms@, inp, ax) == xa);
                assert(lc_eval(cst.b.terms@, inp, ax) == xa);
                assert(lc_eval(cst.c.terms@, inp, ax) == x);
            }
            if old(cs).witness {
                let f = value.unwrap();
                assert(mid.aux@ == old(cs).aux@.push(f));
                assert(post.aux@[old(cs).na() as int] == f);
                assert(var_val(var, post.input_vals(), post.aux_vals()) == f.n());
                lemma_var_val_extend(
                    self.variable,
                    old(cs).input_vals(),
                    old(cs).aux_vals(),
                    post.input_vals(),
                    post.aux_vals(),
                );
            }
            if old(cs).witness && old(cs).sat() {
                lemma_sat_extend(*old(cs), mid);
                lemma_sat_push(mid, post, cst);
                post.lemma_own_assign_wf();
                assert(post.sat());
            }
            self.lemma_wf_extend(*old(cs), post);
        }
        Ok(AllocatedNum { value, variable: var })
    }

    /// Asserts that the committed value is nonzero: allocates its inverse
    /// and registers `a * inv = 1`. Under every assignment a zero slot for
    /// `a` leaves the constraint unsatisfiable; a nonzero hint always
    /// satisfies it.
    pub fn assert_nonzero(&self, cs: &mut ConstraintSystem) -> (r: Result<(), SynthesisError>)
        requires
            old(cs).wf(),
            self.wf(*old(cs)),
        ensures
            final(cs).witness == old(cs).witness,
            r is Ok <==> (old(cs).witness ==> (self.value matches Some(av) && av.n() != 0)),
            match r {
                Ok(_) => {
                    &&& final(cs).wf()
                    &&& final(cs).inputs@ == old(cs).inputs@
                    &&& old(cs).aux_vals().is_prefix_of(final(cs).aux_vals())
                    &&& final(cs).na() == old(cs).na() + 1
                    &&& self.wf(*final(cs))
                    &&& old(cs).constraints@.is_prefix_of(final(cs).constraints@)
                    &&& final(cs).constraints@.len() == old(cs).constraints@.len() + 1
                    &&& (forall|inp: Seq<nat>, ax: Seq<nat>|
                        wf_assign(inp, ax, final(cs).ni(), final(cs).na()) ==> (
                        #[trigger] constraint_holds(final(cs).constraints@.last(), inp, ax)
                            <==> fmul(
                            var_val(self.variable, inp, ax),
                            var_val(
                                Variable(Index::Aux((final(cs).na() - 1) as usize)),
                                inp,
                                ax,
                            ),
                        ) == 1))
                    &&& (forall|inp: Seq<nat>, ax: Seq<nat>|
                        wf_assign(inp, ax, final(cs).ni(), final(cs).na()) && var_val(
                            self.variable,
                            inp,
                            ax,
                        ) == 0 ==> !#[trigger] constraint_holds(
                            final(cs).constraints@.last(),
                            inp,
                            ax,
                        ))
                    &&& (old(cs).witness && old(cs).sat() ==> final(cs).sat())
                },
                Err(e) => {
                    &&& *final(cs) == *old(cs)
                    &&& e == SynthesisError::DivisionByZero
                    &&& old(cs).witness
                    &&& (self.value matches Some(av) && av.n() == 0)
                },
            },
    {
        let hint: Option<Fp> = if cs.witness {
            match self.value {
                Some(av) => {
                    if av.is_zero() {
                        return Err(SynthesisError::DivisionByZero);
                    }
                    match av.invert() {
                        Some(i) => Some(i),
                        None => {
                            proof {
                                assert(false);
                            }
                            return Err(SynthesisError::DivisionByZero);
                        },
                    }
                },
                None => {
                    proof {
                        assert(false);
                    }
                    return Err(SynthesisError::AssignmentMissing);
                },
            }
        } else {
            None
        };
        let var = match cs.allocate(hint) {
            Ok(v) => v,
            Err(_) => {
                proof {
                    assert(false);
                }
                return Err(SynthesisError::AssignmentMissing);
            },
        };
        let ghost mid = *cs;
        let one = ConstraintSystem::one();
        let a_lc = LinearCombination::zero().add_var(self.variable);
        let b_lc = LinearCombination::zero().add_var(var);
        let c_lc = LinearCombination::zero().add_var(one);
        proof {
            assert(lc_in_range(a_lc.terms@, cs.ni(), cs.na()));
            assert(lc_in_range(b_lc.terms@, cs.ni(), cs.na()));
            assert(lc_in_range(c_lc.terms@, cs.ni(), cs.na()));
        }
        cs.enforce(a_lc, b_lc, c_lc);
        proof {
            let post = *cs;
            let cst = post.constraints@.last();
            assert(var.0 == Variable(Index::Aux((post.na() - 1) as usize)).0);
            assert forall|inp: Seq<nat>, ax: Seq<nat>|
                wf_assign(inp, ax, post.ni(), post.na()) implies (#[trigger] constraint_holds(
                cst,
                inp,
                ax,
            ) <==> fmul(
                var_val(self.variable, inp, ax),
                var_val(Variable(Index::Aux((post.na() - 1) as usize)), inp, ax),
            ) == 1) by {
                broadcast use lemma_lc_eval_push, lemma_fadd_bound, lemma_fmul_bound;

                let xa = var_val(self.variable, inp, ax);
                let xi = var_val(var, inp, ax);
                assert(xa < prime() && xi < prime());
                assert(var_val(one, inp, ax) == 1);
                lemma_fmul_one(xa);
                lemma_fadd_zero(xa);
                lemma_fmul_one(xi);
                lemma_fadd_zero(xi);
                lemma_fmul_one(1);
                lemma_fadd_zero(1);
                assert(lc_eval(cst.a.terms@, inp, ax) == xa);
                assert(lc_eval(cst.b.terms@, inp, ax) == xi);
                assert(lc_eval(cst.c.terms@, inp, ax) == 1);
            }
            assert forall|inp: Seq<nat>, ax: Seq<nat>|
                wf_assign(inp, ax, post.ni(), post.na()) && var_val(self.variable, inp, ax)
                    == 0 implies !#[trigger] constraint_holds(cst, inp, ax) by {
                let xi = var_val(Variable(Index::Aux((post.na() - 1) as usize)), inp, ax);
                lemma_fmul_zero(xi);
            }
            if old(cs).witness {
                let f = hint.unwrap();
                assert(mid.aux@ == old(cs).aux@.push(f));
                assert(post.aux@[old(cs).na() as int] == f);
                assert(var_val(var, post.input_vals(), post.aux_vals()) == f.n());
                lemma_var_val_extend(
                    self.variable,
                    old(cs).input_vals(),
                    old(cs).aux_vals(),
                    post.input_vals(),
                    post.aux_vals(),
                );
            }
            if old(cs).witness && old(cs).sat() {
                lemma_sat_extend(*old(cs), mid);
                lemma_sat_push(mid, post, cst);
                post.lemma_own_assign_wf();
                assert(post.sat());
            }
            self.lemma_wf_extend(*old(cs), post);
        }
        Ok(())
    }

    /// The bit `self == 0`. Allocates an output bit and an auxiliary
    /// multiplier and registers `m * a = 1 - out` and `out * a = 0`,
    /// together with the output's boolean constraint. Under every
    /// assignment the three constraints hold exactly when the output slot
    /// is the equality-with-zero indicator of `a`'s slot (with the
    /// multiplier pinned to the inverse when `a` is nonzero).
    pub fn is_zero(&self, cs: &mut ConstraintSystem) -> (r: Result<Boolean, SynthesisError>)
        requires
            old(cs).wf(),
            self.wf(*old(cs)),
        ensures
            final(cs).witness == old(cs).witness,
            r is Ok <==> self.value is Some,
            match r {
                Ok(b) => {
                    &&& final(cs).wf()
                    &&& final(cs).inputs@ == old(cs).inputs@
                    &&& old(cs).aux_vals().is_prefix_of(final(cs).aux_vals())
                    &&& final(cs).na() == old(cs).na() + 2
                    &&& self.wf(*final(cs))
                    &&& b.wf(*final(cs))
                    &&& (b matches Boolean::Is(bit) && bit.variable.0 matches Index::Aux(k) && k
                        == old(cs).na())
                    &&& (old(cs).witness ==> (self.value matches Some(av) && b.spec_value()
                        == Some(av.n() == 0)))
                    &&& (old(cs).witness ==> (self.value matches Some(av) && (if av.n() == 0 {
                        var_val(
                            Variable(Index::Aux((final(cs).na() - 1) as usize)),
                            final(cs).input_vals(),
                            final(cs).aux_vals(),
                        ) == 0
                    } else {
                        fmul(
                            av.n(),
                            var_val(
                                Variable(Index::Aux((final(cs).na() - 1) as usize)),
                                final(cs).input_vals(),
                                final(cs).aux_vals(),
                            ),
                        ) == 1
                    })))
                    &&& old(cs).constraints@.is_prefix_of(final(cs).constraints@)
                    &&& final(cs).constraints@.len() == old(cs).constraints@.len() + 3
                    &&& (forall|inp: Seq<nat>, ax: Seq<nat>|
                        wf_assign(inp, ax, final(cs).ni(), final(cs).na()) ==> ((
                        #[trigger] constraint_holds(
                            final(cs).constraints@[final(cs).constraints@.len() - 3],
                            inp,
                            ax,
                        ) && constraint_holds(
                            final(cs).constraints@[final(cs).constraints@.len() - 2],
                            inp,
                            ax,
                        ) && constraint_holds(final(cs).constraints@.last(), inp, ax)) <==> ({
                            let xa = var_val(self.variable, inp, ax);
                            let xo = var_val(
                                Variable(Index::Aux((final(cs).na() - 2) as usize)),
                                inp,
                                ax,
                            );
                            let xm = var_val(
                                Variable(Index::Aux((final(cs).na() - 1) as usize)),
                                inp,
                                ax,
                            );
                            (xa == 0 && xo == 1) || (xa != 0 && xo == 0 && fmul(xm, xa) == 1)
                        })))
                    &&& (old(cs).witness && old(cs).sat() ==> final(cs).sat())
                },
                Err(e) => {
                    &&& *final(cs) == *old(cs)
                    &&& e == SynthesisError::AssignmentMissing
                    &&& self.value is None
                },
            },
    {
        let av = match self.value {
            Some(av) => av,
            None => {
                return Err(SynthesisError::AssignmentMissing);
            },
        };
        let out = match AllocatedBit::allocate(cs, Some(av.is_zero())) {
            Ok(o) => o,
            Err(_) => {
                proof {
                    assert(false);
                }
                return Err(SynthesisError::AssignmentMissing);
            },
        };
        let ghost mid1 = *cs;
        let mult_hint: Option<Fp> = if cs.witness {
            match av.invert() {
                Some(i) => Some(i),
                None => Some(Fp::zero()),
            }
        } else {
            None
        };
        let multiplier = match cs.allocate(mult_hint) {
            Ok(v) => v,
            Err(_) => {
                proof {
                    assert(false);
                }
                return Err(SynthesisError::AssignmentMissing);
            },
        };
        let ghost mid2 = *cs;
        let one = ConstraintSystem::one();
        let a2 = LinearCombination::zero().add_var(multiplier);
        let b2 = LinearCombination::zero().add_var(self.variable);
        let c2 = LinearCombination::zero().add_var(one).sub_var(out.get_variable());
        proof {
            assert(lc_in_range(a2.terms@, cs.ni(), cs.na()));
            assert(lc_in_range(b2.terms@, cs.ni(), cs.na()));
            assert(lc_in_range(c2.terms@, cs.ni(), cs.na()));
        }
        cs.enforce(a2, b2, c2);
        let ghost mid3 = *cs;
        let a3 = LinearCombination::zero().add_var(out.get_variable());
        let b3 = LinearCombination::zero().add_var(self.variable);
        let c3 = LinearCombination::zero();
        proof {
            assert(lc_in_range(a3.terms@, cs.ni(), cs.na()));
            assert(lc_in_range(b3.terms@, cs.ni(), cs.na()));
        }
        cs.enforce(a3, b3, c3);
        proof {
            let post = *cs;
            let n = post.constraints@.len();
            let cb = post.constraints@[n - 3];
            let cm = post.constraints@[n - 2];
            let cz = post.constraints@.last();
            assert(out.variable.0 == Variable(Index::Aux((post.na() - 2) as usize)).0);
            assert(multiplier.0 == Variable(Index::Aux((post.na() - 1) as usize)).0);
            assert(cb == mid1.constraints@.last());
            assert forall|inp: Seq<nat>, ax: Seq<nat>|
                wf_assign(inp, ax, post.ni(), post.na()) implies ((#[trigger] constraint_holds(
                cb,
                inp,
                ax,
            ) && constraint_holds(cm, inp, ax) && constraint_holds(cz, inp, ax)) <==> ({
                let xa = var_val(self.variable, inp, ax);
                let xo = var_val(Variable(Index::Aux((post.na() - 2) as usize)), inp, ax);
                let xm = var_val(Variable(Index::Aux((post.na() - 1) as usize)), inp, ax);
                (xa == 0 && xo == 1) || (xa != 0 && xo == 0 && fmul(xm, xa) == 1)
            })) by {
                broadcast use
                    lemma_lc_eval_push,
                    lemma_fadd_bound,
                    lemma_fmul_bound,
                    lemma_fsub_bound;

                let xa = var_val(self.variable, inp, ax);
                let xo = var_val(out.variable, inp, ax);
                let xm = var_val(multiplier, inp, ax);
                assert(xa < prime() && xo < prime() && xm < prime());
                assert(var_val(one, inp, ax) == 1);
                // the boolean constraint on the output bit
                assert(constraint_holds(cb, inp, ax) <==> is_bit_val(xo));
                // m * a = 1 - out
                lemma_fmul_one(xm);
                lemma_fadd_zero(xm);
                lemma_fmul_one(xa);
                lemma_fadd_zero(xa);
                lemma_fmul_one(1);
                lemma_fadd_zero(1);
                lemma_fmul_neg_one(xo);
                lemma_fadd_fneg(1, xo);
                assert(lc_eval(cm.a.terms@, inp, ax) == xm);
                assert(lc_eval(cm.b.terms@, inp, ax) == xa);
                assert(lc_eval(cm.c.terms@, inp, ax) == fsub(1, xo));
                // out * a = 0
                lemma_fmul_one(xo);
                lemma_fadd_zero(xo);
                assert(lc_eval(cz.a.terms@, inp, ax) == xo);
                assert(lc_eval(cz.b.terms@, inp, ax) == xa);
                assert(lc_eval(cz.c.terms@, inp, ax) == 0);
                // forward direction
                if constraint_holds(cb, inp, ax) && constraint_holds(cm, inp, ax)
                    && constraint_holds(cz, inp, ax) {
                    if xa == 0 {
                        lemma_fmul_zero(xm);
                        assert(fsub(1, xo) == 0);
                        lemma_fsub_eq_zero(1, xo);
                        assert(xo == 1);
                    } else {
                        lemma_fmul_comm(xo, xa);
                        if xo != 0 {
                            lemma_no_zero_divisors(xa, xo);
                            assert(false);
                        }
                        assert(xo == 0);
                        lemma_fsub_eq_zero(1, 0);
                        assert(fsub(1nat, 0nat) == 1) by {
                            vstd::arithmetic::div_mod::lemma_small_mod(1, prime());
                        }
                    }
                }
                // backward direction
                if xa == 0 && xo == 1 {
                    lemma_fmul_zero(xm);
                    lemma_fmul_zero(xo);
                    lemma_fsub_eq_zero(1, 1);
                }
                if xa != 0 && xo == 0 && fmul(xm, xa) == 1 {
                    lemma_fmul_zero(xa);
                    assert(fmul(0, xa) == 0) by {
                        lemma_fmul_zero(xa);
                    }
                    lemma_fsub_eq_zero(1, 0);
                    assert(fsub(1nat, 0nat) == 1) by {
                        vstd::arithmetic::div_mod::lemma_small_mod(1, prime());
                    }
                }
            }
            if old(cs).witness {
                let f = mult_hint.unwrap();
                assert(mid2.aux@ == mid1.aux@.push(f));
                assert(post.aux@[(post.na() - 1) as int] == f);
                assert(var_val(multiplier, post.input_vals(), post.aux_vals()) == f.n());
                lemma_var_val_extend(
                    self.variable,
                    old(cs).input_vals(),
                    old(cs).aux_vals(),
                    post.input_vals(),
                    post.aux_vals(),
                );
                lemma_var_val_extend(
                    out.variable,
                    mid1.input_vals(),
                    mid1.aux_vals(),
                    post.input_vals(),
                    post.aux_vals(),
                );
            }
            if old(cs).witness && old(cs).sat() {
                assert(mid1.sat());
                lemma_sat_extend(mid1, mid2);
                lemma_sat_push(mid2, mid3, mid3.constraints@.last());
                lemma_sat_push(mid3, post, post.constraints@.last());
                post.lemma_own_assign_wf();
                let iv = post.input_vals();
                let axv = post.aux_vals();
                let xa = var_val(self.variable, iv, axv);
                assert(xa == av.n());
                if av.n() == 0 {
                    assert(var_val(out.variable, iv, axv) == 1);
                } else {
                    assert(var_val(out.variable, iv, axv) == 0);
                    assert(fmul(av.n(), mult_hint.unwrap().n()) == 1);
                    lemma_fmul_comm(av.n(), mult_hint.unwrap().n());
                }
                assert(constraint_holds(post.constraints@[post.constraints@.len() - 3], iv, axv));
                assert(post.sat());
            }
            self.lemma_wf_extend(*old(cs), post);
            out.lemma_wf_extend(mid1, post);
        }
        Ok(Boolean::Is(out))
    }

    /// The bit `self == other`, as the zero test of the difference: under
    /// every assignment satisfying the four registered constraints the
    /// output slot is the equality indicator of the operands' slots.
    pub fn is_equal(&self, cs: &mut ConstraintSystem, other: &Self) -> (r: Result<
        Boolean,
        SynthesisError,
    >)
        requires
            old(cs).wf(),
            self.wf(*old(cs)),
            other.wf(*old(cs)),
        ensures
            final(cs).witness == old(cs).witness,
            r is Ok <==> old(cs).witness,
            match r {
                Ok(b) => {
                    &&& final(cs).wf()
                    &&& final(cs).inputs@ == old(cs).inputs@
                    &&& old(cs).aux_vals().is_prefix_of(final(cs).aux_vals())
                    &&& self.wf(*final(cs))
                    &&& other.wf(*final(cs))
                    &&& b.wf(*final(cs))
                    &&& old(cs).constraints@.is_prefix_of(final(cs).constraints@)
                    &&& final(cs).constraints@.len() == old(cs).constraints@.len() + 4
                    &&& (old(cs).witness ==> (self.value matches Some(av) && other.value matches
                        Some(bv) && b.spec_value() == Some(av == bv)))
                    &&& (b matches Boolean::Is(bit) && (forall|inp: Seq<nat>, ax: Seq<nat>|
                        wf_assign(inp, ax, final(cs).ni(), final(cs).na()) ==> (
                        #[trigger] range_holds(
                            *final(cs),
                            old(cs).constraints@.len() as int,
                            inp,
                            ax,
                        ) ==> var_val(bit.variable, inp, ax) == b2n(
                            var_val(self.variable, inp, ax) == var_val(other.variable, inp, ax),
                        ))))
                    &&& (old(cs).witness && old(cs).sat() ==> final(cs).sat())
                },
                Err(e) => e == SynthesisError::AssignmentMissing,
            },
    {
        let ghost pre = *cs;
        let diff = match self.sub(cs, other) {
            Ok(d) => d,
            Err(e) => {
                proof {
                    assert(false);
                }
                return Err(e);
            },
        };
        let ghost mid = *cs;
        let b = match diff.is_zero(cs) {
            Ok(b) => b,
            Err(e) => {
                return Err(e);
            },
        };
        proof {
            if old(cs).witness {
                let av = self.value.unwrap();
                let bv = other.value.unwrap();
                let dv = diff.value.unwrap();
                assert(dv.n() == fsub(av.n(), bv.n()));
                lemma_fsub_eq_zero(av.n(), bv.n());
                assert((dv.n() == 0) <==> (av.n() == bv.n()));
                assert((av == bv) <==> (av.n() == bv.n()));
            }
            self.lemma_wf_extend(mid, *cs);
            other.lemma_wf_extend(mid, *cs);
            let post = *cs;
            let lo = old(cs).constraints@.len() as int;
            let n = post.constraints@.len() as int;
            assert(n == lo + 4);
            assert(mid.constraints@.is_prefix_of(post.constraints@));
            assert(mid.constraints@ == post.constraints@.subrange(0, mid.constraints@.len() as int));
            assert(post.constraints@[lo] == mid.constraints@.last());
            let bit = match b {
                Boolean::Is(bit) => bit,
                _ => arbitrary(),
            };
            assert(b matches Boolean::Is(bb) && bb == bit);
            assert(bit.variable.0 == Index::Aux((post.na() - 2) as usize));
            assert forall|inp: Seq<nat>, ax: Seq<nat>|
                wf_assign(inp, ax, post.ni(), post.na()) implies (#[trigger] range_holds(
                post,
                lo,
                inp,
                ax,
            ) ==> var_val(bit.variable, inp, ax) == b2n(
                var_val(self.variable, inp, ax) == var_val(other.variable, inp, ax),
            )) by {
                if range_holds(post, lo, inp, ax) {
                    let sa = var_val(self.variable, inp, ax);
                    let sb = var_val(other.variable, inp, ax);
                    let d = var_val(diff.variable, inp, ax);
                    let o = var_val(bit.variable, inp, ax);
                    assert(constraint_holds(post.constraints@[lo], inp, ax));
                    assert(d == fsub(sa, sb));
                    assert(constraint_holds(post.constraints@[n - 3], inp, ax));
                    assert(constraint_holds(post.constraints@[n - 2], inp, ax));
                    assert(constraint_holds(post.constraints@[n - 1], inp, ax));
                    let xo = var_val(
                        Variable(Index::Aux((post.na() - 2) as usize)),
                        inp,
                        ax,
                    );
                    assert(xo == o);
                    assert((d == 0 && xo == 1) || (d != 0 && xo == 0 && fmul(
                        var_val(Variable(Index::Aux((post.na() - 1) as usize)), inp, ax),
                        d,
                    ) == 1));
                    assert(sa < prime() && sb < prime());
                    lemma_fsub_eq_zero(sa, sb);
                    assert((d == 0) <==> (sa == sb));
                }
            }
        }
        Ok(b)
    }

    /// Returns `a` when the condition is false and `b` when it is true:
    /// allocates the result and registers `cond * (a - b) = a - out`.
    pub fn conditionally_select(
        cs: &mut ConstraintSystem,
        a: &Self,
        b: &Self,
        condition: &Boolean,
    ) -> (r: Result<Self, SynthesisError>)
        requires
            old(cs).wf(),
            a.wf(*old(cs)),
            b.wf(*old(cs)),
            condition.wf(*old(cs)),
        ensures
            final(cs).witness == old(cs).witness,
            match r {
                Ok(out) => {
                    &&& final(cs).wf()
                    &&& final(cs).inputs@ == old(cs).inputs@
                    &&& old(cs).aux_vals().is_prefix_of(final(cs).aux_vals())
                    &&& final(cs).na() == old(cs).na() + 1
                    &&& out.wf(*final(cs))
                    &&& a.wf(*final(cs))
                    &&& b.wf(*final(cs))
                    &&& condition.wf(*final(cs))
                    &&& (out.variable.0 matches Index::Aux(k) && k == old(cs).na())
                    &&& old(cs).constraints@.is_prefix_of(final(cs).constraints@)
                    &&& final(cs).constraints@.len() == old(cs).constraints@.len() + 1
                    &&& (old(cs).witness ==> (condition.spec_value() matches Some(cv) && a.value
                        matches Some(av) && b.value matches Some(bv) && out.value == Some(
                        if cv {
                            bv
                        } else {
                            av
                        },
                    )))
                    &&& (!old(cs).witness ==> out.value is None)
                    &&& (forall|inp: Seq<nat>, ax: Seq<nat>|
                        wf_assign(inp, ax, final(cs).ni(), final(cs).na()) ==> ((
                        condition.eval(inp, ax) == 0 ==> (#[trigger] constraint_holds(
                            final(cs).constraints@.last(),
                            inp,
                            ax,
                        ) <==> var_val(out.variable, inp, ax) == var_val(a.variable, inp, ax)))
                            && (condition.eval(inp, ax) == 1 ==> (constraint_holds(
                            final(cs).constraints@.last(),
                            inp,
                            ax,
                        ) <==> var_val(out.variable, inp, ax) == var_val(b.variable, inp, ax)))))
                    &&& (old(cs).witness && old(cs).sat() ==> final(cs).sat())
                },
                Err(_) => false,
            },
    {
        let value: Option<Fp> = if cs.witness {
            match (condition.get_value(), a.value, b.value) {
                (Some(cv), Some(av), Some(bv)) => Some(
                    if cv {
                        bv
                    } else {
                        av
                    },
                ),
                _ => {
                    proof {
                        condition.lemma_eval_matches_hint(*old(cs));
                        assert(false);
                    }
                    return Err(SynthesisError::AssignmentMissing);
                },
            }
        } else {
            None
        };
        let var = match cs.allocate(value) {
            Ok(v) => v,
            Err(_) => {
                proof {
                    assert(false);
                }
                return Err(SynthesisError::AssignmentMissing);
            },
        };
        let ghost mid = *cs;
        let one = ConstraintSystem::one();
        let a_lc = condition.lc(one, Fp::one());
        let b_lc = LinearCombination::zero().add_var(a.variable).sub_var(b.variable);
        let c_lc = LinearCombination::zero().add_var(a.variable).sub_var(var);
        proof {
            assert(condition.var_in_range(cs.ni(), cs.na()));
            assert(lc_in_range(a_lc.terms@, cs.ni(), cs.na()));
            assert(lc_in_range(b_lc.terms@, cs.ni(), cs.na()));
            assert(lc_in_range(c_lc.terms@, cs.ni(), cs.na()));
        }
        cs.enforce(a_lc, b_lc, c_lc);
        proof {
            let post = *cs;
            let cst = post.constraints@.last();
            assert forall|inp: Seq<nat>, ax: Seq<nat>|
                wf_assign(inp, ax, post.ni(), post.na()) implies ((condition.eval(inp, ax) == 0
                ==> (#[trigger] constraint_holds(cst, inp, ax) <==> var_val(var, inp, ax)
                == var_val(a.variable, inp, ax))) && (condition.eval(inp, ax) == 1 ==> (
            constraint_holds(cst, inp, ax) <==> var_val(var, inp, ax) == var_val(
                b.variable,
                inp,
                ax,
            )))) by {
                broadcast use
                    lemma_lc_eval_push,
                    lemma_fadd_bound,
                    lemma_fmul_bound,
                    lemma_fsub_bound;

                let e = condition.eval(inp, ax);
                let xa = var_val(a.variable, inp, ax);
                let xb = var_val(b.variable, inp, ax);
                let xo = var_val(var, inp, ax);
                assert(xa < prime() && xb < prime() && xo < prime());
                lemma_fmul_one(xa);
                lemma_fadd_zero(xa);
                lemma_fmul_neg_one(xb);
                lemma_fadd_fneg(xa, xb);
                lemma_fmul_neg_one(xo);
                lemma_fadd_fneg(xa, xo);
                assert(lc_eval(cst.b.terms@, inp, ax) == fsub(xa, xb));
                assert(lc_eval(cst.c.terms@, inp, ax) == fsub(xa, xo));
                if e == 0 || e == 1 {
                    assert(e < prime());
                    assert(lc_eval(cst.a.terms@, inp, ax) == fmul(1, e));
                    lemma_fmul_one(e);
                    assert(lc_eval(cst.a.terms@, inp, ax) == e);
                    if e == 0 {
                        lemma_fmul_zero(fsub(xa, xb));
                        lemma_fsub_eq_zero(xa, xo);
                    } else {
                        lemma_fmul_one(fsub(xa, xb));
                        lemma_fsub_cancel(xa, xb, xo);
                    }
                }
            }
            if old(cs).witness {
                let f = value.unwrap();
                assert(mid.aux@ == old(cs).aux@.push(f));
                assert(post.aux@[old(cs).na() as int] == f);
                assert(var_val(var, post.input_vals(), post.aux_vals()) == f.n());
                lemma_var_val_extend(
                    a.variable,
                    old(cs).input_vals(),
                    old(cs).aux_vals(),
                    post.input_vals(),
                    post.aux_vals(),
                );
                lemma_var_val_extend(
                    b.variable,
                    old(cs).input_vals(),
                    old(cs).aux_vals(),
                    post.input_vals(),
                    post.aux_vals(),
                );
            }
            if old(cs).witness && old(cs).sat() {
                lemma_sat_extend(*old(cs), mid);
                lemma_sat_push(mid, post, cst);
                post.lemma_own_assign_wf();
                condition.lemma_eval_matches_hint(*old(cs));
                condition.lemma_wf_extend(*old(cs), post);
                assert(post.sat());
            }
            a.lemma_wf_extend(*old(cs), post);
            b.lemma_wf_extend(*old(cs), post);
            condition.lemma_wf_extend(*old(cs), post);
        }
        Ok(AllocatedNum { value, variable: var })
    }

    /// Returns `(a, b)` when the condition is false and `(b, a)` when it is
    /// true, via two constraints `(a - b) * cond = a - c` and
    /// `(b - a) * cond = b - d`.
    #[verifier::rlimit(100)]
    #[verifier::spinoff_prover]
    pub fn conditionally_reverse(
        cs: &mut ConstraintSystem,
        a: &Self,
        b: &Self,
        condition: &Boolean,
    ) -> (r: Result<(Self, Self), SynthesisError>)
        requires
            old(cs).wf(),
            a.wf(*old(cs)),
            b.wf(*old(cs)),
            condition.wf(*old(cs)),
        ensures
            final(cs).witness == old(cs).witness,
            match r {
                Ok(pair) => {
                    &&& final(cs).wf()
                    &&& final(cs).inputs@ == old(cs).inputs@
                    &&& old(cs).aux_vals().is_prefix_of(final(cs).aux_vals())
                    &&& final(cs).na() == old(cs).na() + 2
                    &&& pair.0.wf(*final(cs))
                    &&& pair.1.wf(*final(cs))
                    &&& a.wf(*final(cs))
                    &&& b.wf(*final(cs))
                    &&& old(cs).constraints@.is_prefix_of(final(cs).constraints@)
                    &&& final(cs).constraints@.len() == old(cs).constraints@.len() + 2
                    &&& (old(cs).witness ==> (condition.spec_value() matches Some(cv) && a.value
                        matches Some(av) && b.value matches Some(bv) && pair.0.value == Some(
                        if cv {
                            bv
                        } else {
                            av
                        },
                    ) && pair.1.value == Some(
                        if cv {
                            av
                        } else {
                            bv
                        },
                    )))
                    &&& reverse_constraints_ok(
                        *final(cs),
                        a.variable,
                        b.variable,
                        pair.0.variable,
                        pair.1.variable,
                        *condition,
                    )
                    &&& (old(cs).witness && old(cs).sat() ==> final(cs).sat())
                },
                Err(_) => false,
            },
    {
        let c_value: Option<Fp> = if cs.witness {
            match (condition.get_value(), a.value, b.value) {
                (Some(cv), Some(av), Some(bv)) => Some(
                    if cv {
                        bv
                    } else {
                        av
                    },
                ),
                _ => {
                    proof {
                        condition.lemma_eval_matches_hint(*old(cs));
                        assert(false);
                    }
                    return Err(SynthesisError::AssignmentMissing);
                },
            }
        } else {
            None
        };
        let cnum = match cs.allocate(c_value) {
            Ok(v) => v,
            Err(_) => {
                proof {
                    assert(false);
                }
                return Err(SynthesisError::AssignmentMissing);
            },
        };
        let ghost mid1 = *cs;
        let one = ConstraintSystem::one();
        let a1 = LinearCombination::zero().add_var(a.variable).sub_var(b.variable);
        let b1 = condition.lc(one, Fp::one());
        let c1 = LinearCombination::zero().add_var(a.variable).sub_var(cnum);
        proof {
            assert(condition.var_in_range(cs.ni(), cs.na()));
            assert(lc_in_range(a1.terms@, cs.ni(), cs.na()));
            assert(lc_in_range(b1.terms@, cs.ni(), cs.na()));
            assert(lc_in_range(c1.terms@, cs.ni(), cs.na()));
        }
        cs.enforce(a1, b1, c1);
        let ghost mid2 = *cs;
        let d_value: Option<Fp> = if cs.witness {
            match (condition.get_value(), a.value, b.value) {
                (Some(cv), Some(av), Some(bv)) => Some(
                    if cv {
                        av
                    } else {
                        bv
                    },
                ),
                _ => {
                    proof {
                        assert(false);
                    }
                    return Err(SynthesisError::AssignmentMissing);
                },
            }
        } else {
            None
        };
        let dnum = match cs.allocate(d_value) {
            Ok(v) => v,
            Err(_) => {
                proof {
                    assert(false);
                }
                return Err(SynthesisError::AssignmentMissing);
            },
        };
        let ghost mid3 = *cs;
        let a2 = LinearCombination::zero().add_var(b.variable).sub_var(a.variable);
        let b2 = condition.lc(one, Fp::one());
        let c2 = LinearCombination::zero().add_var(b.variable).sub_var(dnum);
        proof {
            assert(condition.var_in_range(cs.ni(), cs.na()));
            assert(lc_in_range(a2.terms@, cs.ni(), cs.na()));
            assert(lc_in_range(b2.terms@, cs.ni(), cs.na()));
            assert(lc_in_range(c2.terms@, cs.ni(), cs.na()));
        }
        cs.enforce(a2, b2, c2);
        proof {
            let post = *cs;
            let n = post.constraints@.len();
            assert forall|inp: Seq<nat>, ax: Seq<nat>|
                wf_assign(inp, ax, post.ni(), post.na()) implies ((condition.eval(inp, ax) == 0
                ==> ((#[trigger] constraint_holds(
                post.constraints@[post.constraints@.len() - 2],
                inp,
                ax,
            ) <==> var_val(cnum, inp, ax) == var_val(a.variable, inp, ax)) && (constraint_holds(
                post.constraints@.last(),
                inp,
                ax,
            ) <==> var_val(dnum, inp, ax) == var_val(b.variable, inp, ax)))) && (condition.eval(
                inp,
                ax,
            ) == 1 ==> ((constraint_holds(post.constraints@[post.constraints@.len() - 2], inp, ax)
                <==> var_val(cnum, inp, ax) == var_val(b.variable, inp, ax)) && (constraint_holds(
                post.constraints@.last(),
                inp,
                ax,
            ) <==> var_val(dnum, inp, ax) == var_val(a.variable, inp, ax))))) by {
                let k1 = post.constraints@[n - 2];
                let k2 = post.constraints@.last();
                broadcast use
                    lemma_lc_eval_push,
                    lemma_fadd_bound,
                    lemma_fmul_bound,
                    lemma_fsub_bound;

                let e = condition.eval(inp, ax);
                let xa = var_val(a.variable, inp, ax);
                let xb = var_val(b.variable, inp, ax);
                let xc = var_val(cnum, inp, ax);
                let xd = var_val(dnum, inp, ax);
                assert(xa < prime() && xb < prime() && xc < prime() && xd < prime());
                lemma_fmul_one(xa);
                lemma_fadd_zero(xa);
                lemma_fmul_one(xb);
                lemma_fadd_zero(xb);
                lemma_fmul_neg_one(xa);
                lemma_fmul_neg_one(xb);
                lemma_fmul_neg_one(xc);
                lemma_fmul_neg_one(xd);
                lemma_fadd_fneg(xa, xb);
                lemma_fadd_fneg(xb, xa);
                lemma_fadd_fneg(xa, xc);
                lemma_fadd_fneg(xb, xd);
                assert(lc_eval(k1.a.terms@, inp, ax) == fsub(xa, xb));
                assert(lc_eval(k1.c.terms@, inp, ax) == fsub(xa, xc));
                assert(lc_eval(k2.a.terms@, inp, ax) == fsub(xb, xa));
                assert(lc_eval(k2.c.terms@, inp, ax) == fsub(xb, xd));
                if e == 0 || e == 1 {
                    assert(e < prime());
                    assert(lc_eval(k1.b.terms@, inp, ax) == fmul(1, e));
                    assert(lc_eval(k2.b.terms@, inp, ax) == fmul(1, e));
                    lemma_fmul_one(e);
                    if e == 0 {
                        lemma_fmul_zero(fsub(xa, xb));
                        lemma_fmul_zero(fsub(xb, xa));
                        lemma_fsub_eq_zero(xa, xc);
                        lemma_fsub_eq_zero(xb, xd);
                    } else {
                        lemma_fmul_one(fsub(xa, xb));
                        lemma_fmul_one(fsub(xb, xa));
                        lemma_fsub_cancel(xa, xb, xc);
                        lemma_fsub_cancel(xb, xa, xd);
                    }
                }
            }
            assert(reverse_constraints_ok(
                post,
                a.variable,
                b.variable,
                cnum,
                dnum,
                *condition,
            ));
            if old(cs).witness {
                let fc = c_value.unwrap();
                let fd = d_value.unwrap();
                assert(mid1.aux@ == old(cs).aux@.push(fc));
                assert(mid3.aux@ == mid1.aux@.push(fd));
                assert(post.aux@[old(cs).na() as int] == fc);
                assert(post.aux@[(old(cs).na() + 1) as int] == fd);
                assert(var_val(cnum, post.input_vals(), post.aux_vals()) == fc.n());
                assert(var_val(dnum, post.input_vals(), post.aux_vals()) == fd.n());
                lemma_var_val_extend(
                    a.variable,
                    old(cs).input_vals(),
                    old(cs).aux_vals(),
                    post.input_vals(),
                    post.aux_vals(),
                );
                lemma_var_val_extend(
                    b.variable,
                    old(cs).input_vals(),
                    old(cs).aux_vals(),
                    post.input_vals(),
                    post.aux_vals(),
                );
            }
            if old(cs).witness && old(cs).sat() {
                lemma_sat_extend(*old(cs), mid1);
                lemma_sat_push(mid1, mid2, mid2.constraints@.last());
                lemma_sat_extend(mid2, mid3);
                lemma_sat_push(mid3, post, post.constraints@.last());
                post.lemma_own_assign_wf();
                condition.lemma_eval_matches_hint(*old(cs));
                condition.lemma_wf_extend(*old(cs), post);
                a.lemma_wf_extend(*old(cs), post);
                b.lemma_wf_extend(*old(cs), post);
                let iv = post.input_vals();
                let axv = post.aux_vals();
                let cv = condition.spec_value().unwrap();
                assert(condition.eval(iv, axv) == b2n(cv));
                assert(mid3.input_vals() == iv && mid3.aux_vals() == axv);
                assert(mid2.constraints@.last() == post.constraints@[
                    post.constraints@.len() - 2
                ]);
                let h1 = constraint_holds(
                    post.constraints@[post.constraints@.len() - 2],
                    iv,
                    axv,
                );
                let h2 = constraint_holds(post.constraints@.last(), iv, axv);
                assert(var_val(cnum, iv, axv) == c_value.unwrap().n());
                assert(var_val(dnum, iv, axv) == d_value.unwrap().n());
                if cv {
                    assert(var_val(cnum, iv, axv) == var_val(b.variable, iv, axv));
                    assert(var_val(dnum, iv, axv) == var_val(a.variable, iv, axv));
                    assert(h1 && h2);
                } else {
                    assert(var_val(cnum, iv, axv) == var_val(a.variable, iv, axv));
                    assert(var_val(dnum, iv, axv) == var_val(b.variable, iv, axv));
                    assert(h1 && h2);
                }
                assert(post.sat());
            }
            a.lemma_wf_extend(*old(cs), post);
            b.lemma_wf_extend(*old(cs), post);
        }
        Ok((AllocatedNum { value: c_value, variable: cnum }, AllocatedNum {
            value: d_value,
            variable: dnum,
        }))
    }

    /// One level of the balanced selection network: selects among
    /// `inputs[start..end]` using `bits[bi..]`, most-significant bit first.
    fn mux_rec(
        cs: &mut ConstraintSystem,
        bits: &Vec<Boolean>,
        bi: usize,
        inputs: &Vec<AllocatedNum>,
        start: usize,
        end: usize,
    ) -> (r: Result<Self, SynthesisError>)
        requires
            old(cs).wf(),
            bi <= bits@.len(),
            start <= end <= inputs@.len(),
            forall|i: int| 0 <= i < bits@.len() ==> (#[trigger] bits@[i]).wf(*old(cs)),
            forall|i: int| 0 <= i < inputs@.len() ==> (#[trigger] inputs@[i]).wf(*old(cs)),
        ensures
            final(cs).witness == old(cs).witness,
            final(cs).wf(),
            final(cs).inputs@ == old(cs).inputs@,
            old(cs).aux_vals().is_prefix_of(final(cs).aux_vals()),
            old(cs).constraints@.is_prefix_of(final(cs).constraints@),
            forall|i: int| 0 <= i < bits@.len() ==> (#[trigger] bits@[i]).wf(*final(cs)),
            forall|i: int| 0 <= i < inputs@.len() ==> (#[trigger] inputs@[i]).wf(*final(cs)),
            old(cs).witness && old(cs).sat() ==> final(cs).sat(),
            r is Ok <==> end - start == pow2((bits@.len() - bi) as nat),
            match r {
                Ok(out) => {
                    &&& out.wf(*final(cs))
                    &&& final(cs).constraints@.len() == old(cs).constraints@.len() + (end - start
                        - 1)
                    &&& final(cs).na() == old(cs).na() + (end - start - 1)
                    &&& (old(cs).witness ==> out.value == inputs@[start + sel_index(
                        bits@,
                        bi as int,
                    )].value && out.value is Some)
                    &&& (forall|inp: Seq<nat>, ax: Seq<nat>|
                        wf_assign(inp, ax, final(cs).ni(), final(cs).na()) ==> ((
                        #[trigger] range_holds(
                            *final(cs),
                            old(cs).constraints@.len() as int,
                            inp,
                            ax,
                        ) && (forall|t: int|
                            bi <= t < bits@.len() ==> is_bit_val(
                                (#[trigger] bits@[t]).eval(inp, ax),
                            ))) ==> var_val(out.variable, inp, ax) == var_val(
                            inputs@[start + slot_sel_index(bits@, bi as int, inp, ax)].variable,
                            inp,
                            ax,
                        )))
                },
                Err(e) => e == SynthesisError::Unsatisfiable && *final(cs) == *old(cs),
            },
        decreases bits@.len() - bi,
    {
        proof {
            lemma_sel_index_bound(bits@, bi as int);
        }
        if bi == bits.len() {
            if end - start != 1 {
                proof {
                    assert(pow2(0) == 1) by {
                        vstd::arithmetic::power2::lemma2_to64();
                    }
                }
                return Err(SynthesisError::Unsatisfiable);
            }
            proof {
                assert(pow2(0) == 1) by {
                    vstd::arithmetic::power2::lemma2_to64();
                }
                assert forall|inp: Seq<nat>, ax: Seq<nat>|
                    wf_assign(inp, ax, cs.ni(), cs.na()) implies var_val(
                    inputs@[start as int].variable,
                    inp,
                    ax,
                ) == var_val(
                    inputs@[start + slot_sel_index(bits@, bi as int, inp, ax)].variable,
                    inp,
                    ax,
                ) by {
                    assert(slot_sel_index(bits@, bi as int, inp, ax) == 0);
                }
            }
            Ok(inputs[start])
        } else {
            let ghost k = (bits@.len() - bi) as nat;
            proof {
                lemma_pow2_unfold(k);
                lemma_pow2_pos((k - 1) as nat);
            }
            if (end - start) % 2 != 0 {
                return Err(SynthesisError::Unsatisfiable);
            }
            let half = (end - start) / 2;
            let mid = start + half;
            let left = match Self::mux_rec(cs, bits, bi + 1, inputs, start, mid) {
                Ok(l) => l,
                Err(e) => {
                    return Err(e);
                },
            };
            let ghost m1 = *cs;
            let right = match Self::mux_rec(cs, bits, bi + 1, inputs, mid, end) {
                Ok(rr) => rr,
                Err(e) => {
                    proof {
                        assert(end - mid == mid - start);
                        assert(false);
                    }
                    return Err(e);
                },
            };
            let ghost m2 = *cs;
            proof {
                left.lemma_wf_extend(m1, m2);
            }
            let bit = bits[bi];
            let out = match Self::conditionally_select(cs, &left, &right, &bit) {
                Ok(o) => o,
                Err(_) => {
                    proof {
                        assert(false);
                    }
                    return Err(SynthesisError::Unsatisfiable);
                },
            };
            proof {
                let post = *cs;
                assert forall|i: int| 0 <= i < bits@.len() implies (#[trigger] bits@[i]).wf(post) by {
                    bits@[i].lemma_wf_extend(m2, post);
                }
                assert forall|i: int| 0 <= i < inputs@.len() implies (#[trigger] inputs@[i]).wf(
                    post,
                ) by {
                    inputs@[i].lemma_wf_extend(m2, post);
                }
                let lo = old(cs).constraints@.len() as int;
                assert forall|inp: Seq<nat>, ax: Seq<nat>|
                    wf_assign(inp, ax, post.ni(), post.na()) implies ((#[trigger] range_holds(
                    post,
                    lo,
                    inp,
                    ax,
                ) && (forall|t: int|
                    bi <= t < bits@.len() ==> is_bit_val((#[trigger] bits@[t]).eval(inp, ax))))
                    ==> var_val(out.variable, inp, ax) == var_val(
                    inputs@[start + slot_sel_index(bits@, bi as int, inp, ax)].variable,
                    inp,
                    ax,
                )) by {
                    if range_holds(post, lo, inp, ax) && (forall|t: int|
                        bi <= t < bits@.len() ==> is_bit_val((#[trigger] bits@[t]).eval(inp, ax))) {
                        lemma_range_holds_prefix(m2, post, lo, inp, ax);
                        lemma_range_holds_prefix(m1, m2, lo, inp, ax);
                        assert(range_holds(m2, m1.constraints@.len() as int, inp, ax)) by {
                            assert forall|k2: int|
                                m1.constraints@.len() <= k2
                                    < m2.constraints@.len() implies constraint_holds(
                                #[trigger] m2.constraints@[k2],
                                inp,
                                ax,
                            ) by {
                                assert(lo <= k2);
                            }
                        }
                        let e = bits@[bi as int].eval(inp, ax);
                        assert(is_bit_val(e));
                        let s_sub = slot_sel_index(bits@, bi + 1, inp, ax);
                        assert(var_val(left.variable, inp, ax) == var_val(
                            inputs@[start + s_sub].variable,
                            inp,
                            ax,
                        ));
                        assert(var_val(right.variable, inp, ax) == var_val(
                            inputs@[mid + s_sub].variable,
                            inp,
                            ax,
                        ));
                        assert(constraint_holds(post.constraints@.last(), inp, ax));
                        assert(slot_sel_index(bits@, bi as int, inp, ax) == e * pow2(
                            (k - 1) as nat,
                        ) + s_sub);
                        assert(half == pow2((k - 1) as nat));
                        if e == 0 {
                            assert(var_val(out.variable, inp, ax) == var_val(
                                left.variable,
                                inp,
                                ax,
                            ));
                            assert(e * pow2((k - 1) as nat) == 0);
                        } else {
                            assert(var_val(out.variable, inp, ax) == var_val(
                                right.variable,
                                inp,
                                ax,
                            ));
                            assert(e * pow2((k - 1) as nat) == pow2((k - 1) as nat));
                            assert(start + slot_sel_index(bits@, bi as int, inp, ax) == mid
                                + s_sub);
                        }
                    }
                }
                if old(cs).witness {
                    let cv = bit.spec_value().unwrap();
                    assert(sel_index(bits@, bi as int) == b2n(cv) * pow2((k - 1) as nat)
                        + sel_index(bits@, bi + 1));
                    assert(half == pow2((k - 1) as nat));
                    if cv {
                        assert(out.value == right.value);
                        assert(start + sel_index(bits@, bi as int) == mid + sel_index(
                            bits@,
                            bi + 1,
                        ));
                    } else {
                        assert(out.value == left.value);
                        assert(start + sel_index(bits@, bi as int) == start + sel_index(
                            bits@,
                            bi + 1,
                        ));
                    }
                }
            }
            Ok(out)
        }
    }

    /// Selects one of `2^k` inputs using `k` ordered selector bits, most
    /// significant first, through a balanced network of conditional
    /// selections; a count mismatch fails before the mismatching level
    /// registers any constraint.
    pub fn mux_tree(
        cs: &mut ConstraintSystem,
        select_bits: &Vec<Boolean>,
        inputs: &Vec<AllocatedNum>,
    ) -> (r: Result<Self, SynthesisError>)
        requires
            old(cs).wf(),
            forall|i: int| 0 <= i < select_bits@.len() ==> (#[trigger] select_bits@[i]).wf(*old(cs)),
            forall|i: int| 0 <= i < inputs@.len() ==> (#[trigger] inputs@[i]).wf(*old(cs)),
        ensures
            final(cs).witness == old(cs).witness,
            final(cs).wf(),
            final(cs).inputs@ == old(cs).inputs@,
            old(cs).aux_vals().is_prefix_of(final(cs).aux_vals()),
            old(cs).constraints@.is_prefix_of(final(cs).constraints@),
            old(cs).witness && old(cs).sat() ==> final(cs).sat(),
            r is Ok <==> inputs@.len() == pow2(select_bits@.len()),
            match r {
                Ok(out) => {
                    &&& out.wf(*final(cs))
                    &&& final(cs).constraints@.len() == old(cs).constraints@.len()
                        + (inputs@.len() - 1)
                    &&& final(cs).na() == old(cs).na() + (inputs@.len() - 1)
                    &&& (old(cs).witness ==> out.value == inputs@[sel_index(select_bits@, 0) as int].value
                        && out.value is Some)
                    &&& (forall|inp: Seq<nat>, ax: Seq<nat>|
                        wf_assign(inp, ax, final(cs).ni(), final(cs).na()) ==> ((
                        #[trigger] range_holds(
                            *final(cs),
                            old(cs).constraints@.len() as int,
                            inp,
                            ax,
                        ) && (forall|t: int|
                            0 <= t < select_bits@.len() ==> is_bit_val(
                                (#[trigger] select_bits@[t]).eval(inp, ax),
                            ))) ==> var_val(out.variable, inp, ax) == var_val(
                            inputs@[slot_sel_index(select_bits@, 0, inp, ax) as int].variable,
                            inp,
                            ax,
                        )))
                },
                Err(e) => e == SynthesisError::Unsatisfiable && *final(cs) == *old(cs),
            },
    {
        Self::mux_rec(cs, select_bits, 0, inputs, 0, inputs.len())
    }
}

/// The two reversal constraints pin the outputs: whenever the condition
/// evaluates to zero the outputs equal `(a, b)`, and whenever it evaluates
/// to one they equal `(b, a)`, under every covering assignment.
pub open spec fn reverse_constraints_ok(
    sys: ConstraintSystem,
    avar: Variable,
    bvar: Variable,
    cvar: Variable,
    dvar: Variable,
    cond: Boolean,
) -> bool {
    forall|inp: Seq<nat>, ax: Seq<nat>|
        wf_assign(inp, ax, sys.ni(), sys.na()) ==> ((cond.eval(inp, ax) == 0 ==> ((
        #[trigger] constraint_holds(sys.constraints@[sys.constraints@.len() - 2], inp, ax) <==>
        var_val(cvar, inp, ax) == var_val(avar, inp, ax)) && (constraint_holds(
            sys.constraints@.last(),
            inp,
            ax,
        ) <==> var_val(dvar, inp, ax) == var_val(bvar, inp, ax)))) && (cond.eval(inp, ax) == 1
            ==> ((constraint_holds(sys.constraints@[sys.constraints@.len() - 2], inp, ax) <==>
        var_val(cvar, inp, ax) == var_val(bvar, inp, ax)) && (constraint_holds(
            sys.constraints@.last(),
            inp,
            ax,
        ) <==> var_val(dvar, inp, ax) == var_val(avar, inp, ax)))))
}

/// The input position a run of most-significant-first selector bits picks
/// out, starting from position `bi` of the bit list.
pub open spec fn sel_index(bits: Seq<Boolean>, bi: int) -> nat
    decreases bits.len() - bi,
{
    if bi < 0 || bi >= bits.len() {
        0
    } else {
        b2n(bits[bi].spec_value().unwrap()) * pow2((bits.len() - bi - 1) as nat) + sel_index(
            bits,
            bi + 1,
        )
    }
}

/// The input position the selector bits' assigned slots pick out, starting
/// from position `bi`, under an assignment.
pub open spec fn slot_sel_index(
    bits: Seq<Boolean>,
    bi: int,
    inputs: Seq<nat>,
    aux: Seq<nat>,
) -> nat
    decreases bits.len() - bi,
{
    if bi < 0 || bi >= bits.len() {
        0
    } else {
        bits[bi].eval(inputs, aux) * pow2((bits.len() - bi - 1) as nat) + slot_sel_index(
            bits,
            bi + 1,
            inputs,
            aux,
        )
    }
}

pub proof fn lemma_sel_index_bound(bits: Seq<Boolean>, bi: int)
    requires
        0 <= bi <= bits.len(),
    ensures
        sel_index(bits, bi) < pow2((bits.len() - bi) as nat),
    decreases bits.len() - bi,
{
    if bi == bits.len() {
        assert(pow2(0) == 1) by {
            vstd::arithmetic::power2::lemma2_to64();
        }
    } else {
        lemma_sel_index_bound(bits, bi + 1);
        lemma_pow2_unfold((bits.len() - bi) as nat);
    }
}

/// A field value expressed as a pending linear combination with an optional
/// hint; no witness variable is allocated and no constraint is registered.
#[derive(Debug)]
pub struct Num {
    pub value: Option<Fp>,
    pub lc: LinearCombination,
}

impl Clone for Num {
    fn clone(&self) -> (r: Self)
        ensures
            r.value == self.value,
            r.lc.terms@ == self.lc.terms@,
    {
        Num { value: self.value, lc: self.lc.clone() }
    }
}

impl Num {
    /// Hints are canonical, coefficients are canonical, and the
    /// combination is a map: each variable has a single entry.
    pub open spec fn wf(self) -> bool {
        &&& lc_coeffs_wf(self.lc.terms@)
        &&& lc_unique(self.lc.terms@)
        &&& (self.value matches Some(f) ==> f.wf())
    }

    /// A committed number as a deferred one: its single-variable
    /// combination with coefficient one.
    pub fn from(num: AllocatedNum) -> (r: Num)
        ensures
            r.value == num.value,
            lc_coeffs_wf(r.lc.terms@),
            lc_unique(r.lc.terms@),
            r.lc.terms@.len() == 1,
            r.lc.terms@[0] == (num.variable, Fp { v: 1u64 }),
            forall|inp: Seq<nat>, ax: Seq<nat>|
                var_val(num.variable, inp, ax) < prime() ==> #[trigger] lc_eval(
                    r.lc.terms@,
                    inp,
                    ax,
                ) == var_val(num.variable, inp, ax),
    {
        let lc = LinearCombination::from_variable(num.get_variable());
        proof {
            assert forall|inp: Seq<nat>, ax: Seq<nat>|
                var_val(num.variable, inp, ax) < prime() implies #[trigger] lc_eval(
                lc.terms@,
                inp,
                ax,
            ) == var_val(num.variable, inp, ax) by {
                broadcast use lemma_lc_eval_push, lemma_fmul_bound;

                let x = var_val(num.variable, inp, ax);
                lemma_fmul_one(x);
                lemma_fadd_zero(x);
            }
        }
        Num { value: num.value, lc }
    }

    /// The additive identity: hint zero, empty combination.
    pub fn zero() -> (r: Num)
        ensures
            r.wf(),
            r.value == Some(Fp { v: 0u64 }),
            r.lc.terms@.len() == 0,
    {
        Num { value: Some(Fp::zero()), lc: LinearCombination::zero() }
    }

    pub fn get_value(&self) -> (r: Option<Fp>)
        ensures
            r == self.value,
    {
        self.value
    }

    /// The accumulator's combination, pre-multiplied by `coeff`.
    pub fn lc(&self, coeff: Fp) -> (r: LinearCombination)
        requires
            coeff.wf(),
            self.wf(),
        ensures
            lc_coeffs_wf(r.terms@),
            r.terms@.len() == self.lc.terms@.len(),
            forall|i: int|
                0 <= i < self.lc.terms@.len() ==> (#[trigger] r.terms@[i]).0
                    == self.lc.terms@[i].0 && r.terms@[i].1.n() == fmul(
                    coeff.n(),
                    self.lc.terms@[i].1.n(),
                ),
            forall|inp: Seq<nat>, ax: Seq<nat>| #[trigger] lc_eval(r.terms@, inp, ax) == fmul(
                coeff.n(),
                lc_eval(self.lc.terms@, inp, ax),
            ),
    {
        let r = self.lc.scaled(coeff);
        proof {
            assert forall|inp: Seq<nat>, ax: Seq<nat>| #[trigger] lc_eval(r.terms@, inp, ax)
                == fmul(coeff.n(), lc_eval(self.lc.terms@, inp, ax)) by {
                lemma_lc_eval_scaled(self.lc.terms@, r.terms@, coeff.n(), inp, ax);
            }
        }
        r
    }

    /// Folds a boolean's contribution, scaled by `coeff`, into the
    /// accumulator without allocating: the hint gains `coeff` exactly when
    /// the bit is set, and becomes absent if either side's hint is absent.
    pub fn add_bool_with_coeff(self, one: Variable, bit: &Boolean, coeff: Fp) -> (r: Num)
        requires
            self.wf(),
            coeff.wf(),
            one.0 == Index::Input(0),
        ensures
            r.wf(),
            (self.value is None || bit.spec_value() is None) ==> r.value is None,
            self.value matches Some(cur) ==> bit.spec_value() matches Some(bv) ==> (r.value
                matches Some(nv) && nv.n() == (if bv {
                fadd(cur.n(), coeff.n())
            } else {
                cur.n()
            })),
            forall|inp: Seq<nat>, ax: Seq<nat>|
                inp.len() >= 1 && inp[0] == 1 ==> #[trigger] lc_eval(r.lc.terms@, inp, ax) == fadd(
                    lc_eval(self.lc.terms@, inp, ax),
                    fmul(coeff.n(), bit.eval(inp, ax)),
                ),
    {
        let newval: Option<Fp> = match (self.value, bit.get_value()) {
            (Some(cur), Some(bv)) => Some(
                if bv {
                    cur.add(coeff)
                } else {
                    cur
                },
            ),
            _ => None,
        };
        let blc = bit.lc(one, coeff);
        let lc = self.lc.merge_lc(&blc);
        proof {
            assert forall|inp: Seq<nat>, ax: Seq<nat>|
                inp.len() >= 1 && inp[0] == 1 implies #[trigger] lc_eval(lc.terms@, inp, ax)
                == fadd(
                lc_eval(self.lc.terms@, inp, ax),
                fmul(coeff.n(), bit.eval(inp, ax)),
            ) by {
                assert(lc_eval(blc.terms@, inp, ax) == fmul(coeff.n(), bit.eval(inp, ax)));
            }
        }
        Num { value: newval, lc }
    }

    /// Merges two accumulators by key: coefficients of a shared variable
    /// add, each variable keeps a single entry, hints add, and an absent
    /// hint on either side makes the merged hint absent.
    pub fn add(self, other: &Num) -> (r: Num)
        requires
            self.wf(),
            other.wf(),
        ensures
            r.wf(),
            (self.value is None || other.value is None) ==> r.value is None,
            self.value matches Some(av) ==> other.value matches Some(bv) ==> (r.value matches
                Some(nv) && nv.n() == fadd(av.n(), bv.n())),
            forall|w: Variable| #[trigger] lc_coeff(r.lc.terms@, w) == fadd(
                lc_coeff(self.lc.terms@, w),
                lc_coeff(other.lc.terms@, w),
            ),
            forall|inp: Seq<nat>, ax: Seq<nat>| #[trigger] lc_eval(r.lc.terms@, inp, ax) == fadd(
                lc_eval(self.lc.terms@, inp, ax),
                lc_eval(other.lc.terms@, inp, ax),
            ),
    {
        let value: Option<Fp> = match (self.value, other.value) {
            (Some(av), Some(bv)) => Some(av.add(bv)),
            _ => None,
        };
        let lc = self.lc.merge_lc(&other.lc);
        Num { value, lc }
    }

    /// Rescales the accumulator: every coefficient and the hint are
    /// multiplied by the scalar.
    pub fn scale(self, scalar: Fp) -> (r: Num)
        requires
            self.wf(),
            scalar.wf(),
        ensures
            r.wf(),
            self.value is None ==> r.value is None,
            self.value matches Some(av) ==> (r.value matches Some(nv) && nv.n() == fmul(
                av.n(),
                scalar.n(),
            )),
            r.lc.terms@.len() == self.lc.terms@.len(),
            forall|i: int|
                0 <= i < self.lc.terms@.len() ==> (#[trigger] r.lc.terms@[i]).0
                    == self.lc.terms@[i].0 && r.lc.terms@[i].1.n() == fmul(
                    scalar.n(),
                    self.lc.terms@[i].1.n(),
                ),
            forall|inp: Seq<nat>, ax: Seq<nat>| #[trigger] lc_eval(r.lc.terms@, inp, ax) == fmul(
                scalar.n(),
                lc_eval(self.lc.terms@, inp, ax),
            ),
    {
        let value: Option<Fp> = match self.value {
            Some(av) => Some(av.mul(scalar)),
            None => None,
        };
        let lc = self.lc.scaled(scalar);
        proof {
            assert forall|inp: Seq<nat>, ax: Seq<nat>| #[trigger] lc_eval(lc.terms@, inp, ax)
                == fmul(scalar.n(), lc_eval(self.lc.terms@, inp, ax)) by {
                lemma_lc_eval_scaled(self.lc.terms@, lc.terms@, scalar.n(), inp, ax);
            }
            if self.value is Some {
                crate::field::lemma_fmul_comm(self.value.unwrap().n(), scalar.n());
            }
            assert forall|i: int, j: int|
                0 <= i < j < lc.terms@.len() implies (#[trigger] lc.terms@[i]).0 != (
            #[trigger] lc.terms@[j]).0 by {
                assert(lc.terms@[i].0 == self.lc.terms@[i].0);
                assert(lc.terms@[j].0 == self.lc.terms@[j].0);
            }
        }
        Num { value, lc }
    }
}

} // verus!
