//! Little-endian bit decomposition of committed numbers.
//!
//! The weak form serializes a value into bit witnesses and registers one
//! packing constraint tying their weighted sum to the value modulo the
//! characteristic; that alone admits the aliased representation in which
//! the characteristic has been added to the value. The strict form
//! additionally runs a bit-serial range check against the characteristic
//! minus one: bits are allocated freely inside runs of ones of the bound,
//! each run is folded into a single flag by iterated conjunction, and at
//! every zero of the bound the next bit is allocated under a constraint
//! that forces it to zero whenever the flag reports an exact match so far.

use vstd::prelude::*;
use vstd::arithmetic::power2::{
    pow2, lemma_pow2_pos, lemma_pow2_unfold, lemma_pow2_strictly_increases, lemma2_to64,
};
use vstd::arithmetic::div_mod::{
    lemma_fundamental_div_mod, lemma_fundamental_div_mod_converse, lemma_basic_div,
    lemma_div_is_ordered, lemma_div_denominator, lemma_small_mod, lemma_mod_decreases,
    lemma_mod_bound, lemma_add_mod_noop,
};
use crate::field::{
    Fp, MODULUS, NUM_BITS, prime, fadd, fsub, fneg, fmul, lemma_fadd_bound, lemma_fmul_bound,
    lemma_fsub_bound, lemma_fadd_zero, lemma_fmul_one, lemma_fmul_zero, lemma_fmul_neg_one,
    lemma_fadd_fneg, lemma_fsub_eq_zero,
};
use crate::cs::{
    Index, Variable, SynthesisError, ConstraintSystem, LinearCombination, var_val, wf_assign,
    lc_eval, lc_coeffs_wf, lc_in_range, constraint_holds, lemma_lc_eval_push, lemma_sat_extend,
    lemma_sat_push, lemma_prefix_trans,
};
use crate::boolean::{AllocatedBit, Boolean, b2n, is_bit_val};
use crate::num::AllocatedNum;

verus! {

/// Bit `i` of a natural number.
pub open spec fn bit_of(v: nat, i: nat) -> bool {
    (v / pow2(i)) % 2 == 1
}

/// The first `n` bits of a natural number, least significant first.
pub open spec fn bitseq(v: nat, n: nat) -> Seq<bool> {
    Seq::new(n, |i: int| bit_of(v, i as nat))
}

/// The value of a little-endian bit string.
pub open spec fn bits_value(s: Seq<bool>) -> nat
    decreases s.len(),
{
    if s.len() == 0 {
        0
    } else {
        bits_value(s.drop_last()) + (if s.last() {
            pow2((s.len() - 1) as nat)
        } else {
            0
        })
    }
}

/// The range-check bound: the characteristic minus one.
pub open spec fn bound_val() -> nat {
    (MODULUS - 1) as nat
}

/// Bits above the magnitude of a value are clear.
pub proof fn lemma_bit_high_zero(v: nat, i: nat)
    requires
        v < pow2(i),
    ensures
        !bit_of(v, i),
{
    lemma_pow2_pos(i);
    lemma_basic_div(v as int, pow2(i) as int);
}

/// Dividing out one fewer bit position exposes that bit.
proof fn lemma_bit_step(v: nat, i: nat)
    ensures
        v / pow2(i) == 2 * (v / pow2(i + 1)) + (if bit_of(v, i) {
            1nat
        } else {
            0nat
        }),
{
    lemma_pow2_pos(i);
    lemma_pow2_pos(i + 1);
    lemma_pow2_unfold(i + 1);
    lemma_div_denominator(v as int, pow2(i) as int, 2);
    assert(pow2(i) * 2 == pow2(i + 1));
    assert((v / pow2(i)) / 2 == v / pow2(i + 1));
    lemma_fundamental_div_mod((v / pow2(i)) as int, 2);
    lemma_mod_bound((v / pow2(i)) as int, 2);
}

/// Two values agree on all bits at and above position `i` exactly when
/// they agree above `i` and at `i`.
proof fn lemma_match_step(v: nat, b: nat, i: nat)
    ensures
        (v / pow2(i + 1) == b / pow2(i + 1) && bit_of(v, i) == bit_of(b, i)) <==> v / pow2(i) == b
            / pow2(i),
{
    lemma_bit_step(v, i);
    lemma_bit_step(b, i);
    let s: nat = if bit_of(v, i) {
        1
    } else {
        0
    };
    let t: nat = if bit_of(b, i) {
        1
    } else {
        0
    };
    assert(v / pow2(i) == 2 * (v / pow2(i + 1)) + s);
    assert(b / pow2(i) == 2 * (b / pow2(i + 1)) + t);
    if v / pow2(i) == b / pow2(i) {
        let a = v / pow2(i + 1);
        let c = b / pow2(i + 1);
        assert(2 * a + s == 2 * c + t);
        assert(s <= 1 && t <= 1);
        assert(s == t);
        assert(a == c) by (nonlinear_arith)
            requires
                2 * a == 2 * c,
        ;
    }
}

/// If a value does not exceed the bound, matches it on every higher bit,
/// and the bound's bit here is clear, then the value's bit here is clear:
/// the lexicographic heart of the strict decomposition.
pub proof fn lemma_lex_forced_zero(v: nat, b: nat, i: nat)
    requires
        v <= b,
        v / pow2(i + 1) == b / pow2(i + 1),
        !bit_of(b, i),
    ensures
        !bit_of(v, i),
{
    if bit_of(v, i) {
        lemma_bit_step(v, i);
        lemma_bit_step(b, i);
        lemma_pow2_pos(i);
        lemma_div_is_ordered(v as int, b as int, pow2(i) as int);
        assert(false);
    }
}

/// The first `n` bits reconstruct the value modulo `2^n`.
pub proof fn lemma_bits_value_of(v: nat, n: nat)
    ensures
        bits_value(bitseq(v, n)) == v % pow2(n),
    decreases n,
{
    if n == 0 {
        assert(pow2(0) == 1) by {
            lemma2_to64();
        }
        lemma_fundamental_div_mod(v as int, 1);
        lemma_mod_bound(v as int, 1);
        assert(bitseq(v, 0) =~= Seq::<bool>::empty());
    } else {
        lemma_bits_value_of(v, (n - 1) as nat);
        assert(bitseq(v, n).drop_last() =~= bitseq(v, (n - 1) as nat));
        assert(bitseq(v, n).last() == bit_of(v, (n - 1) as nat));
        let p1 = pow2((n - 1) as nat);
        lemma_pow2_pos((n - 1) as nat);
        lemma_pow2_unfold(n);
        let q = v / p1;
        lemma_fundamental_div_mod(v as int, p1 as int);
        lemma_mod_bound(v as int, p1 as int);
        lemma_fundamental_div_mod(q as int, 2);
        lemma_mod_bound(q as int, 2);
        let s = q % 2;
        let r2 = s * p1 + v % p1;
        assert(s * p1 <= 1 * p1) by (nonlinear_arith)
            requires
                s <= 1 && p1 > 0,
        ;
        assert(0 <= r2 < pow2(n));
        assert(v as int == (q / 2) * (pow2(n) as int) + r2) by (nonlinear_arith)
            requires
                v == p1 * q + v % p1 && q == 2 * (q / 2) + s && pow2(n) == 2 * p1 && r2 == s * p1
                    + v % p1,
        ;
        lemma_fundamental_div_mod_converse(v as int, pow2(n) as int, (q / 2) as int, r2 as int);
        assert(v % pow2(n) == r2);
        assert(bit_of(v, (n - 1) as nat) == (s == 1));
        if s == 1 {
            assert(r2 == p1 + v % p1);
            assert(bits_value(bitseq(v, n)) == bits_value(bitseq(v, (n - 1) as nat)) + p1);
        } else {
            assert(s == 0);
            assert(s * p1 == 0) by (nonlinear_arith)
                requires
                    s == 0,
            ;
            assert(r2 == v % p1);
            assert(bits_value(bitseq(v, n)) == bits_value(bitseq(v, (n - 1) as nat)));
        }
    }
}

/// The bound's bit pattern: `11111010` and nothing above.
proof fn lemma_bound_bits()
    ensures
        !bit_of(bound_val(), 0),
        bit_of(bound_val(), 1),
        !bit_of(bound_val(), 2),
        bit_of(bound_val(), 3),
        bit_of(bound_val(), 4),
        bit_of(bound_val(), 5),
        bit_of(bound_val(), 6),
        bit_of(bound_val(), 7),
        forall|i: nat| i >= 8 ==> !(#[trigger] bit_of(bound_val(), i)),
{
    lemma2_to64();
    assert forall|i: nat| i >= 8 implies !(#[trigger] bit_of(bound_val(), i)) by {
        if i > 8 {
            lemma_pow2_strictly_increases(8, i);
        }
        lemma_bit_high_zero(bound_val(), i);
    }
}

/// Extracts one bit of a machine word.
fn nth_bit(v: u64, i: u64) -> (r: bool)
    requires
        i < 64,
    ensures
        r == bit_of(v as nat, i as nat),
{
    proof {
        vstd::bits::lemma_u64_shr_is_div(v, i);
    }
    (v >> i) % 2 == 1
}

/// Whether every bit of the run, and the flag if present, carries hint
/// `true`.
pub open spec fn combined_hint(run: Seq<AllocatedBit>, last: Option<AllocatedBit>) -> bool {
    &&& (forall|k: int| 0 <= k < run.len() ==> (#[trigger] run[k]).value == Some(true))
    &&& (last matches Some(b) ==> b.value == Some(true))
}

/// Whether every slot behind a run of bit witnesses holds zero or one
/// under an assignment.
pub open spec fn all_bits_boolean(bits: Seq<AllocatedBit>, inputs: Seq<nat>, aux: Seq<nat>) -> bool {
    forall|i: int|
        0 <= i < bits.len() ==> is_bit_val(var_val((#[trigger] bits[i]).variable, inputs, aux))
}

/// The slots behind a run of bit witnesses, weighted by powers of two,
/// least significant first, as a plain natural number.
pub open spec fn bit_weighted_sum(bits: Seq<AllocatedBit>, inputs: Seq<nat>, aux: Seq<nat>) -> nat
    decreases bits.len(),
{
    if bits.len() == 0 {
        0
    } else {
        bit_weighted_sum(bits.drop_last(), inputs, aux) + var_val(
            bits.last().variable,
            inputs,
            aux,
        ) * pow2((bits.len() - 1) as nat)
    }
}

/// The residues of a run of booleans under an assignment, weighted by
/// powers of two, least significant first.
pub open spec fn booleans_weighted_sum(bits: Seq<Boolean>, inputs: Seq<nat>, aux: Seq<nat>) -> nat
    decreases bits.len(),
{
    if bits.len() == 0 {
        0
    } else {
        booleans_weighted_sum(bits.drop_last(), inputs, aux) + bits.last().eval(inputs, aux)
            * pow2((bits.len() - 1) as nat)
    }
}

/// Over plain bit witnesses the two weighted sums agree.
proof fn lemma_weighted_sum_over_is(
    bits: Seq<Boolean>,
    raw: Seq<AllocatedBit>,
    inputs: Seq<nat>,
    aux: Seq<nat>,
)
    requires
        bits.len() == raw.len(),
        forall|i: int| 0 <= i < bits.len() ==> bits[i] == Boolean::Is(raw[i]),
    ensures
        booleans_weighted_sum(bits, inputs, aux) == bit_weighted_sum(raw, inputs, aux),
    decreases bits.len(),
{
    if bits.len() > 0 {
        assert(bits.drop_last().len() == raw.drop_last().len());
        assert forall|i: int| 0 <= i < bits.drop_last().len() implies bits.drop_last()[i]
            == Boolean::Is(raw.drop_last()[i]) by {
            assert(bits.drop_last()[i] == bits[i]);
            assert(raw.drop_last()[i] == raw[i]);
        }
        lemma_weighted_sum_over_is(bits.drop_last(), raw.drop_last(), inputs, aux);
        assert(bits.last() == Boolean::Is(raw.last()));
    }
}

/// Whether every constraint registered at or after position `lo` holds
/// under an assignment.
pub open spec fn range_holds(sys: ConstraintSystem, lo: int, inputs: Seq<nat>, aux: Seq<nat>) -> bool {
    forall|k: int|
        lo <= k < sys.constraints@.len() ==> constraint_holds(
            #[trigger] sys.constraints@[k],
            inputs,
            aux,
        )
}

/// Appending one constraint splits range satisfaction into the old range
/// and the new constraint.
proof fn lemma_range_holds_push(
    pre: ConstraintSystem,
    post: ConstraintSystem,
    lo: int,
    inputs: Seq<nat>,
    aux: Seq<nat>,
)
    requires
        post.constraints@ == pre.constraints@.push(post.constraints@.last()),
        post.constraints@.len() == pre.constraints@.len() + 1,
        0 <= lo <= pre.constraints@.len(),
    ensures
        range_holds(post, lo, inputs, aux) <==> (range_holds(pre, lo, inputs, aux)
            && constraint_holds(post.constraints@.last(), inputs, aux)),
{
    if range_holds(post, lo, inputs, aux) {
        assert forall|k: int| lo <= k < pre.constraints@.len() implies constraint_holds(
            #[trigger] pre.constraints@[k],
            inputs,
            aux,
        ) by {
            assert(pre.constraints@[k] == post.constraints@[k]);
            assert(constraint_holds(post.constraints@[k], inputs, aux));
        }
        assert(constraint_holds(post.constraints@[post.constraints@.len() - 1], inputs, aux));
    }
    if range_holds(pre, lo, inputs, aux) && constraint_holds(
        post.constraints@.last(),
        inputs,
        aux,
    ) {
        assert forall|k: int| lo <= k < post.constraints@.len() implies constraint_holds(
            #[trigger] post.constraints@[k],
            inputs,
            aux,
        ) by {
            if k < pre.constraints@.len() {
                assert(post.constraints@[k] == pre.constraints@[k]);
                assert(constraint_holds(pre.constraints@[k], inputs, aux));
            } else {
                assert(post.constraints@[k] == post.constraints@.last());
            }
        }
    }
}

/// Whether every slot behind a run of bit witnesses holds one under an
/// assignment.
pub open spec fn all_bits_one(bits: Seq<AllocatedBit>, inputs: Seq<nat>, aux: Seq<nat>) -> bool {
    forall|i: int|
        0 <= i < bits.len() ==> var_val((#[trigger] bits[i]).variable, inputs, aux) == 1
}

/// A growing range is satisfied only if the original range is.
pub proof fn lemma_range_holds_prefix(
    pre: ConstraintSystem,
    post: ConstraintSystem,
    lo: int,
    inputs: Seq<nat>,
    aux: Seq<nat>,
)
    requires
        0 <= lo,
        pre.constraints@.is_prefix_of(post.constraints@),
        range_holds(post, lo, inputs, aux),
    ensures
        range_holds(pre, lo, inputs, aux),
{
    let n = pre.constraints@.len() as int;
    assert(pre.constraints@ == post.constraints@.subrange(0, n));
    assert forall|k: int| lo <= k < pre.constraints@.len() implies constraint_holds(
        #[trigger] pre.constraints@[k],
        inputs,
        aux,
    ) by {
        assert(post.constraints@.subrange(0, n)[k] == post.constraints@[k]);
        assert(constraint_holds(post.constraints@[k], inputs, aux));
    }
}

/// The slots behind a run of bit witnesses read most significant first,
/// as a plain natural number.
pub open spec fn high_val(bits: Seq<AllocatedBit>, inputs: Seq<nat>, aux: Seq<nat>) -> nat
    decreases bits.len(),
{
    if bits.len() == 0 {
        0
    } else {
        var_val(bits.first().variable, inputs, aux) * pow2((bits.len() - 1) as nat) + high_val(
            bits.drop_first(),
            inputs,
            aux,
        )
    }
}

/// Appending a lower-significance bit doubles the high-first value and
/// adds the new slot.
proof fn lemma_high_val_push(bits: Seq<AllocatedBit>, b: AllocatedBit, inputs: Seq<nat>, aux: Seq<nat>)
    ensures
        high_val(bits.push(b), inputs, aux) == 2 * high_val(bits, inputs, aux) + var_val(
            b.variable,
            inputs,
            aux,
        ),
    decreases bits.len(),
{
    if bits.len() == 0 {
        assert(bits.push(b).first() == b);
        assert(bits.push(b).drop_first() =~= Seq::<AllocatedBit>::empty());
        assert(pow2(0) == 1) by {
            lemma2_to64();
        }
        let sb = var_val(b.variable, inputs, aux);
        assert(high_val(Seq::<AllocatedBit>::empty(), inputs, aux) == 0);
        assert(high_val(bits.push(b), inputs, aux) == sb * pow2(0) + 0);
        assert(sb * 1 == sb) by (nonlinear_arith);
        assert(high_val(bits, inputs, aux) == 0);
    } else {
        let s0 = var_val(bits.first().variable, inputs, aux);
        let sb = var_val(b.variable, inputs, aux);
        assert(bits.push(b).first() == bits.first());
        assert(bits.push(b).drop_first() =~= bits.drop_first().push(b));
        lemma_high_val_push(bits.drop_first(), b, inputs, aux);
        assert(high_val(bits.push(b), inputs, aux) == s0 * pow2(bits.len() as nat) + high_val(
            bits.drop_first().push(b),
            inputs,
            aux,
        ));
        assert(high_val(bits, inputs, aux) == s0 * pow2((bits.len() - 1) as nat) + high_val(
            bits.drop_first(),
            inputs,
            aux,
        ));
        lemma_pow2_unfold(bits.len() as nat);
        assert(s0 * pow2(bits.len() as nat) == 2 * (s0 * pow2((bits.len() - 1) as nat)))
            by (nonlinear_arith)
            requires
                pow2(bits.len() as nat) == 2 * pow2((bits.len() - 1) as nat),
        ;
    }
}

/// A reversed run's little-endian weighted sum is the original run's
/// high-first value.
proof fn lemma_high_eq_rev_sum(
    s: Seq<AllocatedBit>,
    rev: Seq<AllocatedBit>,
    inputs: Seq<nat>,
    aux: Seq<nat>,
)
    requires
        rev.len() == s.len(),
        forall|i: int| 0 <= i < rev.len() ==> #[trigger] rev[i] == s[s.len() - 1 - i],
    ensures
        bit_weighted_sum(rev, inputs, aux) == high_val(s, inputs, aux),
    decreases s.len(),
{
    if s.len() > 0 {
        assert(rev.last() == s.first());
        let s2 = s.drop_first();
        let rev2 = rev.drop_last();
        assert forall|i: int| 0 <= i < rev2.len() implies #[trigger] rev2[i] == s2[s2.len() - 1
            - i] by {
            assert(rev2[i] == rev[i]);
            assert(s2[s2.len() - 1 - i] == s[s.len() - 1 - i]);
        }
        lemma_high_eq_rev_sum(s2, rev2, inputs, aux);
    }
}

/// Folds a nonempty run of bits into one bit by iterated conjunction.
fn kary_and(cs: &mut ConstraintSystem, v: &Vec<AllocatedBit>) -> (r: Result<
    AllocatedBit,
    SynthesisError,
>)
    requires
        old(cs).wf(),
        v@.len() >= 1,
        forall|k: int| 0 <= k < v@.len() ==> (#[trigger] v@[k]).wf(*old(cs)),
    ensures
        final(cs).witness == old(cs).witness,
        match r {
            Ok(out) => {
                &&& final(cs).wf()
                &&& final(cs).inputs@ == old(cs).inputs@
                &&& old(cs).aux_vals().is_prefix_of(final(cs).aux_vals())
                &&& old(cs).constraints@.is_prefix_of(final(cs).constraints@)
                &&& out.wf(*final(cs))
                &&& (forall|k: int| 0 <= k < v@.len() ==> (#[trigger] v@[k]).wf(*final(cs)))
                &&& (old(cs).witness ==> (out.value matches Some(b) && (b <==> forall|k: int|
                    0 <= k < v@.len() ==> (#[trigger] v@[k]).value == Some(true))))
                &&& (forall|inp: Seq<nat>, ax: Seq<nat>|
                    wf_assign(inp, ax, final(cs).ni(), final(cs).na()) ==> ((#[trigger] range_holds(
                        *final(cs),
                        old(cs).constraints@.len() as int,
                        inp,
                        ax,
                    ) && all_bits_boolean(v@, inp, ax)) ==> (is_bit_val(
                        var_val(out.variable, inp, ax),
                    ) && (var_val(out.variable, inp, ax) == 1 <==> all_bits_one(v@, inp, ax)))))
                &&& (old(cs).witness && old(cs).sat() ==> final(cs).sat())
            },
            Err(_) => false,
        },
{
    let ghost lo = old(cs).constraints@.len() as int;
    let mut cur = v[0];
    let mut i: usize = 1;
    while i < v.len()
        invariant
            1 <= i <= v@.len(),
            cs.wf(),
            cs.witness == old(cs).witness,
            cs.inputs@ == old(cs).inputs@,
            old(cs).aux_vals().is_prefix_of(cs.aux_vals()),
            old(cs).constraints@.is_prefix_of(cs.constraints@),
            cur.wf(*cs),
            forall|k: int| 0 <= k < v@.len() ==> (#[trigger] v@[k]).wf(*cs),
            old(cs).witness ==> (cur.value matches Some(b) && (b <==> forall|k: int|
                0 <= k < i ==> (#[trigger] v@[k]).value == Some(true))),
            lo == old(cs).constraints@.len() as int,
            forall|inp: Seq<nat>, ax: Seq<nat>|
                wf_assign(inp, ax, cs.ni(), cs.na()) ==> ((#[trigger] range_holds(
                    *cs,
                    lo,
                    inp,
                    ax,
                ) && all_bits_boolean(v@, inp, ax)) ==> (is_bit_val(
                    var_val(cur.variable, inp, ax),
                ) && (var_val(cur.variable, inp, ax) == 1 <==> (forall|k: int|
                    0 <= k < i ==> var_val((#[trigger] v@[k]).variable, inp, ax) == 1)))),
            old(cs).witness && old(cs).sat() ==> cs.sat(),
        decreases v@.len() - i,
    {
        let ghost pre = *cs;
        let ghost old_cur = cur;
        cur = match AllocatedBit::and(cs, &cur, &v[i]) {
            Ok(c) => c,
            Err(_) => {
                proof {
                    assert(false);
                }
                return Err(SynthesisError::AssignmentMissing);
            },
        };
        proof {
            assert forall|k: int| 0 <= k < v@.len() implies (#[trigger] v@[k]).wf(*cs) by {
                v@[k].lemma_wf_extend(pre, *cs);
            }
            lemma_prefix_trans(old(cs).aux_vals(), pre.aux_vals(), cs.aux_vals());
            lemma_prefix_trans(old(cs).constraints@, pre.constraints@, cs.constraints@);
            if old(cs).witness {
                let b_new = cur.value.unwrap();
                assert forall|k: int| 0 <= k < i + 1 && b_new implies (#[trigger] v@[k]).value
                    == Some(true) by {}
            }
            let ghost prev = old_cur;
            assert(cs.constraints@ =~= pre.constraints@.push(cs.constraints@.last()));
            assert forall|inp: Seq<nat>, ax: Seq<nat>|
                wf_assign(inp, ax, cs.ni(), cs.na()) implies ((#[trigger] range_holds(
                *cs,
                lo,
                inp,
                ax,
            ) && all_bits_boolean(v@, inp, ax)) ==> (is_bit_val(var_val(cur.variable, inp, ax)) && (
            var_val(cur.variable, inp, ax) == 1 <==> (forall|k: int|
                0 <= k < i + 1 ==> var_val((#[trigger] v@[k]).variable, inp, ax) == 1)))) by {
                if range_holds(*cs, lo, inp, ax) && all_bits_boolean(v@, inp, ax) {
                    lemma_range_holds_push(pre, *cs, lo, inp, ax);
                    let xp = var_val(prev.variable, inp, ax);
                    let xi = var_val(v@[i as int].variable, inp, ax);
                    let xn = var_val(cur.variable, inp, ax);
                    assert(is_bit_val(xp));
                    assert(is_bit_val(xi));
                    assert(fmul(xp, xi) == xn);
                    if xp == 1 && xi == 1 {
                        lemma_fmul_one(1);
                        assert(xn == 1);
                    } else if xp == 0 {
                        lemma_fmul_zero(xi);
                        assert(xn == 0);
                    } else {
                        lemma_fmul_zero(xp);
                        assert(xn == 0);
                    }
                    assert(is_bit_val(xn));
                    if xn == 1 {
                        assert forall|k: int| 0 <= k < i + 1 implies var_val(
                            (#[trigger] v@[k]).variable,
                            inp,
                            ax,
                        ) == 1 by {
                            if k < i {
                                assert(xp == 1);
                            }
                        }
                    }
                    if (forall|k: int| 0 <= k < i + 1 ==> var_val(
                        (#[trigger] v@[k]).variable,
                        inp,
                        ax,
                    ) == 1) {
                        assert(xp == 1) by {
                            assert forall|k: int| 0 <= k < i implies var_val(
                                (#[trigger] v@[k]).variable,
                                inp,
                                ax,
                            ) == 1 by {}
                        }
                        assert(xi == 1);
                    }
                }
            }
        }
        i = i + 1;
    }
    Ok(cur)
}

/// Allocates one bit witness per position of the value's little-endian
/// serialization, each with its boolean constraint.
pub fn field_into_allocated_bits_le(cs: &mut ConstraintSystem, value: Option<Fp>) -> (r: Result<
    Vec<AllocatedBit>,
    SynthesisError,
>)
    requires
        old(cs).wf(),
        value matches Some(f) ==> f.wf(),
    ensures
        final(cs).witness == old(cs).witness,
        r is Ok <==> (old(cs).witness ==> value is Some),
        match r {
            Ok(bits) => {
                &&& final(cs).wf()
                &&& final(cs).inputs@ == old(cs).inputs@
                &&& old(cs).aux_vals().is_prefix_of(final(cs).aux_vals())
                &&& old(cs).constraints@.is_prefix_of(final(cs).constraints@)
                &&& bits@.len() == NUM_BITS
                &&& (forall|k: int| 0 <= k < bits@.len() ==> (#[trigger] bits@[k]).wf(*final(cs)))
                &&& (old(cs).witness ==> (value matches Some(f) && forall|k: int|
                    0 <= k < bits@.len() ==> (#[trigger] bits@[k]).value == Some(
                        bit_of(f.n(), k as nat),
                    )))
                &&& (forall|inp: Seq<nat>, ax: Seq<nat>|
                    wf_assign(inp, ax, final(cs).ni(), final(cs).na()) ==> (#[trigger] range_holds(
                        *final(cs),
                        old(cs).constraints@.len() as int,
                        inp,
                        ax,
                    ) <==> all_bits_boolean(bits@, inp, ax)))
                &&& (old(cs).witness && old(cs).sat() ==> final(cs).sat())
            },
            Err(e) => e == SynthesisError::AssignmentMissing,
        },
{
    let mut bits: Vec<AllocatedBit> = Vec::new();
    let mut i: usize = 0;
    while i < NUM_BITS
        invariant
            i <= NUM_BITS,
            i == bits@.len(),
            cs.wf(),
            cs.witness == old(cs).witness,
            cs.inputs@ == old(cs).inputs@,
            old(cs).aux_vals().is_prefix_of(cs.aux_vals()),
            old(cs).constraints@.is_prefix_of(cs.constraints@),
            value matches Some(f) ==> f.wf(),
            old(cs).witness && i > 0 ==> value is Some,
            forall|k: int| 0 <= k < bits@.len() ==> (#[trigger] bits@[k]).wf(*cs),
            old(cs).witness && i > 0 ==> (value matches Some(f) && forall|k: int|
                0 <= k < bits@.len() ==> (#[trigger] bits@[k]).value == Some(
                    bit_of(f.n(), k as nat),
                )),
            forall|inp: Seq<nat>, ax: Seq<nat>|
                wf_assign(inp, ax, cs.ni(), cs.na()) ==> (#[trigger] range_holds(
                    *cs,
                    old(cs).constraints@.len() as int,
                    inp,
                    ax,
                ) <==> all_bits_boolean(bits@, inp, ax)),
            old(cs).witness && old(cs).sat() ==> cs.sat(),
        decreases NUM_BITS - i,
    {
        let hint: Option<bool> = match value {
            Some(f) => Some(nth_bit(f.v, i as u64)),
            None => None,
        };
        proof {
            assert(hint is Some <==> value is Some);
        }
        let ghost pre = *cs;
        let bit = match AllocatedBit::allocate(cs, hint) {
            Ok(b) => b,
            Err(e) => {
                proof {
                    assert(old(cs).witness && value is None);
                }
                return Err(e);
            },
        };
        let ghost old_bits = bits@;
        bits.push(bit);
        proof {
            assert forall|k: int| 0 <= k < bits@.len() implies (#[trigger] bits@[k]).wf(*cs) by {
                if k < bits@.len() - 1 {
                    pre.lemma_own_assign_wf();
                    bits@[k].lemma_wf_extend(pre, *cs);
                }
            }
            lemma_prefix_trans(old(cs).aux_vals(), pre.aux_vals(), cs.aux_vals());
            lemma_prefix_trans(old(cs).constraints@, pre.constraints@, cs.constraints@);
            let lo = old(cs).constraints@.len() as int;
            assert(cs.constraints@ =~= pre.constraints@.push(cs.constraints@.last()));
            assert forall|inp: Seq<nat>, ax: Seq<nat>|
                wf_assign(inp, ax, cs.ni(), cs.na()) implies (#[trigger] range_holds(
                *cs,
                lo,
                inp,
                ax,
            ) <==> all_bits_boolean(bits@, inp, ax)) by {
                lemma_range_holds_push(pre, *cs, lo, inp, ax);
                assert(range_holds(pre, lo, inp, ax) <==> all_bits_boolean(old_bits, inp, ax));
                assert(constraint_holds(cs.constraints@.last(), inp, ax) <==> is_bit_val(
                    var_val(bit.variable, inp, ax),
                ));
                assert(bits@.drop_last() =~= old_bits);
                assert(bits@.last() == bit);
                if all_bits_boolean(old_bits, inp, ax) && is_bit_val(
                    var_val(bit.variable, inp, ax),
                ) {
                    assert forall|k: int| 0 <= k < bits@.len() implies is_bit_val(
                        var_val((#[trigger] bits@[k]).variable, inp, ax),
                    ) by {
                        if k < bits@.len() - 1 {
                            assert(bits@[k] == old_bits[k]);
                        }
                    }
                }
                if all_bits_boolean(bits@, inp, ax) {
                    assert forall|k: int| 0 <= k < old_bits.len() implies is_bit_val(
                        var_val((#[trigger] old_bits[k]).variable, inp, ax),
                    ) by {
                        assert(old_bits[k] == bits@[k]);
                    }
                }
            }
        }
        i = i + 1;
    }
    proof {
        if old(cs).witness && value is None {
            assert(false);
        }
    }
    Ok(bits)
}

impl AllocatedNum {
    /// Registers the single packing constraint
    /// `sum_i bit_i * 2^i - self = 0`.
    fn pack_equal(&self, cs: &mut ConstraintSystem, bits: &Vec<AllocatedBit>)
        requires
            old(cs).wf(),
            self.wf(*old(cs)),
            bits@.len() == NUM_BITS,
            forall|k: int| 0 <= k < bits@.len() ==> (#[trigger] bits@[k]).wf(*old(cs)),
            old(cs).witness ==> (self.value matches Some(av) && forall|k: int|
                0 <= k < bits@.len() ==> (#[trigger] bits@[k]).value == Some(
                    bit_of(av.n(), k as nat),
                )),
        ensures
            final(cs).witness == old(cs).witness,
            final(cs).wf(),
            final(cs).inputs@ == old(cs).inputs@,
            final(cs).aux@ == old(cs).aux@,
            old(cs).constraints@.is_prefix_of(final(cs).constraints@),
            final(cs).constraints@.len() == old(cs).constraints@.len() + 1,
            self.wf(*final(cs)),
            forall|k: int| 0 <= k < bits@.len() ==> (#[trigger] bits@[k]).wf(*final(cs)),
            forall|inp: Seq<nat>, ax: Seq<nat>|
                wf_assign(inp, ax, final(cs).ni(), final(cs).na()) ==> (#[trigger] constraint_holds(
                    final(cs).constraints@.last(),
                    inp,
                    ax,
                ) <==> bit_weighted_sum(bits@, inp, ax) % prime() == var_val(
                    self.variable,
                    inp,
                    ax,
                )),
            old(cs).witness && old(cs).sat() ==> final(cs).sat(),
    {
        let ghost iv = old(cs).input_vals();
        let ghost axv = old(cs).aux_vals();
        let mut lc = LinearCombination::zero();
        let mut coeff = Fp::one();
        let mut k: usize = 0;
        proof {
            assert(pow2(0) == 1) by {
                lemma2_to64();
            }
            assert(bits@.subrange(0, 0) =~= Seq::<AllocatedBit>::empty());
            assert(0nat % prime() == 0nat) by {
                lemma_small_mod(0, prime());
            }
        }
        while k < NUM_BITS
            invariant
                iv == old(cs).input_vals(),
                axv == old(cs).aux_vals(),
                k <= NUM_BITS,
                cs.wf(),
                *cs == *old(cs),
                self.wf(*old(cs)),
                bits@.len() == NUM_BITS,
                forall|j: int| 0 <= j < bits@.len() ==> (#[trigger] bits@[j]).wf(*old(cs)),
                old(cs).witness ==> (self.value matches Some(av) && forall|j: int|
                    0 <= j < bits@.len() ==> (#[trigger] bits@[j]).value == Some(
                        bit_of(av.n(), j as nat),
                    )),
                coeff.wf(),
                k < NUM_BITS ==> coeff.n() == pow2(k as nat),
                lc_coeffs_wf(lc.terms@),
                lc_in_range(lc.terms@, old(cs).ni(), old(cs).na()),
                old(cs).witness ==> (self.value matches Some(av) && lc_eval(lc.terms@, iv, axv)
                    == bits_value(bitseq(av.n(), k as nat))),
                forall|inp: Seq<nat>, ax: Seq<nat>| #[trigger] lc_eval(lc.terms@, inp, ax)
                    == bit_weighted_sum(bits@.subrange(0, k as int), inp, ax) % prime(),
            decreases NUM_BITS - k,
        {
            let bit = &bits[k];
            let ghost old_lc = lc;
            lc = lc.add_term(coeff, bit.get_variable());
            proof {
                broadcast use lemma_lc_eval_push, lemma_fadd_bound, lemma_fmul_bound;

                assert(bits@[k as int].wf(*old(cs)));
                if old(cs).witness {
                    let v = self.value.unwrap().n();
                    let b = bit_of(v, k as nat);
                    assert(bits@[k as int].value == Some(b));
                    let bb = bits@[k as int].value.unwrap();
                    assert(bb == b);
                    assert(var_val(
                        bits@[k as int].variable,
                        old(cs).input_vals(),
                        old(cs).aux_vals(),
                    ) == b2n(bb));
                    assert(var_val(bits@[k as int].variable, iv, axv) == b2n(b));
                    lemma_bits_value_of(v, k as nat);
                    lemma_bits_value_of(v, (k + 1) as nat);
                    assert(bitseq(v, (k + 1) as nat).drop_last() =~= bitseq(v, k as nat));
                    lemma_pow2_pos((k + 1) as nat);
                    lemma_mod_decreases(v, pow2((k + 1) as nat));
                    assert(bits_value(bitseq(v, (k + 1) as nat)) <= v);
                    assert(v < prime());
                    if b {
                        lemma_small_mod(pow2(k as nat), prime());
                        assert(fmul(coeff.n(), b2n(b)) == pow2(k as nat));
                    } else {
                        lemma_fmul_zero(coeff.n());
                        assert(fmul(coeff.n(), b2n(b)) == 0);
                    }
                    lemma_small_mod(bits_value(bitseq(v, (k + 1) as nat)), prime());
                }
            }
            proof {
                assert forall|inp: Seq<nat>, ax: Seq<nat>| #[trigger] lc_eval(lc.terms@, inp, ax)
                    == bit_weighted_sum(bits@.subrange(0, k + 1 as int), inp, ax) % prime() by {
                    broadcast use lemma_lc_eval_push;

                    let sub1 = bits@.subrange(0, k + 1 as int);
                    let sub0 = bits@.subrange(0, k as int);
                    assert(sub1.drop_last() =~= sub0);
                    assert(sub1.last() == bits@[k as int]);
                    let x = var_val(bits@[k as int].variable, inp, ax);
                    let sum0 = bit_weighted_sum(sub0, inp, ax);
                    assert(lc_eval(lc.terms@, inp, ax) == fadd(
                        lc_eval(old_lc.terms@, inp, ax),
                        fmul(coeff.n(), x),
                    ));
                    assert(bit_weighted_sum(sub1, inp, ax) == sum0 + x * pow2(k as nat));
                    assert(((sum0 % prime()) + ((pow2(k as nat) * x) % prime())) % prime() == (sum0
                        + pow2(k as nat) * x) % prime()) by {
                        lemma_add_mod_noop(sum0 as int, (pow2(k as nat) * x) as int, 251int);
                    }
                    assert(pow2(k as nat) * x == x * pow2(k as nat)) by (nonlinear_arith);
                }
            }
            let ghost oldc = coeff;
            coeff = coeff.double();
            proof {
                if k + 1 < NUM_BITS {
                    lemma_pow2_unfold((k + 1) as nat);
                    assert(pow2((k + 1) as nat) < prime()) by {
                        lemma2_to64();
                    }
                    lemma_small_mod(pow2((k + 1) as nat), prime());
                }
            }
            k = k + 1;
        }
        let ghost lc8 = lc;
        let lc = lc.sub_var(self.variable);
        let a_lc = LinearCombination::zero();
        let b_lc = LinearCombination::zero();
        let ghost pre = *cs;
        cs.enforce(a_lc, b_lc, lc);
        proof {
            let post = *cs;
            let cstp = post.constraints@.last();
            assert forall|inp: Seq<nat>, ax: Seq<nat>|
                wf_assign(inp, ax, post.ni(), post.na()) implies (#[trigger] constraint_holds(
                cstp,
                inp,
                ax,
            ) <==> bit_weighted_sum(bits@, inp, ax) % prime() == var_val(
                self.variable,
                inp,
                ax,
            )) by {
                broadcast use lemma_lc_eval_push, lemma_fadd_bound, lemma_fmul_bound;

                assert(bits@.subrange(0, NUM_BITS as int) =~= bits@);
                let sum = bit_weighted_sum(bits@, inp, ax);
                assert(lc_eval(lc8.terms@, inp, ax) == sum % prime());
                let xs = var_val(self.variable, inp, ax);
                assert(xs < prime());
                assert(sum % prime() < prime()) by {
                    lemma_mod_bound(sum as int, 251int);
                }
                lemma_fmul_neg_one(xs);
                lemma_fadd_fneg(sum % prime(), xs);
                assert(lc_eval(cstp.c.terms@, inp, ax) == fsub(sum % prime(), xs));
                assert(lc_eval(cstp.a.terms@, inp, ax) == 0);
                assert(lc_eval(cstp.b.terms@, inp, ax) == 0);
                lemma_fmul_zero(0);
                lemma_fsub_eq_zero(sum % prime(), xs);
            }
            if old(cs).witness && old(cs).sat() {
                broadcast use lemma_lc_eval_push, lemma_fadd_bound, lemma_fmul_bound;

                let cst = post.constraints@.last();
                let v = self.value.unwrap().n();
                lemma_bits_value_of(v, NUM_BITS as nat);
                assert(pow2(8) == 256) by {
                    lemma2_to64();
                }
                lemma_small_mod(v, pow2(8));
                assert(lc_eval(cst.c.terms@, iv, axv) == fadd(
                    v,
                    fmul((MODULUS - 1) as nat, var_val(self.variable, iv, axv)),
                ));
                assert(var_val(self.variable, iv, axv) == v);
                lemma_fmul_neg_one(v);
                lemma_fadd_fneg(v, v);
                lemma_fsub_eq_zero(v, v);
                lemma_fmul_zero(0);
                assert(constraint_holds(cst, iv, axv));
                lemma_sat_push(pre, post, cst);
            }
        }
    }

    /// The little-endian bit witnesses of the committed value, each
    /// boolean-constrained, tied to the value by one packing constraint.
    /// This binds the bits to the value modulo the characteristic only:
    /// the aliased out-of-range representation is not excluded.
    pub fn to_bits_le(&self, cs: &mut ConstraintSystem) -> (r: Result<Vec<Boolean>, SynthesisError>)
        requires
            old(cs).wf(),
            self.wf(*old(cs)),
        ensures
            final(cs).witness == old(cs).witness,
            r is Ok,
            match r {
                Ok(bits) => {
                    &&& final(cs).wf()
                    &&& final(cs).inputs@ == old(cs).inputs@
                    &&& old(cs).aux_vals().is_prefix_of(final(cs).aux_vals())
                    &&& old(cs).constraints@.is_prefix_of(final(cs).constraints@)
                    &&& self.wf(*final(cs))
                    &&& bits@.len() == NUM_BITS
                    &&& (forall|i: int|
                        0 <= i < bits@.len() ==> (#[trigger] bits@[i]) matches Boolean::Is(_))
                    &&& (forall|i: int| 0 <= i < bits@.len() ==> (#[trigger] bits@[i]).wf(*final(cs)))
                    &&& (old(cs).witness ==> (self.value matches Some(av) && forall|i: int|
                        0 <= i < bits@.len() ==> (#[trigger] bits@[i]).spec_value() == Some(
                            bit_of(av.n(), i as nat),
                        )))
                    &&& (forall|inp: Seq<nat>, ax: Seq<nat>|
                        wf_assign(inp, ax, final(cs).ni(), final(cs).na()) ==> (
                        #[trigger] range_holds(
                            *final(cs),
                            old(cs).constraints@.len() as int,
                            inp,
                            ax,
                        ) <==> ((forall|i: int|
                            0 <= i < bits@.len() ==> is_bit_val(
                                (#[trigger] bits@[i]).eval(inp, ax),
                            )) && booleans_weighted_sum(bits@, inp, ax) % prime() == var_val(
                            self.variable,
                            inp,
                            ax,
                        ))))
                    &&& (old(cs).witness && old(cs).sat() ==> final(cs).sat())
                },
                Err(_) => false,
            },
    {
        let raw = match field_into_allocated_bits_le(cs, self.value) {
            Ok(b) => b,
            Err(_) => {
                proof {
                    assert(false);
                }
                return Err(SynthesisError::AssignmentMissing);
            },
        };
        let ghost mid = *cs;
        proof {
            self.lemma_wf_extend(*old(cs), mid);
        }
        self.pack_equal(cs, &raw);
        let mut out: Vec<Boolean> = Vec::new();
        let mut i: usize = 0;
        while i < raw.len()
            invariant
                i <= raw@.len(),
                out@.len() == i,
                forall|j: int|
                    0 <= j < i ==> (#[trigger] out@[j]) == Boolean::Is(raw@[j]),
            decreases raw@.len() - i,
        {
            out.push(Boolean::Is(raw[i]));
            i = i + 1;
        }
        proof {
            let post = *cs;
            assert forall|j: int| 0 <= j < out@.len() implies (#[trigger] out@[j]).wf(post) by {
                assert(out@[j] == Boolean::Is(raw@[j]));
                assert(raw@[j].wf(post));
            }
            lemma_prefix_trans(old(cs).aux_vals(), mid.aux_vals(), post.aux_vals());
            lemma_prefix_trans(old(cs).constraints@, mid.constraints@, post.constraints@);
            let lo = old(cs).constraints@.len() as int;
            assert(post.constraints@ =~= mid.constraints@.push(post.constraints@.last()));
            assert forall|inp: Seq<nat>, ax: Seq<nat>|
                wf_assign(inp, ax, post.ni(), post.na()) implies (#[trigger] range_holds(
                post,
                lo,
                inp,
                ax,
            ) <==> ((forall|i: int|
                0 <= i < out@.len() ==> is_bit_val((#[trigger] out@[i]).eval(inp, ax)))
                && booleans_weighted_sum(out@, inp, ax) % prime() == var_val(
                self.variable,
                inp,
                ax,
            ))) by {
                lemma_range_holds_push(mid, post, lo, inp, ax);
                assert(range_holds(mid, lo, inp, ax) <==> all_bits_boolean(raw@, inp, ax));
                assert(constraint_holds(post.constraints@.last(), inp, ax)
                    <==> bit_weighted_sum(raw@, inp, ax) % prime() == var_val(
                    self.variable,
                    inp,
                    ax,
                ));
                lemma_weighted_sum_over_is(out@, raw@, inp, ax);
                assert forall|i: int|
                    0 <= i < out@.len() implies ((#[trigger] out@[i]).eval(inp, ax) == var_val(
                    raw@[i].variable,
                    inp,
                    ax,
                )) by {
                    assert(out@[i] == Boolean::Is(raw@[i]));
                }
                if all_bits_boolean(raw@, inp, ax) {
                    assert forall|i: int| 0 <= i < out@.len() implies is_bit_val(
                        (#[trigger] out@[i]).eval(inp, ax),
                    ) by {
                        assert(is_bit_val(var_val(raw@[i].variable, inp, ax)));
                    }
                }
                if (forall|i: int|
                    0 <= i < out@.len() ==> is_bit_val((#[trigger] out@[i]).eval(inp, ax))) {
                    assert forall|i: int| 0 <= i < raw@.len() implies is_bit_val(
                        var_val((#[trigger] raw@[i]).variable, inp, ax),
                    ) by {
                        assert(is_bit_val(out@[i].eval(inp, ax)));
                    }
                }
            }
        }
        Ok(out)
    }

    /// The little-endian bit witnesses of the committed value with the
    /// canonical range check: walking the bound's bits from the most
    /// significant end, bits under ones of the bound are allocated freely
    /// and collected into runs, each run is folded into a single flag by
    /// iterated conjunction, and at every zero of the bound the bit is
    /// allocated under a constraint that forces it to zero whenever the
    /// flag reports that the value has matched the bound so far. The same
    /// packing constraint as the weak form ties the bits to the value.
    pub fn to_bits_le_strict(&self, cs: &mut ConstraintSystem) -> (r: Result<
        Vec<Boolean>,
        SynthesisError,
    >)
        requires
            old(cs).wf(),
            self.wf(*old(cs)),
        ensures
            final(cs).witness == old(cs).witness,
            r is Ok,
            match r {
                Ok(bits) => {
                    &&& final(cs).wf()
                    &&& final(cs).inputs@ == old(cs).inputs@
                    &&& old(cs).aux_vals().is_prefix_of(final(cs).aux_vals())
                    &&& old(cs).constraints@.is_prefix_of(final(cs).constraints@)
                    &&& self.wf(*final(cs))
                    &&& bits@.len() == NUM_BITS
                    &&& (forall|i: int|
                        0 <= i < bits@.len() ==> (#[trigger] bits@[i]) matches Boolean::Is(_))
                    &&& (forall|i: int| 0 <= i < bits@.len() ==> (#[trigger] bits@[i]).wf(*final(cs)))
                    &&& (old(cs).witness ==> (self.value matches Some(av) && forall|i: int|
                        0 <= i < bits@.len() ==> (#[trigger] bits@[i]).spec_value() == Some(
                            bit_of(av.n(), i as nat),
                        )))
                    &&& (forall|inp: Seq<nat>, ax: Seq<nat>|
                        wf_assign(inp, ax, final(cs).ni(), final(cs).na()) ==> (
                        #[trigger] range_holds(
                            *final(cs),
                            old(cs).constraints@.len() as int,
                            inp,
                            ax,
                        ) ==> ((forall|i: int|
                            0 <= i < bits@.len() ==> is_bit_val(
                                (#[trigger] bits@[i]).eval(inp, ax),
                            )) && booleans_weighted_sum(bits@, inp, ax) == var_val(
                            self.variable,
                            inp,
                            ax,
                        ) && booleans_weighted_sum(bits@, inp, ax) <= bound_val())))
                    &&& (old(cs).witness && old(cs).sat() ==> final(cs).sat())
                },
                Err(_) => false,
            },
    {
        proof {
            lemma_bound_bits();
        }
        let ghost lo = old(cs).constraints@.len() as int;
        let ghost v: nat = if self.value is Some {
            self.value.unwrap().n()
        } else {
            0
        };
        let mut result: Vec<AllocatedBit> = Vec::new();
        let mut current_run: Vec<AllocatedBit> = Vec::new();
        let mut last_run: Option<AllocatedBit> = None;
        let mut found_one: bool = false;
        let mut pos: usize = 64;
        proof {
            assert(pow2(8) == 256) by {
                lemma2_to64();
            }
            lemma_pow2_strictly_increases(8, 64);
            lemma_basic_div(v as int, pow2(64) as int);
            lemma_basic_div(bound_val() as int, pow2(64) as int);
        }
        while pos > 0
            invariant
                pos <= 64,
                cs.wf(),
                cs.witness == old(cs).witness,
                cs.inputs@ == old(cs).inputs@,
                old(cs).aux_vals().is_prefix_of(cs.aux_vals()),
                old(cs).constraints@.is_prefix_of(cs.constraints@),
                self.wf(*old(cs)),
                self.wf(*cs),
                old(cs).witness && old(cs).sat() ==> cs.sat(),
                v == (if self.value is Some {
                    self.value.unwrap().n()
                } else {
                    0
                }),
                v < prime(),
                found_one == (pos <= 7),
                result@.len() == (if pos <= 7 {
                    8 - pos
                } else {
                    0int
                }),
                forall|k: int| 0 <= k < result@.len() ==> (#[trigger] result@[k]).wf(*cs),
                cs.witness ==> (forall|k: int|
                    0 <= k < result@.len() ==> (#[trigger] result@[k]).value == Some(
                        bit_of(v, (7 - k) as nat),
                    )),
                forall|k: int| 0 <= k < current_run@.len() ==> (#[trigger] current_run@[k]).wf(*cs),
                last_run matches Some(b) ==> b.wf(*cs),
                cs.witness ==> (combined_hint(current_run@, last_run) <==> v / pow2(pos as nat)
                    == bound_val() / pow2(pos as nat)),
                lo == old(cs).constraints@.len() as int,
                forall|inp: Seq<nat>, ax: Seq<nat>|
                    wf_assign(inp, ax, cs.ni(), cs.na()) ==> (#[trigger] range_holds(
                        *cs,
                        lo,
                        inp,
                        ax,
                    ) ==> ({
                        &&& all_bits_boolean(result@, inp, ax)
                        &&& all_bits_boolean(current_run@, inp, ax)
                        &&& (last_run matches Some(f) ==> is_bit_val(
                            var_val(f.variable, inp, ax),
                        ))
                        &&& high_val(result@, inp, ax) <= bound_val() / pow2(pos as nat)
                        &&& (high_val(result@, inp, ax) == bound_val() / pow2(pos as nat) ==> (
                        all_bits_one(current_run@, inp, ax) && (last_run matches Some(f)
                            ==> var_val(f.variable, inp, ax) == 1)))
                    })),
                pos >= 8 ==> current_run@.len() == 0 && last_run is None,
                3 <= pos <= 7 ==> current_run@.len() == 8 - pos && last_run is None,
                pos == 2 ==> current_run@.len() == 0 && last_run is Some,
                pos == 1 ==> current_run@.len() == 1 && last_run is Some,
                pos == 0 ==> current_run@.len() == 0 && last_run is Some,
            decreases pos,
        {
            let p = pos - 1;
            let b_bit = nth_bit(MODULUS - 1, p as u64);
            let a_hint: Option<bool> = match self.value {
                Some(f) => Some(nth_bit(f.v, p as u64)),
                None => None,
            };
            proof {
                lemma_bound_bits();
                assert(cs.witness ==> a_hint == Some(bit_of(v, p as nat)));
            }
            found_one = found_one || b_bit;
            if !found_one {
                proof {
                    assert(p >= 8);
                    assert(pow2(p as nat) >= pow2(8)) by {
                        if p > 8 {
                            lemma_pow2_strictly_increases(8, p as nat);
                        }
                    }
                    assert(pow2(8) == 256) by {
                        lemma2_to64();
                    }
                    lemma_basic_div(v as int, pow2(p as nat) as int);
                    lemma_basic_div(bound_val() as int, pow2(p as nat) as int);
                    assert(v / pow2(p as nat) == bound_val() / pow2(p as nat));
                    // the value's bit here is clear as well: an internal
                    // consistency fact, no constraint is needed
                    lemma_bit_high_zero(v, p as nat);
                    assert(bound_val() / pow2(p as nat) == 0);
                    assert forall|inp: Seq<nat>, ax: Seq<nat>|
                        wf_assign(inp, ax, cs.ni(), cs.na()) implies (#[trigger] range_holds(
                        *cs,
                        lo,
                        inp,
                        ax,
                    ) ==> ({
                        &&& all_bits_boolean(result@, inp, ax)
                        &&& all_bits_boolean(current_run@, inp, ax)
                        &&& (last_run matches Some(f) ==> is_bit_val(
                            var_val(f.variable, inp, ax),
                        ))
                        &&& high_val(result@, inp, ax) <= bound_val() / pow2(p as nat)
                        &&& (high_val(result@, inp, ax) == bound_val() / pow2(p as nat) ==> (
                        all_bits_one(current_run@, inp, ax) && (last_run matches Some(f)
                            ==> var_val(f.variable, inp, ax) == 1)))
                    })) by {
                        assert(result@.len() == 0);
                        assert(high_val(result@, inp, ax) == 0);
                    }
                }
            } else if b_bit {
                let ghost run_top = current_run@;
                let ghost result_top = result@;
                let ghost pre = *cs;
                let a_bit = match AllocatedBit::allocate(cs, a_hint) {
                    Ok(b) => b,
                    Err(_) => {
                        proof {
                            assert(false);
                        }
                        return Err(SynthesisError::AssignmentMissing);
                    },
                };
                current_run.push(a_bit);
                result.push(a_bit);
                proof {
                    lemma_prefix_trans(old(cs).aux_vals(), pre.aux_vals(), cs.aux_vals());
                    lemma_prefix_trans(old(cs).constraints@, pre.constraints@, cs.constraints@);
                    self.lemma_wf_extend(pre, *cs);
                    assert forall|k: int| 0 <= k < result@.len() implies (#[trigger] result@[k]).wf(
                        *cs,
                    ) by {
                        if k < result@.len() - 1 {
                            result@[k].lemma_wf_extend(pre, *cs);
                        }
                    }
                    assert forall|k: int|
                        0 <= k < current_run@.len() implies (#[trigger] current_run@[k]).wf(
                        *cs,
                    ) by {
                        if k < current_run@.len() - 1 {
                            current_run@[k].lemma_wf_extend(pre, *cs);
                        }
                    }
                    if last_run is Some {
                        last_run.unwrap().lemma_wf_extend(pre, *cs);
                    }
                    if cs.witness {
                        lemma_match_step(v, bound_val(), p as nat);
                        assert(bit_of(bound_val(), p as nat));
                        assert(current_run@.drop_last() =~= run_top);
                        assert(current_run@.last() == a_bit);
                        assert(combined_hint(current_run@, last_run) <==> (combined_hint(
                            run_top,
                            last_run,
                        ) && a_bit.value == Some(true))) by {
                            if combined_hint(run_top, last_run) && a_bit.value == Some(true) {
                                assert forall|k: int|
                                    0 <= k < current_run@.len() implies (
                                #[trigger] current_run@[k]).value == Some(true) by {
                                    if k < current_run@.len() - 1 {
                                        assert(current_run@[k] == run_top[k]);
                                    }
                                }
                            }
                            if combined_hint(current_run@, last_run) {
                                assert forall|k: int|
                                    0 <= k < run_top.len() implies (#[trigger] run_top[k]).value
                                    == Some(true) by {
                                    assert(run_top[k] == current_run@[k]);
                                }
                            }
                        }
                        assert(a_bit.value == Some(bit_of(v, p as nat)));
                        assert(combined_hint(current_run@, last_run) <==> v / pow2(p as nat)
                            == bound_val() / pow2(p as nat));
                    }
                    assert(result@.len() == (if p <= 7 {
                        8 - p
                    } else {
                        0int
                    }));
                    // constraint-level invariant: a fresh boolean-constrained
                    // bit extends the high-first slot value under the bound
                    lemma_bit_step(bound_val(), p as nat);
                    assert(bound_val() / pow2(p as nat) == 2 * (bound_val() / pow2(
                        (p + 1) as nat,
                    )) + 1);
                    assert(cs.constraints@ =~= pre.constraints@.push(cs.constraints@.last()));
                    assert forall|inp: Seq<nat>, ax: Seq<nat>|
                        wf_assign(inp, ax, cs.ni(), cs.na()) implies (#[trigger] range_holds(
                        *cs,
                        lo,
                        inp,
                        ax,
                    ) ==> ({
                        &&& all_bits_boolean(result@, inp, ax)
                        &&& all_bits_boolean(current_run@, inp, ax)
                        &&& (last_run matches Some(f) ==> is_bit_val(
                            var_val(f.variable, inp, ax),
                        ))
                        &&& high_val(result@, inp, ax) <= bound_val() / pow2(p as nat)
                        &&& (high_val(result@, inp, ax) == bound_val() / pow2(p as nat) ==> (
                        all_bits_one(current_run@, inp, ax) && (last_run matches Some(f)
                            ==> var_val(f.variable, inp, ax) == 1)))
                    })) by {
                        if range_holds(*cs, lo, inp, ax) {
                            lemma_range_holds_push(pre, *cs, lo, inp, ax);
                            let ss = var_val(a_bit.variable, inp, ax);
                            assert(is_bit_val(ss));
                            let hh = high_val(result_top, inp, ax);
                            let bh = bound_val() / pow2((p + 1) as nat);
                            assert(hh <= bh);
                            lemma_high_val_push(result_top, a_bit, inp, ax);
                            assert(high_val(result@, inp, ax) == 2 * hh + ss);
                            assert forall|k: int|
                                0 <= k < result@.len() implies is_bit_val(
                                var_val((#[trigger] result@[k]).variable, inp, ax),
                            ) by {
                                if k < result@.len() - 1 {
                                    assert(result@[k] == result_top[k]);
                                }
                            }
                            assert forall|k: int|
                                0 <= k < current_run@.len() implies is_bit_val(
                                var_val((#[trigger] current_run@[k]).variable, inp, ax),
                            ) by {
                                if k < current_run@.len() - 1 {
                                    assert(current_run@[k] == run_top[k]);
                                }
                            }
                            if high_val(result@, inp, ax) == bound_val() / pow2(p as nat) {
                                assert(2 * hh + ss == 2 * bh + 1);
                                assert(ss == 1 && hh == bh);
                                assert(all_bits_one(run_top, inp, ax));
                                assert forall|k: int|
                                    0 <= k < current_run@.len() implies var_val(
                                    (#[trigger] current_run@[k]).variable,
                                    inp,
                                    ax,
                                ) == 1 by {
                                    if k < current_run@.len() - 1 {
                                        assert(current_run@[k] == run_top[k]);
                                    }
                                }
                            }
                        }
                    }
                }
            } else {
                let ghost run_top = current_run@;
                let ghost last_top = last_run;
                let ghost result_top = result@;
                let ghost t_state = *cs;
                if current_run.len() > 0 {
                    if last_run.is_some() {
                        let lr = match last_run {
                            Some(b) => b,
                            None => {
                                proof {
                                    assert(false);
                                }
                                return Err(SynthesisError::AssignmentMissing);
                            },
                        };
                        current_run.push(lr);
                        proof {
                            if cs.witness {
                                assert(current_run@.drop_last() =~= run_top);
                                assert(current_run@.last() == lr);
                                assert(combined_hint(current_run@, None::<AllocatedBit>)
                                    <==> combined_hint(run_top, last_top)) by {
                                    if combined_hint(run_top, last_top) {
                                        assert forall|k: int|
                                            0 <= k < current_run@.len() implies (
                                        #[trigger] current_run@[k]).value == Some(true) by {
                                            if k < current_run@.len() - 1 {
                                                assert(current_run@[k] == run_top[k]);
                                            }
                                        }
                                    }
                                    if combined_hint(current_run@, None::<AllocatedBit>) {
                                        assert forall|k: int|
                                            0 <= k < run_top.len() implies (
                                        #[trigger] run_top[k]).value == Some(true) by {
                                            assert(run_top[k] == current_run@[k]);
                                        }
                                    }
                                }
                            }
                        }
                    }
                    let ghost run_before = current_run@;
                    let ghost pre = *cs;
                    let folded = match kary_and(cs, &current_run) {
                        Ok(f) => f,
                        Err(_) => {
                            proof {
                                assert(false);
                            }
                            return Err(SynthesisError::AssignmentMissing);
                        },
                    };
                    last_run = Some(folded);
                    current_run = Vec::new();
                    proof {
                        lemma_prefix_trans(old(cs).aux_vals(), pre.aux_vals(), cs.aux_vals());
                        lemma_prefix_trans(old(cs).constraints@, pre.constraints@, cs.constraints@);
                        self.lemma_wf_extend(pre, *cs);
                        assert forall|k: int|
                            0 <= k < result@.len() implies (#[trigger] result@[k]).wf(*cs) by {
                            result@[k].lemma_wf_extend(pre, *cs);
                        }
                        if cs.witness {
                            assert((folded.value == Some(true)) <==> combined_hint(
                                run_before,
                                None::<AllocatedBit>,
                            ));
                            if last_top is Some {
                                assert((folded.value == Some(true)) <==> combined_hint(
                                    run_top,
                                    last_top,
                                ));
                            } else {
                                assert(run_before == run_top);
                            }
                            assert((folded.value == Some(true)) <==> v / pow2(pos as nat)
                                == bound_val() / pow2(pos as nat));
                        }
                    }
                }
                let flag = match last_run {
                    Some(f) => f,
                    None => {
                        proof {
                            assert(false);
                        }
                        return Err(SynthesisError::AssignmentMissing);
                    },
                };
                proof {
                    if cs.witness {
                        assert((flag.value == Some(true)) <==> v / pow2(pos as nat) == bound_val()
                            / pow2(pos as nat));
                        if flag.value == Some(true) {
                            assert(v <= bound_val());
                            lemma_lex_forced_zero(v, bound_val(), p as nat);
                            assert(a_hint == Some(false));
                        }
                    }
                }
                let ghost pre2 = *cs;
                let a_bit = match AllocatedBit::alloc_conditionally(cs, a_hint, &flag) {
                    Ok(b) => b,
                    Err(_) => {
                        proof {
                            assert(false);
                        }
                        return Err(SynthesisError::AssignmentMissing);
                    },
                };
                result.push(a_bit);
                proof {
                    lemma_prefix_trans(old(cs).aux_vals(), pre2.aux_vals(), cs.aux_vals());
                    lemma_prefix_trans(old(cs).constraints@, pre2.constraints@, cs.constraints@);
                    self.lemma_wf_extend(pre2, *cs);
                    assert forall|k: int| 0 <= k < result@.len() implies (#[trigger] result@[k]).wf(
                        *cs,
                    ) by {
                        if k < result@.len() - 1 {
                            result@[k].lemma_wf_extend(pre2, *cs);
                        }
                    }
                    flag.lemma_wf_extend(pre2, *cs);
                    assert(last_run == Some(flag));
                    assert(current_run@.len() == 0);
                    if cs.witness {
                        lemma_match_step(v, bound_val(), p as nat);
                        assert(!bit_of(bound_val(), p as nat));
                        assert(a_bit.value == Some(bit_of(v, p as nat)));
                        assert(combined_hint(current_run@, last_run) <==> flag.value == Some(
                            true,
                        ));
                        if flag.value == Some(true) {
                            assert(!bit_of(v, p as nat));
                            assert(v / pow2(p as nat) == bound_val() / pow2(p as nat));
                        } else {
                            assert(v / pow2(pos as nat) != bound_val() / pow2(pos as nat));
                            assert(v / pow2(p as nat) != bound_val() / pow2(p as nat));
                        }
                        assert(combined_hint(current_run@, last_run) <==> v / pow2(p as nat)
                            == bound_val() / pow2(p as nat));
                    }
                    assert(result@.len() == (if p <= 7 {
                        8 - p
                    } else {
                        0int
                    }));
                    // constraint-level invariant: the fold produced a flag
                    // whose slot reports an exact match so far, and the
                    // conditionally allocated bit keeps the high-first slot
                    // value under the bound
                    assert(run_top.len() > 0);
                    lemma_bit_step(bound_val(), p as nat);
                    assert(bound_val() / pow2(p as nat) == 2 * (bound_val() / pow2(
                        (p + 1) as nat,
                    )));
                    let ghost rb = if last_top is Some {
                        run_top.push(last_top.unwrap())
                    } else {
                        run_top
                    };
                    let ghost t_len = t_state.constraints@.len() as int;
                    assert(lo <= t_len);
                    assert(cs.constraints@ =~= pre2.constraints@.push(cs.constraints@.last()));
                    assert forall|inp: Seq<nat>, ax: Seq<nat>|
                        wf_assign(inp, ax, cs.ni(), cs.na()) implies (#[trigger] range_holds(
                        *cs,
                        lo,
                        inp,
                        ax,
                    ) ==> ({
                        &&& all_bits_boolean(result@, inp, ax)
                        &&& all_bits_boolean(current_run@, inp, ax)
                        &&& (last_run matches Some(f) ==> is_bit_val(
                            var_val(f.variable, inp, ax),
                        ))
                        &&& high_val(result@, inp, ax) <= bound_val() / pow2(p as nat)
                        &&& (high_val(result@, inp, ax) == bound_val() / pow2(p as nat) ==> (
                        all_bits_one(current_run@, inp, ax) && (last_run matches Some(f)
                            ==> var_val(f.variable, inp, ax) == 1)))
                    })) by {
                        if range_holds(*cs, lo, inp, ax) {
                            lemma_range_holds_push(pre2, *cs, lo, inp, ax);
                            lemma_range_holds_prefix(t_state, pre2, lo, inp, ax);
                            // the range the fold registered is satisfied too
                            assert(range_holds(pre2, t_len, inp, ax)) by {
                                assert forall|k: int|
                                    t_len <= k < pre2.constraints@.len() implies constraint_holds(
                                    #[trigger] pre2.constraints@[k],
                                    inp,
                                    ax,
                                ) by {
                                    assert(lo <= k);
                                }
                            }
                            // run bits are boolean, so the folded flag is the
                            // conjunction of their slots
                            let hh = high_val(result_top, inp, ax);
                            let bh = bound_val() / pow2((p + 1) as nat);
                            assert(hh <= bh);
                            assert(all_bits_boolean(run_top, inp, ax));
                            assert(all_bits_boolean(rb, inp, ax)) by {
                                assert forall|k: int|
                                    0 <= k < rb.len() implies is_bit_val(
                                    var_val((#[trigger] rb[k]).variable, inp, ax),
                                ) by {
                                    if k < run_top.len() {
                                        assert(rb[k] == run_top[k]);
                                    }
                                }
                            }
                            let xf = var_val(flag.variable, inp, ax);
                            assert(is_bit_val(xf));
                            assert(xf == 1 <==> all_bits_one(rb, inp, ax));
                            let ss = var_val(a_bit.variable, inp, ax);
                            assert(if xf == 1 {
                                ss == 0
                            } else {
                                is_bit_val(ss)
                            });
                            assert(is_bit_val(ss));
                            lemma_high_val_push(result_top, a_bit, inp, ax);
                            assert(high_val(result@, inp, ax) == 2 * hh + ss);
                            assert forall|k: int|
                                0 <= k < result@.len() implies is_bit_val(
                                var_val((#[trigger] result@[k]).variable, inp, ax),
                            ) by {
                                if k < result@.len() - 1 {
                                    assert(result@[k] == result_top[k]);
                                }
                            }
                            if hh == bh {
                                // exact match so far: the run slots and the
                                // previous flag are all one, so the folded
                                // flag is one and the new bit is forced clear
                                assert(all_bits_one(run_top, inp, ax));
                                assert(all_bits_one(rb, inp, ax)) by {
                                    assert forall|k: int|
                                        0 <= k < rb.len() implies var_val(
                                        (#[trigger] rb[k]).variable,
                                        inp,
                                        ax,
                                    ) == 1 by {
                                        if k < run_top.len() {
                                            assert(rb[k] == run_top[k]);
                                        } else {
                                            assert(rb[k] == last_top.unwrap());
                                        }
                                    }
                                }
                                assert(xf == 1);
                                assert(ss == 0);
                                assert(high_val(result@, inp, ax) == bound_val() / pow2(
                                    p as nat,
                                ));
                            } else {
                                assert(hh < bh);
                                assert(2 * hh + ss < 2 * bh);
                            }
                            if high_val(result@, inp, ax) == bound_val() / pow2(p as nat) {
                                assert(2 * hh + ss == 2 * bh);
                                assert(hh == bh);
                                assert(xf == 1);
                            }
                        }
                    }
                }
            }
            pos = p;
        }
        // the bound is even, so the walk always ends just after a fold:
        // no run is pending
        proof {
            assert(current_run@.len() == 0);
            assert(result@.len() == NUM_BITS);
        }
        let mut le_bits: Vec<AllocatedBit> = Vec::new();
        let mut j: usize = 0;
        while j < NUM_BITS
            invariant
                j <= NUM_BITS,
                le_bits@.len() == j,
                result@.len() == NUM_BITS,
                forall|i: int|
                    0 <= i < j ==> (#[trigger] le_bits@[i]) == result@[NUM_BITS - 1 - i],
            decreases NUM_BITS - j,
        {
            le_bits.push(result[NUM_BITS - 1 - j]);
            j = j + 1;
        }
        let ghost mid = *cs;
        proof {
            assert forall|i: int| 0 <= i < le_bits@.len() implies (#[trigger] le_bits@[i]).wf(mid)
                by {
                assert(le_bits@[i] == result@[NUM_BITS - 1 - i]);
            }
            if cs.witness {
                assert forall|i: int|
                    0 <= i < le_bits@.len() implies (#[trigger] le_bits@[i]).value == Some(
                    bit_of(self.value.unwrap().n(), i as nat),
                ) by {
                    assert(le_bits@[i] == result@[NUM_BITS - 1 - i]);
                    assert(result@[NUM_BITS - 1 - i].value == Some(
                        bit_of(v, (7 - (NUM_BITS - 1 - i)) as nat),
                    ));
                }
            }
        }
        self.pack_equal(cs, &le_bits);
        let mut out: Vec<Boolean> = Vec::new();
        let mut i: usize = 0;
        while i < le_bits.len()
            invariant
                i <= le_bits@.len(),
                out@.len() == i,
                forall|j2: int| 0 <= j2 < i ==> (#[trigger] out@[j2]) == Boolean::Is(le_bits@[j2]),
            decreases le_bits@.len() - i,
        {
            out.push(Boolean::Is(le_bits[i]));
            i = i + 1;
        }
        proof {
            let post = *cs;
            assert forall|j2: int| 0 <= j2 < out@.len() implies (#[trigger] out@[j2]).wf(post) by {
                assert(out@[j2] == Boolean::Is(le_bits@[j2]));
                assert(le_bits@[j2].wf(post));
            }
            lemma_prefix_trans(old(cs).aux_vals(), mid.aux_vals(), post.aux_vals());
            lemma_prefix_trans(old(cs).constraints@, mid.constraints@, post.constraints@);
            assert(pow2(0) == 1) by {
                lemma2_to64();
            }
            assert(bound_val() / pow2(0) == bound_val()) by {
                lemma_fundamental_div_mod(bound_val() as int, 1);
                lemma_mod_bound(bound_val() as int, 1);
            }
            assert(post.constraints@ =~= mid.constraints@.push(post.constraints@.last()));
            assert forall|inp: Seq<nat>, ax: Seq<nat>|
                wf_assign(inp, ax, post.ni(), post.na()) implies (#[trigger] range_holds(
                post,
                lo,
                inp,
                ax,
            ) ==> ((forall|i2: int|
                0 <= i2 < out@.len() ==> is_bit_val((#[trigger] out@[i2]).eval(inp, ax)))
                && booleans_weighted_sum(out@, inp, ax) == var_val(self.variable, inp, ax)
                && booleans_weighted_sum(out@, inp, ax) <= bound_val())) by {
                if range_holds(post, lo, inp, ax) {
                    lemma_range_holds_push(mid, post, lo, inp, ax);
                    let hh = high_val(result@, inp, ax);
                    assert(all_bits_boolean(result@, inp, ax) && hh <= bound_val());
                    assert forall|i2: int|
                        0 <= i2 < le_bits@.len() implies #[trigger] le_bits@[i2] == result@[
                        result@.len() - 1 - i2] by {}
                    lemma_high_eq_rev_sum(result@, le_bits@, inp, ax);
                    assert(bit_weighted_sum(le_bits@, inp, ax) == hh);
                    assert(constraint_holds(post.constraints@.last(), inp, ax)
                        <==> bit_weighted_sum(le_bits@, inp, ax) % prime() == var_val(
                        self.variable,
                        inp,
                        ax,
                    ));
                    lemma_small_mod(hh, prime());
                    assert(bit_weighted_sum(le_bits@, inp, ax) == var_val(
                        self.variable,
                        inp,
                        ax,
                    ));
                    lemma_weighted_sum_over_is(out@, le_bits@, inp, ax);
                    assert forall|i2: int|
                        0 <= i2 < out@.len() implies ((#[trigger] out@[i2]).eval(inp, ax)
                        == var_val(le_bits@[i2].variable, inp, ax)) by {
                        assert(out@[i2] == Boolean::Is(le_bits@[i2]));
                    }
                    assert forall|i2: int| 0 <= i2 < out@.len() implies is_bit_val(
                        (#[trigger] out@[i2]).eval(inp, ax),
                    ) by {
                        assert(le_bits@[i2] == result@[result@.len() - 1 - i2]);
                        assert(is_bit_val(var_val(le_bits@[i2].variable, inp, ax)));
                    }
                }
            }
        }
        Ok(out)
    }
}

} // verus!
