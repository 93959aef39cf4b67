//! Laws relating the gadgets' contracts, stated and proved once for every
//! field value.

use vstd::prelude::*;
use vstd::arithmetic::power2::{pow2, lemma_pow2_pos, lemma_pow2_unfold, lemma2_to64};
use vstd::arithmetic::div_mod::lemma_small_mod;
use crate::field::{prime, fmul, lemma_mul_cancel, lemma_inverse_exists, is_inverse};
use crate::bits::{bitseq, bits_value, bound_val, lemma_bits_value_of};
use crate::boolean::Boolean;
use crate::num::slot_sel_index;
use crate::field::NUM_BITS;

verus! {

/// Law: decomposing a canonical field value into its little-endian bits
/// and re-summing them weighted by powers of two reproduces the value
/// exactly, and the value never exceeds the characteristic minus one —
/// the bit string a decomposition commits to is the canonical one.
pub proof fn lemma_bits_le_roundtrip(v: nat)
    requires
        v < prime(),
    ensures
        bits_value(bitseq(v, NUM_BITS as nat)) == v,
        v <= bound_val(),
{
    lemma_bits_value_of(v, NUM_BITS as nat);
    assert(pow2(8) == 256) by {
        lemma2_to64();
    }
    lemma_small_mod(v, pow2(8));
}

/// Law: the division constraint `out * b = a` pins its output uniquely
/// whenever the divisor is nonzero: two canonical residues that both
/// satisfy it against the same operands are equal.
pub proof fn lemma_div_result_unique(a: nat, b: nat, x: nat, y: nat)
    requires
        a < prime(),
        b < prime(),
        x < prime(),
        y < prime(),
        b != 0,
        fmul(x, b) == a,
        fmul(y, b) == a,
    ensures
        x == y,
{
    lemma_mul_cancel(b, x, y);
}

/// Law: the nonzero-assertion constraint `a * inv = 1` is satisfiable for
/// every nonzero canonical residue: some inverse witness exists.
pub proof fn lemma_nonzero_satisfiable(a: nat)
    requires
        1 <= a < prime(),
    ensures
        exists|i: nat| is_inverse(i, a),
{
    lemma_inverse_exists(a);
}

/// Law: whenever every selector slot holds a bit value, the input
/// position the slots pick out stays below the subtree's width.
pub proof fn lemma_slot_sel_index_bound(bits: Seq<Boolean>, bi: int, inputs: Seq<nat>, aux: Seq<nat>)
    requires
        0 <= bi <= bits.len(),
        forall|t: int| bi <= t < bits.len() ==> (#[trigger] bits[t]).eval(inputs, aux) <= 1,
    ensures
        slot_sel_index(bits, bi, inputs, aux) < pow2((bits.len() - bi) as nat),
    decreases bits.len() - bi,
{
    if bi == bits.len() {
        assert(pow2(0) == 1) by {
            lemma2_to64();
        }
    } else {
        lemma_slot_sel_index_bound(bits, bi + 1, inputs, aux);
        lemma_pow2_unfold((bits.len() - bi) as nat);
        assert(bits[bi].eval(inputs, aux) <= 1);
        assert(bits[bi].eval(inputs, aux) * pow2((bits.len() - bi - 1) as nat) <= pow2(
            (bits.len() - bi - 1) as nat,
        )) by (nonlinear_arith)
            requires
                bits[bi].eval(inputs, aux) <= 1 && pow2((bits.len() - bi - 1) as nat) > 0,
        ;
        lemma_pow2_pos((bits.len() - bi - 1) as nat);
    }
}

} // verus!
