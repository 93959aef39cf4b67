//! The prime field the gadgets compute over.
//!
//! Field elements are residues modulo a fixed prime characteristic. The
//! characteristic is small enough that every product fits comfortably in a
//! machine word, which keeps the arithmetic directly verifiable; the gadget
//! layer above only relies on the field axioms stated here (closure,
//! existence of inverses, absence of zero divisors).

use vstd::prelude::*;
use vstd::arithmetic::div_mod::*;

verus! {

/// The field's characteristic, a prime.
pub const MODULUS: u64 = 251;

/// Number of bits needed to hold any canonical field element.
pub const NUM_BITS: usize = 8;

/// The characteristic as a specification-level natural number.
pub open spec fn prime() -> nat {
    MODULUS as nat
}

/// Field addition on canonical representatives.
pub open spec fn fadd(a: nat, b: nat) -> nat {
    ((a + b) % prime()) as nat
}

/// Field subtraction on canonical representatives.
pub open spec fn fsub(a: nat, b: nat) -> nat {
    (((a as int) - (b as int)) % (prime() as int)) as nat
}

/// Field negation on canonical representatives.
pub open spec fn fneg(a: nat) -> nat {
    ((-(a as int)) % (prime() as int)) as nat
}

/// Field multiplication on canonical representatives.
pub open spec fn fmul(a: nat, b: nat) -> nat {
    ((a * b) % prime()) as nat
}

pub broadcast proof fn lemma_fadd_bound(a: nat, b: nat)
    ensures
        #[trigger] fadd(a, b) < prime(),
{
}

pub broadcast proof fn lemma_fsub_bound(a: nat, b: nat)
    ensures
        #[trigger] fsub(a, b) < prime(),
{
}

pub broadcast proof fn lemma_fneg_bound(a: nat)
    ensures
        #[trigger] fneg(a) < prime(),
{
}

pub broadcast proof fn lemma_fmul_bound(a: nat, b: nat)
    ensures
        #[trigger] fmul(a, b) < prime(),
{
}

/// Greatest common divisor, by Euclid's recursion.
pub open spec fn gcd(a: nat, b: nat) -> nat
    decreases b,
{
    if b == 0 {
        a
    } else {
        gcd(b, a % b)
    }
}

pub proof fn lemma_gcd_divides(a: nat, b: nat)
    requires
        a > 0 || b > 0,
    ensures
        gcd(a, b) > 0,
        a % gcd(a, b) == 0,
        b % gcd(a, b) == 0,
    decreases b,
{
    if b == 0 {
        assert(a % a == 0) by {
            lemma_mod_self_0(a as int);
        }
    } else {
        lemma_gcd_divides(b, a % b);
        let g = gcd(b, a % b);
        let q = a as int / b as int;
        lemma_fundamental_div_mod(a as int, b as int);
        assert(a as int == (b as int) * q + (a % b));
        assert(((b as int) * q) % (g as int) == 0) by {
            lemma_mul_mod_noop_left(b as int, q, g as int);
            assert((((b as int) % (g as int)) * q) % (g as int) == 0);
        }
        lemma_add_mod_noop((b as int) * q, (a % b) as int, g as int);
    }
}

/// Whether `(x, y)` witnesses Bezout's identity for `a` and `b`.
pub open spec fn is_bezout_pair(x: int, y: int, a: nat, b: nat) -> bool {
    x * (a as int) + y * (b as int) == gcd(a, b)
}

pub proof fn lemma_bezout(a: nat, b: nat)
    ensures
        exists|x: int, y: int| is_bezout_pair(x, y, a, b),
    decreases b,
{
    if b == 0 {
        assert(is_bezout_pair(1, 0, a, b));
    } else {
        lemma_bezout(b, a % b);
        let r: nat = a % b;
        let (x0, y0) = choose|x0: int, y0: int| #[trigger] is_bezout_pair(x0, y0, b, r);
        let q = a as int / b as int;
        lemma_fundamental_div_mod(a as int, b as int);
        assert((a % b) as int == a as int - (b as int) * q);
        assert(x0 * (b as int) + y0 * (a as int - (b as int) * q) == y0 * (a as int) + (x0 - y0
            * q) * (b as int)) by (nonlinear_arith);
        assert(is_bezout_pair(y0, x0 - y0 * q, a, b));
    }
}

/// The characteristic divided by none of the candidates up to its square root.
proof fn lemma_no_small_factor(d: int)
    requires
        2 <= d <= 15,
    ensures
        251int % d != 0,
{
    assert(251int % 2 == 1);
    assert(251int % 3 == 2);
    assert(251int % 4 == 3);
    assert(251int % 5 == 1);
    assert(251int % 6 == 5);
    assert(251int % 7 == 6);
    assert(251int % 8 == 3);
    assert(251int % 9 == 8);
    assert(251int % 10 == 1);
    assert(251int % 11 == 9);
    assert(251int % 12 == 11);
    assert(251int % 13 == 4);
    assert(251int % 14 == 13);
    assert(251int % 15 == 11);
}

/// The characteristic has no nontrivial divisor: it is prime. A nontrivial
/// factorisation would have a factor no larger than the square root, and
/// each such candidate is ruled out directly.
pub proof fn lemma_modulus_prime()
    ensures
        forall|d: int| 2 <= d < MODULUS ==> #[trigger] ((MODULUS as int) % d) != 0,
{
    assert forall|d: int| 2 <= d < MODULUS implies #[trigger] ((MODULUS as int) % d) != 0 by {
        if (MODULUS as int) % d == 0 {
            let e = (MODULUS as int) / d;
            lemma_fundamental_div_mod(MODULUS as int, d);
            assert(251 == d * e);
            assert(e >= 2) by (nonlinear_arith)
                requires
                    251 == d * e && 2 <= d < 251,
            ;
            assert(d <= 15 || e <= 15) by (nonlinear_arith)
                requires
                    251 == d * e && d >= 2 && e >= 2,
            ;
            if d <= 15 {
                lemma_no_small_factor(d);
            } else {
                lemma_mod_multiples_basic(d, e);
                assert(251int % e == 0);
                lemma_no_small_factor(e);
            }
            assert(false);
        }
    }
}

/// Whether `i` is the canonical multiplicative inverse of `a`.
pub open spec fn is_inverse(i: nat, a: nat) -> bool {
    i < prime() && fmul(a, i) == 1
}

/// Every nonzero residue has a multiplicative inverse: the characteristic
/// is prime, so Bezout's identity for `a` and the characteristic has
/// gcd 1, and the Bezout coefficient of `a` is the inverse.
pub proof fn lemma_inverse_exists(a: nat)
    requires
        1 <= a < prime(),
    ensures
        exists|i: nat| is_inverse(i, a),
{
    let p = prime() as int;
    lemma_gcd_divides(a, prime());
    let g = gcd(a, prime());
    if g > a {
        lemma_small_mod(a, g);
        assert(false);
    }
    if g >= 2 {
        lemma_modulus_prime();
        assert((MODULUS as int) % (g as int) != 0);
        assert(false);
    }
    assert(g == 1);
    lemma_bezout(a, prime());
    let (x, y) = choose|x: int, y: int| is_bezout_pair(x, y, a, prime());
    assert(x * (a as int) + y * p == 1);
    let i = x % p;
    assert(0 <= i < p) by {
        lemma_mod_bound(x, p);
    }
    assert(((a as int) * i) % p == ((a as int) * x) % p) by {
        lemma_mul_mod_noop_right(a as int, x, p);
    }
    assert((a as int) * x == p * (-y) + 1) by (nonlinear_arith)
        requires
            x * (a as int) + y * p == 1,
    ;
    assert((p * (-y) + 1) % p == 1int % p) by {
        lemma_mod_multiples_vanish(-y, 1, p);
    }
    assert(1int % p == 1) by {
        lemma_small_mod(1nat, prime());
    }
    assert(is_inverse(i as nat, a));
}

/// Multiplying by a residue and then by its inverse is the identity.
pub proof fn lemma_inv_cancel(x: nat, m: nat, i: nat)
    requires
        x < prime(),
        m < prime(),
        is_inverse(i, m),
    ensures
        fmul(fmul(x, m), i) == x,
{
    let p = prime() as int;
    assert((((x * m) % prime()) * i) as int % p == ((x * m) * i) as int % p) by {
        lemma_mul_mod_noop_left((x * m) as int, i as int, p);
    }
    assert((x * m) * i == x * (m * i)) by (nonlinear_arith);
    assert((x * (m * i)) as int % p == (x * ((m * i) % prime())) as int % p) by {
        lemma_mul_mod_noop_right(x as int, (m * i) as int, p);
    }
    assert((m * i) % prime() == 1);
    assert((x * 1nat) % prime() == x) by {
        lemma_small_mod(x, prime());
    }
}

/// A prime field has no zero divisors.
pub proof fn lemma_no_zero_divisors(a: nat, b: nat)
    requires
        a < prime(),
        b < prime(),
        a != 0,
        fmul(a, b) == 0,
    ensures
        b == 0,
{
    lemma_inverse_exists(a);
    let i = choose|i: nat| is_inverse(i, a);
    lemma_inv_cancel(b, a, i);
    assert(b * a == a * b) by (nonlinear_arith);
    assert(fmul(b, a) == 0);
    assert(0nat * i == 0) by (nonlinear_arith);
    assert(fmul(0, i) == 0) by {
        lemma_small_mod(0, prime());
    }
}

/// If two residues multiplied by the same nonzero residue agree, they agree.
pub proof fn lemma_mul_cancel(m: nat, x: nat, y: nat)
    requires
        m < prime(),
        x < prime(),
        y < prime(),
        m != 0,
        fmul(x, m) == fmul(y, m),
    ensures
        x == y,
{
    lemma_inverse_exists(m);
    let i = choose|i: nat| is_inverse(i, m);
    lemma_inv_cancel(x, m, i);
    lemma_inv_cancel(y, m, i);
}

pub proof fn lemma_fadd_assoc(a: nat, b: nat, c: nat)
    requires
        a < prime(),
        b < prime(),
        c < prime(),
    ensures
        fadd(fadd(a, b), c) == fadd(a, fadd(b, c)),
{
    let p = prime() as int;
    lemma_small_mod(a, prime());
    lemma_small_mod(c, prime());
    assert((((a + b) % prime()) + c) as int % p == (a + b + c) as int % p) by {
        lemma_add_mod_noop((a + b) as int, c as int, p);
    }
    assert((a + ((b + c) % prime())) as int % p == (a + b + c) as int % p) by {
        lemma_add_mod_noop(a as int, (b + c) as int, p);
    }
}

/// Associativity of field addition for arbitrary naturals.
pub proof fn lemma_fadd_assoc_free(a: nat, b: nat, c: nat)
    ensures
        fadd(fadd(a, b), c) == fadd(a, fadd(b, c)),
{
    let p = prime() as int;
    lemma_mod_twice((a + b) as int, p);
    lemma_mod_twice((b + c) as int, p);
    lemma_add_mod_noop((a + b) as int, c as int, p);
    lemma_add_mod_noop(((a + b) % prime()) as int, c as int, p);
    lemma_add_mod_noop(a as int, (b + c) as int, p);
    lemma_add_mod_noop(a as int, ((b + c) % prime()) as int, p);
}

pub proof fn lemma_fmul_assoc(a: nat, b: nat, c: nat)
    ensures
        fmul(fmul(a, b), c) == fmul(a, fmul(b, c)),
{
    let p = prime() as int;
    assert((((a * b) % prime()) * c) as int % p == ((a * b) * c) as int % p) by {
        lemma_mul_mod_noop_left((a * b) as int, c as int, p);
    }
    assert((a * b) * c == a * (b * c)) by (nonlinear_arith);
    assert((a * ((b * c) % prime())) as int % p == (a * (b * c)) as int % p) by {
        lemma_mul_mod_noop_right(a as int, (b * c) as int, p);
    }
}

pub proof fn lemma_fmul_distrib(k: nat, x: nat, y: nat)
    ensures
        fmul(k, fadd(x, y)) == fadd(fmul(k, x), fmul(k, y)),
{
    let p = prime() as int;
    assert((k * ((x + y) % prime())) as int % p == (k * (x + y)) as int % p) by {
        lemma_mul_mod_noop_right(k as int, (x + y) as int, p);
    }
    assert(k * (x + y) == k * x + k * y) by (nonlinear_arith);
    assert((k * x + k * y) as int % p == (((k * x) % prime()) + ((k * y) % prime())) as int % p)
        by {
        lemma_add_mod_noop((k * x) as int, (k * y) as int, p);
    }
}

pub proof fn lemma_fmul_zero(a: nat)
    ensures
        fmul(0, a) == 0,
        fmul(a, 0) == 0,
{
    assert(0nat * a == 0) by (nonlinear_arith);
    assert(a * 0nat == 0) by (nonlinear_arith);
    lemma_small_mod(0, prime());
}

pub proof fn lemma_fadd_zero(a: nat)
    requires
        a < prime(),
    ensures
        fadd(0, a) == a,
        fadd(a, 0) == a,
{
    lemma_small_mod(a, prime());
}

pub proof fn lemma_fmul_one(a: nat)
    requires
        a < prime(),
    ensures
        fmul(1, a) == a,
        fmul(a, 1) == a,
{
    assert(1nat * a == a) by (nonlinear_arith);
    assert(a * 1nat == a) by (nonlinear_arith);
    lemma_small_mod(a, prime());
}

pub proof fn lemma_fmul_comm(a: nat, b: nat)
    ensures
        fmul(a, b) == fmul(b, a),
{
    assert(a * b == b * a) by (nonlinear_arith);
}

/// The residue of the coefficient minus one acts as negation.
pub proof fn lemma_fmul_neg_one(x: nat)
    requires
        x < prime(),
    ensures
        fmul((MODULUS - 1) as nat, x) == fneg(x),
        fmul(x, (MODULUS - 1) as nat) == fneg(x),
{
    assert((MODULUS - 1) as nat * x == 250 * x) by (nonlinear_arith);
    assert(x * ((MODULUS - 1) as nat) == 250 * x) by (nonlinear_arith);
    assert(251int * (x as int) + (-(x as int)) == (250 * x) as int) by (nonlinear_arith);
    assert((251int * (x as int) + (-(x as int))) % 251int == (-(x as int)) % 251int) by {
        lemma_mod_multiples_vanish(x as int, -(x as int), 251int);
    }
}

/// Adding a negation is subtraction.
pub proof fn lemma_fadd_fneg(a: nat, b: nat)
    requires
        a < prime(),
    ensures
        fadd(a, fneg(b)) == fsub(a, b),
{
    let p = prime() as int;
    lemma_small_mod(a, prime());
    assert((a as int % p + (-(b as int)) % p) % p == (a as int - b as int) % p) by {
        lemma_add_mod_noop(a as int, -(b as int), p);
    }
}

/// Subtraction of canonical residues vanishes exactly on equality.
pub proof fn lemma_fsub_eq_zero(a: nat, b: nat)
    requires
        a < prime(),
        b < prime(),
    ensures
        (fsub(a, b) == 0) <==> (a == b),
{
    let p = prime() as int;
    let d = a as int - b as int;
    if d >= 0 {
        lemma_small_mod(d as nat, prime());
    } else {
        assert((p + d) % p == d % p) by {
            lemma_mod_multiples_vanish(1, d, p);
        }
        lemma_small_mod((p + d) as nat, prime());
    }
}

/// Subtracting from a common minuend is injective.
pub proof fn lemma_fsub_cancel(a: nat, b: nat, c: nat)
    requires
        a < prime(),
        b < prime(),
        c < prime(),
    ensures
        (fsub(a, b) == fsub(a, c)) <==> (b == c),
{
    let p = prime() as int;
    if fsub(a, b) == fsub(a, c) {
        assert(((a as int - b as int) % p - (a as int - c as int) % p) % p == ((a as int
            - b as int) - (a as int - c as int)) % p) by {
            lemma_sub_mod_noop(a as int - b as int, a as int - c as int, p);
        }
        assert((c as int - b as int) % p == 0) by {
            lemma_mod_self_0(p);
        }
        lemma_fsub_eq_zero(c, b);
    }
}

/// A sum of canonical residues vanishes exactly when one is the negation
/// of the other.
pub proof fn lemma_fadd_eq_zero(a: nat, b: nat)
    requires
        a < prime(),
        b < prime(),
    ensures
        (fadd(a, b) == 0) <==> (b == fneg(a)),
{
    let p = prime() as int;
    if a + b < prime() {
        lemma_small_mod(a + b, prime());
    } else {
        assert((a + b) as int % p == ((a + b) as int - p) % p) by {
            lemma_mod_multiples_vanish(1, (a + b) as int - p, p);
        }
        lemma_small_mod(((a + b) as int - p) as nat, prime());
    }
    if a == 0 {
        assert(fneg(a) == 0) by {
            lemma_small_mod(0, prime());
        }
    } else {
        assert((-(a as int)) % p == (p - a) % p) by {
            lemma_mod_multiples_vanish(1, -(a as int), p);
        }
        lemma_small_mod((p - a) as nat, prime());
    }
}

/// Field addition of a common term is injective on canonical residues.
pub proof fn lemma_fadd_cancel(a: nat, b: nat, c: nat)
    requires
        a < prime(),
        b < prime(),
        fadd(a, c) == fadd(b, c),
    ensures
        a == b,
{
    let p = prime() as int;
    assert(((a + c) as int % p - (b + c) as int % p) % p == ((a + c) as int - (b + c) as int) % p)
        by {
        lemma_sub_mod_noop((a + c) as int, (b + c) as int, p);
    }
    assert((a as int - b as int) % p == 0) by {
        lemma_mod_self_0(p);
    }
    lemma_fsub_eq_zero(a, b);
}

/// Multiplication distributes over negation.
pub proof fn lemma_fmul_fneg(c: nat, x: nat)
    ensures
        fmul(fneg(c), x) == fneg(fmul(c, x)),
{
    let p = prime() as int;
    assert((((-(c as int)) % p) * (x as int)) % p == ((-(c as int)) * (x as int)) % p) by {
        lemma_mul_mod_noop_left(-(c as int), x as int, p);
    }
    assert((-(c as int)) * (x as int) == -((c * x) as int)) by (nonlinear_arith);
    let y = (c * x) as int;
    lemma_fundamental_div_mod(y, p);
    assert(-y == p * (-(y / p)) + (-(y % p))) by (nonlinear_arith)
        requires
            y == p * (y / p) + y % p,
    ;
    assert((p * (-(y / p)) + (-(y % p))) % p == (-(y % p)) % p) by {
        lemma_mod_multiples_vanish(-(y / p), -(y % p), p);
    }
}

/// Multiplication distributes over subtraction.
pub proof fn lemma_fmul_fsub(k: nat, a: nat, b: nat)
    ensures
        fmul(k, fsub(a, b)) == fsub(fmul(k, a), fmul(k, b)),
{
    let p = prime() as int;
    assert(((k as int) * (((a as int) - (b as int)) % p)) % p == ((k as int) * ((a as int)
        - (b as int))) % p) by {
        lemma_mul_mod_noop_right(k as int, (a as int) - (b as int), p);
    }
    assert((k as int) * ((a as int) - (b as int)) == (k * a) as int - (k * b) as int)
        by (nonlinear_arith);
    assert(((k * a) as int - (k * b) as int) % p == (((k * a) as int % p) - ((k * b) as int % p))
        % p) by {
        lemma_sub_mod_noop((k * a) as int, (k * b) as int, p);
    }
}

/// The core of the boolean constraint: `(1 - x) * x = 0` pins a canonical
/// residue to zero or one.
pub proof fn lemma_bool_constraint(x: nat)
    requires
        x < prime(),
    ensures
        (fmul(fsub(1, x), x) == 0) <==> (x == 0 || x == 1),
{
    if x == 0 {
        lemma_fmul_zero(fsub(1, x));
    } else if x == 1 {
        lemma_fsub_eq_zero(1, 1);
        lemma_fmul_zero(1);
        assert(fsub(1, x) == 0);
    } else {
        if fmul(fsub(1, x), x) == 0 {
            broadcast use lemma_fsub_bound;

            lemma_fsub_eq_zero(1, x);
            assert(fsub(1, x) != 0);
            lemma_no_zero_divisors(fsub(1, x), x);
            assert(false);
        }
    }
}

/// A field element: a canonical residue modulo the characteristic.
#[derive(Clone, Copy, Debug, PartialEq, Eq, Structural)]
pub struct Fp {
    pub v: u64,
}

impl Fp {
    /// The residue as a specification-level natural number.
    pub open spec fn n(self) -> nat {
        self.v as nat
    }

    /// Canonicity: the representative is reduced.
    pub open spec fn wf(self) -> bool {
        self.v < MODULUS
    }

    pub fn zero() -> (r: Fp)
        ensures
            r.wf(),
            r.n() == 0,
    {
        Fp { v: 0 }
    }

    pub fn one() -> (r: Fp)
        ensures
            r.wf(),
            r.n() == 1,
    {
        Fp { v: 1 }
    }

    /// The residue class of an arbitrary machine integer.
    pub fn from_u64(x: u64) -> (r: Fp)
        ensures
            r.wf(),
            r.n() == x as nat % prime(),
    {
        Fp { v: x % MODULUS }
    }

    pub fn is_zero(self) -> (r: bool)
        ensures
            r == (self.n() == 0),
    {
        self.v == 0
    }

    pub fn add(self, o: Fp) -> (r: Fp)
        requires
            self.wf(),
            o.wf(),
        ensures
            r.wf(),
            r.n() == fadd(self.n(), o.n()),
    {
        Fp { v: (self.v + o.v) % MODULUS }
    }

    pub fn sub(self, o: Fp) -> (r: Fp)
        requires
            self.wf(),
            o.wf(),
        ensures
            r.wf(),
            r.n() == fsub(self.n(), o.n()),
    {
        proof {
            lemma_mod_multiples_vanish(1, self.v as int - o.v as int, MODULUS as int);
        }
        Fp { v: (self.v + MODULUS - o.v) % MODULUS }
    }

    pub fn neg(self) -> (r: Fp)
        requires
            self.wf(),
        ensures
            r.wf(),
            r.n() == fneg(self.n()),
    {
        proof {
            lemma_mod_multiples_vanish(1, -(self.v as int), MODULUS as int);
        }
        Fp { v: (MODULUS - self.v) % MODULUS }
    }

    pub fn mul(self, o: Fp) -> (r: Fp)
        requires
            self.wf(),
            o.wf(),
        ensures
            r.wf(),
            r.n() == fmul(self.n(), o.n()),
    {
        proof {
            assert(self.v * o.v < 251 * 251) by (nonlinear_arith)
                requires
                    self.v < 251 && o.v < 251,
            ;
        }
        Fp { v: (self.v * o.v) % MODULUS }
    }

    pub fn double(self) -> (r: Fp)
        requires
            self.wf(),
        ensures
            r.wf(),
            r.n() == fadd(self.n(), self.n()),
    {
        self.add(self)
    }

    pub fn square(self) -> (r: Fp)
        requires
            self.wf(),
        ensures
            r.wf(),
            r.n() == fmul(self.n(), self.n()),
    {
        self.mul(self)
    }

    /// The multiplicative inverse, absent exactly at zero.
    pub fn invert(self) -> (r: Option<Fp>)
        requires
            self.wf(),
        ensures
            match r {
                Some(i) => i.wf() && self.n() != 0 && fmul(self.n(), i.n()) == 1,
                None => self.n() == 0,
            },
    {
        if self.v == 0 {
            return None;
        }
        proof {
            lemma_inverse_exists(self.n());
        }
        let mut i: u64 = 1;
        while i < MODULUS
            invariant
                1 <= i <= MODULUS,
                self.wf(),
                self.v != 0,
                forall|j: nat| j < i ==> fmul(self.n(), j) != 1,
            decreases MODULUS - i,
        {
            proof {
                assert(self.v * i < 251 * 251) by (nonlinear_arith)
                    requires
                        self.v < 251 && i < 251,
                ;
            }
            if (self.v * i) % MODULUS == 1 {
                return Some(Fp { v: i });
            }
            i = i + 1;
        }
        proof {
            let w = choose|w: nat| is_inverse(w, self.n());
            assert(fmul(self.n(), w) != 1);
            assert(false);
        }
        None
    }
}

} // verus!
