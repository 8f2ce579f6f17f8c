//! Exact natural numbers and fractions, held as base-2^32 digits. The
//! arithmetic is `num`'s; each operation states what it returns.

use vstd::prelude::*;

use num::{BigUint, Integer};

verus! {

/// The value of little-endian base-2^32 digits.
pub open spec fn digits_value(digits: Seq<u32>) -> nat
    decreases digits.len(),
{
    if digits.len() == 0 {
        0
    } else {
        digits[0] as nat + 0x1_0000_0000 * digits_value(digits.drop_first())
    }
}

/// Greatest common divisor, with `gcd(a, 0) == a`.
pub open spec fn gcd(a: nat, b: nat) -> nat
    decreases b,
{
    if b == 0 {
        a
    } else {
        gcd(b, a % b)
    }
}

/// An exact natural number: little-endian base-2^32 digits.
#[derive(Clone, Debug, PartialEq, Eq)]
pub struct BigNat {
    pub digits: Vec<u32>,
}

impl View for BigNat {
    type V = nat;

    open spec fn view(&self) -> nat {
        digits_value(self.digits@)
    }
}

proof fn lemma_zero_digits(digits: Seq<u32>)
    ensures
        digits_value(digits) == 0 <==> forall|i: int| 0 <= i < digits.len() ==> digits[i] == 0,
    decreases digits.len(),
{
    if digits.len() > 0 {
        lemma_zero_digits(digits.drop_first());
        if forall|i: int| 0 <= i < digits.drop_first().len() ==> digits.drop_first()[i] == 0 {
            if digits[0] == 0 {
                assert forall|i: int| 0 <= i < digits.len() implies digits[i] == 0 by {
                    if i > 0 {
                        assert(digits[i] == digits.drop_first()[i - 1]);
                    }
                }
            }
        } else {
            let i = choose|i: int| 0 <= i < digits.drop_first().len() && digits.drop_first()[i] != 0;
            assert(digits[i + 1] != 0);
        }
    }
}

impl BigNat {
    /// The number `value`.
    pub fn small(value: u32) -> (n: BigNat)
        ensures
            n@ == value,
    {
        let mut digits: Vec<u32> = Vec::new();
        digits.push(value);
        let n = BigNat { digits };
        assert(n.digits@.drop_first() =~= Seq::<u32>::empty());
        assert(digits_value(n.digits@.drop_first()) == 0);
        n
    }

    /// Whether the number is zero.
    pub fn is_zero(&self) -> (zero: bool)
        ensures
            zero == (self@ == 0),
    {
        proof {
            lemma_zero_digits(self.digits@);
        }
        let mut i: usize = 0;
        while i < self.digits.len()
            invariant
                i <= self.digits@.len(),
                forall|k: int| 0 <= k < i ==> self.digits@[k] == 0,
            decreases self.digits.len() - i,
        {
            if self.digits[i] != 0 {
                proof {
                    lemma_zero_digits(self.digits@);
                    assert(self.digits@[i as int] != 0);
                }
                return false;
            }
            i = i + 1;
        }
        true
    }

    /// An equal number with the same digits.
    pub fn copied(&self) -> (n: BigNat)
        ensures
            n.digits@ == self.digits@,
            n@ == self@,
    {
        let mut digits: Vec<u32> = Vec::new();
        let mut i: usize = 0;
        while i < self.digits.len()
            invariant
                i <= self.digits@.len(),
                digits@ == self.digits@.subrange(0, i as int),
            decreases self.digits.len() - i,
        {
            digits.push(self.digits[i]);
            i = i + 1;
            assert(digits@ =~= self.digits@.subrange(0, i as int));
        }
        assert(digits@ =~= self.digits@);
        BigNat { digits }
    }
}

/// The sum of two numbers, by `num`'s `BigUint` addition.
#[verifier::external_body]
pub(crate) fn big_add(a: &BigNat, b: &BigNat) -> (sum: BigNat)
    ensures
        sum@ == a@ + b@,
{
    BigNat { digits: (BigUint::from_slice(&a.digits) + BigUint::from_slice(&b.digits)).to_u32_digits() }
}

/// The difference of two numbers, by `num`'s `BigUint` subtraction, which
/// panics below zero.
#[verifier::external_body]
pub(crate) fn big_sub(a: &BigNat, b: &BigNat) -> (difference: BigNat)
    requires
        a@ >= b@,
    ensures
        difference@ == a@ - b@,
{
    BigNat { digits: (BigUint::from_slice(&a.digits) - BigUint::from_slice(&b.digits)).to_u32_digits() }
}

/// The product of two numbers, by `num`'s `BigUint` multiplication.
#[verifier::external_body]
pub(crate) fn big_mul(a: &BigNat, b: &BigNat) -> (product: BigNat)
    ensures
        product@ == a@ * b@,
{
    BigNat { digits: (BigUint::from_slice(&a.digits) * BigUint::from_slice(&b.digits)).to_u32_digits() }
}

/// The quotient rounded down, by `num`'s `BigUint` division, which panics
/// on a zero divisor.
#[verifier::external_body]
pub(crate) fn big_div(a: &BigNat, b: &BigNat) -> (quotient: BigNat)
    requires
        b@ > 0,
    ensures
        quotient@ == a@ / b@,
{
    BigNat { digits: (BigUint::from_slice(&a.digits) / BigUint::from_slice(&b.digits)).to_u32_digits() }
}

/// The greatest common divisor, by `num`'s `Integer::gcd` on `BigUint`
/// (zero with zero gives zero, zero with `b` gives `b`).
#[verifier::external_body]
pub(crate) fn big_gcd(a: &BigNat, b: &BigNat) -> (divisor: BigNat)
    ensures
        divisor@ == gcd(a@, b@),
{
    BigNat { digits: BigUint::from_slice(&a.digits).gcd(&BigUint::from_slice(&b.digits)).to_u32_digits() }
}

/// The remainder of division, by `num`'s `BigUint` remainder, which panics
/// on a zero divisor.
#[verifier::external_body]
pub(crate) fn big_rem(a: &BigNat, b: &BigNat) -> (remainder: BigNat)
    requires
        b@ > 0,
    ensures
        remainder@ == a@ % b@,
{
    BigNat { digits: (BigUint::from_slice(&a.digits) % BigUint::from_slice(&b.digits)).to_u32_digits() }
}

/// Whether `a` is below `b`, by `num`'s `BigUint` ordering.
#[verifier::external_body]
pub(crate) fn big_lt(a: &BigNat, b: &BigNat) -> (below: bool)
    ensures
        below == (a@ < b@),
{
    BigUint::from_slice(&a.digits) < BigUint::from_slice(&b.digits)
}

/// A common divisor exists once either number is positive.
pub proof fn lemma_gcd_positive(a: nat, b: nat)
    requires
        a > 0 || b > 0,
    ensures
        gcd(a, b) > 0,
    decreases b,
{
    if b > 0 {
        lemma_gcd_positive(b, a % b);
    }
}

/// The common divisor is at most the second number, when that is positive.
pub proof fn lemma_gcd_at_most_second(a: nat, b: nat)
    requires
        b > 0,
    ensures
        gcd(a, b) <= b,
    decreases b,
{
    assert(a % b < b) by {
        vstd::arithmetic::div_mod::lemma_mod_bound(a as int, b as int);
    }
    assert(gcd(a, b) == gcd(b, a % b));
    if a % b > 0 {
        lemma_gcd_at_most_second(b, a % b);
    } else {
        assert(gcd(b, 0) == b);
    }
}

/// The common divisor is at most the first number, when that is positive.
pub proof fn lemma_gcd_at_most_first(a: nat, b: nat)
    requires
        a > 0,
    ensures
        gcd(a, b) <= a,
{
    if b > 0 {
        if a >= b {
            lemma_gcd_at_most_second(a, b);
        } else {
            vstd::arithmetic::div_mod::lemma_small_mod(a, b);
            assert(gcd(a, b) == gcd(b, a));
            lemma_gcd_at_most_second(b, a);
        }
    }
}

/// The product `g * k`.
pub open spec fn times(g: nat, k: nat) -> nat {
    g * k
}

/// `g` divides `x`.
pub open spec fn divides(g: nat, x: nat) -> bool {
    exists|k: nat| x == #[trigger] times(g, k)
}

/// The greatest common divisor divides both numbers.
pub proof fn lemma_gcd_divides(a: nat, b: nat)
    ensures
        divides(gcd(a, b), a),
        divides(gcd(a, b), b),
    decreases b,
{
    if b == 0 {
        assert(a == times(a, 1));
        assert(0 == times(a, 0));
    } else {
        assert(a % b < b) by {
            vstd::arithmetic::div_mod::lemma_mod_bound(a as int, b as int);
        }
        lemma_gcd_divides(b, a % b);
        let g = gcd(b, a % b);
        let k1 = choose|k: nat| b == times(g, k);
        let k2 = choose|k: nat| a % b == times(g, k);
        let q = a / b;
        vstd::arithmetic::div_mod::lemma_fundamental_div_mod(a as int, b as int);
        assert(a == g * (k1 * q + k2)) by (nonlinear_arith)
            requires
                a == b * q + a % b,
                b == g * k1,
                a % b == g * k2,
        ;
        assert(a == times(g, k1 * q + k2));
    }
}

/// Divisibility is transitive.
pub proof fn lemma_divides_transitive(a: nat, b: nat, c: nat)
    requires
        divides(a, b),
        divides(b, c),
    ensures
        divides(a, c),
{
    let k1 = choose|k: nat| b == times(a, k);
    let k2 = choose|k: nat| c == times(b, k);
    assert(c == a * (k1 * k2)) by (nonlinear_arith)
        requires
            b == a * k1,
            c == b * k2,
    ;
    assert(c == times(a, k1 * k2));
}

/// A positive multiple is at least the divisor.
pub proof fn lemma_divides_at_least(d: nat, x: nat)
    requires
        divides(d, x),
        x > 0,
    ensures
        x >= d,
{
    let k = choose|k: nat| x == times(d, k);
    assert(x >= d) by (nonlinear_arith)
        requires
            x == d * k,
            x > 0,
    ;
}

/// One step of the least common multiple keeps the earlier multiple and
/// adds the new divisor.
pub proof fn lemma_lcm_step(l: nat, d: nat)
    requires
        l > 0,
        d > 0,
    ensures
        divides(l, (l / gcd(l, d)) * d),
        divides(d, (l / gcd(l, d)) * d),
        (l / gcd(l, d)) * d > 0,
{
    let g = gcd(l, d);
    lemma_gcd_divides(l, d);
    lemma_gcd_positive(l, d);
    let k1 = choose|k: nat| l == times(g, k);
    let k2 = choose|k: nat| d == times(g, k);
    assert(l / g == k1) by {
        vstd::arithmetic::div_mod::lemma_div_multiples_vanish(k1 as int, g as int);
        assert(g * k1 == k1 * g) by (nonlinear_arith);
    }
    assert((l / g) * d == l * k2) by (nonlinear_arith)
        requires
            l / g == k1,
            l == g * k1,
            d == g * k2,
    ;
    assert((l / g) * d == d * (l / g)) by (nonlinear_arith);
    assert((l / g) * d == times(l, k2));
    assert((l / g) * d == times(d, l / g));
    assert(k1 > 0) by (nonlinear_arith)
        requires
            l == g * k1,
            l > 0,
    ;
    assert((l / g) * d > 0) by (nonlinear_arith)
        requires
            l / g == k1,
            k1 > 0,
            d > 0,
    ;
}

} // verus!
