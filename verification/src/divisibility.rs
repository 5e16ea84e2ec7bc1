//! Divisibility and greatest common divisors of natural numbers.

use vstd::arithmetic::div_mod::{
    lemma_fundamental_div_mod, lemma_mod_multiples_vanish, lemma_small_mod,
};
use vstd::prelude::*;

verus! {

/// `d` divides `n`. Zero divides only zero.
pub open spec fn divides(d: nat, n: nat) -> bool {
    if d == 0 {
        n == 0
    } else {
        n % d == 0
    }
}

/// `g` is the greatest common divisor of `a` and `b`: it divides both, and
/// every number that divides both divides `g`.
pub open spec fn is_gcd(g: nat, a: nat, b: nat) -> bool {
    &&& divides(g, a)
    &&& divides(g, b)
    &&& forall|d: nat| divides(d, a) && divides(d, b) ==> #[trigger] divides(d, g)
}

/// The greatest common divisor, by Euclid's recurrence. `gcd(a, 0)` is `a`.
pub open spec fn gcd(a: nat, b: nat) -> nat
    decreases b,
{
    if b == 0 {
        a
    } else {
        gcd(b, a % b)
    }
}

/// A positive multiple of `d` is at least `d`.
pub proof fn lemma_divisor_at_most(d: nat, n: nat)
    requires
        divides(d, n),
        n > 0,
    ensures
        1 <= d <= n,
{
    if d > n {
        lemma_small_mod(n, d);
    }
}

/// Every multiple of `d` is divisible by `d`.
pub proof fn lemma_multiple_divides(d: nat, k: nat)
    ensures
        divides(d, k * d),
{
    if d > 0 {
        lemma_mod_multiples_vanish(k as int, 0, d as int);
        assert(d * k + 0 == k * d) by (nonlinear_arith);
        assert(0int % (d as int) == 0) by {
            lemma_small_mod(0, d);
        }
    } else {
        assert(k * d == 0) by (nonlinear_arith)
            requires
                d == 0,
        ;
    }
}

/// A number that `d` divides is `d` times its quotient by `d`.
pub proof fn lemma_divides_quotient(d: nat, n: nat)
    requires
        d > 0,
        divides(d, n),
    ensures
        n == d * (n / d),
{
    lemma_fundamental_div_mod(n as int, d as int);
}

/// Divisibility is transitive.
pub proof fn lemma_divides_transitive(a: nat, b: nat, c: nat)
    requires
        divides(a, b),
        divides(b, c),
    ensures
        divides(a, c),
{
    if a > 0 && b > 0 {
        lemma_divides_quotient(a, b);
        lemma_divides_quotient(b, c);
        let k: nat = (b / a) * (c / b);
        assert(c == k * a) by (nonlinear_arith)
            requires
                c == b * (c / b),
                b == a * (b / a),
                k == (b / a) * (c / b),
        ;
        lemma_multiple_divides(a, k);
    }
}

/// Two numbers that divide each other are equal.
pub proof fn lemma_divides_antisymmetric(a: nat, b: nat)
    requires
        divides(a, b),
        divides(b, a),
    ensures
        a == b,
{
    if a > 0 && b > 0 {
        lemma_divisor_at_most(a, b);
        lemma_divisor_at_most(b, a);
    }
}

/// For a divisor `d` of `b`, dividing `a` and dividing the remainder of `a`
/// by `b` are the same thing.
pub proof fn lemma_divides_remainder(d: nat, a: nat, b: nat)
    requires
        b > 0,
        divides(d, b),
    ensures
        divides(d, a) <==> divides(d, a % b),
{
    lemma_divides_quotient(d, b);
    lemma_fundamental_div_mod(a as int, b as int);
    let q: int = (a / b) as int;
    let e: int = (b / d) as int;
    let r: int = (a % b) as int;
    let k: int = e * q;
    assert(a == d * k + r) by (nonlinear_arith)
        requires
            a == b * q + r,
            b == d * e,
            k == e * q,
    ;
    lemma_mod_multiples_vanish(k, r, d as int);
}

/// The greatest common divisor of two numbers is unique.
pub proof fn lemma_gcd_unique(g: nat, h: nat, a: nat, b: nat)
    requires
        is_gcd(g, a, b),
        is_gcd(h, a, b),
    ensures
        g == h,
{
    assert(divides(g, h));
    assert(divides(h, g));
    lemma_divides_antisymmetric(g, h);
}

/// Euclid's recurrence computes the greatest common divisor.
pub proof fn lemma_gcd_is_gcd(a: nat, b: nat)
    ensures
        is_gcd(gcd(a, b), a, b),
    decreases b,
{
    if b == 0 {
        assert(divides(a, a)) by {
            if a > 0 {
                lemma_multiple_divides(a, 1);
            }
        }
        assert(divides(a, 0)) by {
            lemma_multiple_divides(a, 0);
        }
    } else {
        let g = gcd(b, a % b);
        lemma_gcd_is_gcd(b, a % b);
        lemma_divides_remainder(g, a, b);
        assert forall|d: nat| divides(d, a) && divides(d, b) implies #[trigger] divides(d, g) by {
            lemma_divides_remainder(d, a, b);
        }
    }
}

/// The greatest common divisor of `k` and one of its multiples is `k`.
pub proof fn lemma_gcd_of_divisor(k: nat, n: nat)
    requires
        divides(k, n),
    ensures
        gcd(k, n) == k,
{
    assert(divides(k, k)) by {
        if k > 0 {
            lemma_multiple_divides(k, 1);
        }
    }
    lemma_gcd_is_gcd(k, n);
    lemma_gcd_unique(gcd(k, n), k, k, n);
}

/// Exchanging the arguments does not change the greatest common divisor.
pub proof fn lemma_gcd_symmetric(a: nat, b: nat)
    ensures
        gcd(a, b) == gcd(b, a),
{
    lemma_gcd_is_gcd(a, b);
    lemma_gcd_is_gcd(b, a);
    lemma_gcd_unique(gcd(a, b), gcd(b, a), a, b);
}

} // verus!
