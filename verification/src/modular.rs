//! Arithmetic modulo `q` on machine words.
//!
//! Every operation accepts any modulus `q > 0` that fits a `u64`; products are
//! formed in 128 bits, so nothing overflows.

use crate::error::EngineError;
use vstd::arithmetic::div_mod::*;
use vstd::prelude::*;

verus! {

/// `d` divides `x`.
pub open spec fn divides(d: int, x: int) -> bool {
    d != 0 && x % d == 0
}

/// `d` divides both `x` and `y`.
pub open spec fn common_divisor(d: int, x: int, y: int) -> bool {
    divides(d, x) && divides(d, y)
}

/// `a` and `q` have no common divisor besides 1.
pub open spec fn coprime(a: int, q: int) -> bool {
    forall|d: int| d > 0 && #[trigger] common_divisor(d, a, q) ==> d == 1
}

/// `x` is a multiplicative inverse of `a` modulo `q`.
pub open spec fn is_inverse(a: int, x: int, q: int) -> bool {
    0 <= x < q && (a * x) % q == 1int % q
}

/// The sum of `a` and `b` modulo `q`.
pub fn add(a: u64, b: u64, q: u64) -> (r: u64)
    requires
        q > 0,
    ensures
        r == (a + b) % (q as int),
        r < q,
{
    let wide: u128 = a as u128 + b as u128;
    (wide % (q as u128)) as u64
}

/// The difference of `a` and `b` modulo `q`, in `[0, q)`.
pub fn sub(a: u64, b: u64, q: u64) -> (r: u64)
    requires
        q > 0,
    ensures
        r == (a - b) % (q as int),
        r < q,
{
    let x: u64 = a % q;
    let y: u64 = b % q;
    proof {
        lemma_sub_mod_noop(a as int, b as int, q as int);
        lemma_mod_add_multiples_vanish(x - y, q as int);
    }
    let wide: u128 = x as u128 + q as u128 - y as u128;
    (wide % (q as u128)) as u64
}

/// The product of `a` and `b` modulo `q`.
pub fn mul(a: u64, b: u64, q: u64) -> (r: u64)
    requires
        q > 0,
    ensures
        r == (a * b) % (q as int),
        r < q,
{
    assert(a * b <= 0xffff_ffff_ffff_ffff * 0xffff_ffff_ffff_ffff) by (nonlinear_arith)
        requires
            a <= 0xffff_ffff_ffff_ffff,
            b <= 0xffff_ffff_ffff_ffff,
    ;
    let wide: u128 = a as u128 * b as u128;
    (wide % (q as u128)) as u64
}

/// A common divisor of `y` and `x mod y` is one of `x` and `y`, and back.
pub proof fn lemma_divisors_of_remainder(d: int, x: int, y: int)
    requires
        d > 0,
        y > 0,
    ensures
        common_divisor(d, x, y) <==> common_divisor(d, y, x % y),
{
    let k: int = x / y;
    lemma_fundamental_div_mod(x, y);
    assert(x == y * k + x % y);
    if divides(d, y) {
        lemma_mul_mod_noop_left(y, k, d);
        assert((y % d) * k == 0) by (nonlinear_arith)
            requires
                y % d == 0,
        ;
        assert((y * k) % d == 0);
        if divides(d, x) {
            lemma_sub_mod_noop(x, y * k, d);
            assert((x - y * k) % d == 0);
        }
        if divides(d, x % y) {
            lemma_add_mod_noop(y * k, x % y, d);
            assert((y * k + x % y) % d == 0);
        }
    }
}

/// One step of the extended Euclidean algorithm keeps the congruence
/// `s * a = r (mod q)` for the new remainder and its coefficient.
pub proof fn lemma_coefficient_step(a: int, q: int, r0: int, r1: int, s0: int, s1: int, k: int)
    requires
        q > 0,
        (s0 * a) % q == r0 % q,
        (s1 * a) % q == r1 % q,
    ensures
        (((s0 - (k * s1) % q) % q) * a) % q == (r0 - k * r1) % q,
{
    let ks: int = (k * s1) % q;
    let x: int = s0 - ks;
    lemma_mul_mod_noop_left(x, a, q);
    assert(x * a == s0 * a - ks * a) by (nonlinear_arith)
        requires
            x == s0 - ks,
    ;
    lemma_sub_mod_noop(s0 * a, ks * a, q);
    lemma_mul_mod_noop_left(k * s1, a, q);
    assert((k * s1) * a == k * (s1 * a)) by (nonlinear_arith);
    lemma_mul_mod_noop_right(k, s1 * a, q);
    lemma_mul_mod_noop_right(k, r1, q);
    lemma_sub_mod_noop(r0, k * r1, q);
}

/// The inverse of `a` modulo `q`, which exists exactly when the two are coprime.
pub fn inverse(a: u64, q: u64) -> (r: Result<u64, EngineError>)
    requires
        q > 0,
    ensures
        r is Ok <==> coprime(a as int, q as int),
        r matches Ok(x) ==> is_inverse(a as int, x as int, q as int),
        r matches Err(e) ==> e == EngineError::NotInvertible,
{
    let mut r0: u64 = q;
    let mut r1: u64 = a % q;
    let mut s0: u64 = 0;
    let mut s1: u64 = 1 % q;
    proof {
        lemma_mod_self_0(q as int);
        lemma_mod_twice(a as int, q as int);
        if q > 1 {
            lemma_small_mod(1, q as nat);
        }
        assert(0 * a == 0);
        assert forall|d: int| d > 0 implies (#[trigger] common_divisor(d, r0 as int, r1 as int)
            <==> common_divisor(d, a as int, q as int)) by {
            lemma_divisors_of_remainder(d, a as int, q as int);
        }
    }
    while r1 != 0
        invariant
            q > 0,
            r0 > 0,
            s0 < q,
            s1 < q,
            (s0 * a) % (q as int) == r0 % q,
            (s1 * a) % (q as int) == r1 % q,
            forall|d: int|
                d > 0 ==> (#[trigger] common_divisor(d, r0 as int, r1 as int) <==> common_divisor(
                    d,
                    a as int,
                    q as int,
                )),
        decreases r1,
    {
        let k: u64 = r0 / r1;
        let r2: u64 = r0 % r1;
        let ks: u64 = self::mul(k, s1, q);
        let s2: u64 = self::sub(s0, ks, q);
        proof {
            lemma_fundamental_div_mod(r0 as int, r1 as int);
            assert(r1 * k == k * r1) by (nonlinear_arith);
            assert(r2 == r0 - k * r1);
            lemma_coefficient_step(a as int, q as int, r0 as int, r1 as int, s0 as int, s1 as int, k as int);
            assert forall|d: int| d > 0 implies (#[trigger] common_divisor(d, r1 as int, r2 as int)
                <==> common_divisor(d, a as int, q as int)) by {
                lemma_divisors_of_remainder(d, r0 as int, r1 as int);
                assert(common_divisor(d, r0 as int, r1 as int) <==> common_divisor(
                    d,
                    a as int,
                    q as int,
                ));
            }
        }
        r0 = r1;
        r1 = r2;
        s0 = s1;
        s1 = s2;
    }
    proof {
        assert(divides(r0 as int, r0 as int)) by {
            lemma_mod_self_0(r0 as int);
        }
        assert(common_divisor(r0 as int, r0 as int, r1 as int));
        assert(common_divisor(r0 as int, a as int, q as int));
    }
    if r0 == 1 {
        proof {
            assert forall|d: int| d > 0 && #[trigger] common_divisor(
                d,
                a as int,
                q as int,
            ) implies d == 1 by {
                assert(common_divisor(d, r0 as int, r1 as int));
                if d > 1 {
                    lemma_small_mod(1, d as nat);
                }
            }
            assert(a * s0 == s0 * a) by (nonlinear_arith);
        }
        Ok(s0)
    } else {
        Err(EngineError::NotInvertible)
    }
}

/// Where the inverse exists, multiplying by it gives 1: for a modulus above 1
/// the product of `a` and an inverse of `a`, reduced as [`mul`] reduces it, is 1.
pub proof fn law_inverse_times_value_is_one(a: int, x: int, q: int)
    requires
        q > 1,
        is_inverse(a, x, q),
    ensures
        (a * x) % q == 1,
{
    lemma_small_mod(1, q as nat);
}

/// A value that shares a divisor with the modulus has no inverse at all: if
/// any `x` multiplies `a` to 1 modulo `q`, then `a` and `q` are coprime.
pub proof fn law_inverse_only_for_coprime(a: int, x: int, q: int)
    requires
        q > 1,
        (a * x) % q == 1,
    ensures
        coprime(a, q),
{
    assert forall|d: int| d > 0 && #[trigger] common_divisor(d, a, q) implies d == 1 by {
        let m: int = (a * x) / q;
        lemma_fundamental_div_mod(a * x, q);
        assert(a * x == q * m + 1);
        lemma_mul_mod_noop_left(a, x, d);
        assert((a % d) * x == 0) by (nonlinear_arith)
            requires
                a % d == 0,
        ;
        lemma_mul_mod_noop_left(q, m, d);
        assert((q % d) * m == 0) by (nonlinear_arith)
            requires
                q % d == 0,
        ;
        lemma_sub_mod_noop(a * x, q * m, d);
        assert(1int % d == 0);
        if d > 1 {
            lemma_small_mod(1, d as nat);
        }
    }
}

/// A value has at most one inverse in `[0, q)`.
pub proof fn law_inverse_is_unique(a: int, x: int, y: int, q: int)
    requires
        q > 0,
        is_inverse(a, x, q),
        is_inverse(a, y, q),
    ensures
        x == y,
{
    // x == x * (a * y) == (x * a) * y == y, all modulo q
    lemma_mul_mod_noop_right(x, a * y, q);
    lemma_mul_mod_noop_right(y, a * x, q);
    assert(x * (a * y) == y * (a * x)) by (nonlinear_arith);
    lemma_mul_mod_noop_right(x, 1, q);
    lemma_mul_mod_noop_right(y, 1, q);
    assert(x * 1 == x && y * 1 == y);
    lemma_small_mod(x as nat, q as nat);
    lemma_small_mod(y as nat, q as nat);
}

} // verus!
