//! Arithmetic on ciphertexts: addition, and one multiplication with
//! rescaling and relinearisation.

use crate::cipher::{Ciphertext, Encrypted, Stage};
use crate::error::EngineError;
use crate::keys::EvaluationKey;
use crate::params::{
    check_product_fits,
    product_noise_bound,
    ParameterSet,
    Parameters,
    RELIN_BASE,
};
use crate::poly::{
    negacyclic_product,
    pointwise_sum,
    ring_add,
    ring_mul,
    round_div,
    scaled_coefficient,
    wrap_sum,
    Polynomial,
};
use vstd::arithmetic::div_mod::*;
use vstd::arithmetic::power::*;
use vstd::prelude::*;

verus! {

/// Why two ciphertexts cannot be added, if they cannot: different rings,
/// then different moduli or levels, then a sum whose noise bound would no
/// longer decrypt.
pub open spec fn sum_failure(a: Encrypted, ap: Parameters, b: Encrypted, bp: Parameters) -> Option<
    EngineError,
> {
    if ap.dimension != bp.dimension {
        Some(EngineError::DimensionMismatch)
    } else if ap.modulus != bp.modulus || ap.plain_modulus != bp.plain_modulus || a.stage.level()
        != b.stage.level() {
        Some(EngineError::LevelMismatch)
    } else if !ap.decryptable(ap.sum_noise(a.noise_bound, b.noise_bound)) {
        Some(EngineError::NoiseOverflow)
    } else {
        None
    }
}

/// The stage of a sum of ciphertexts at the stage `s`.
pub open spec fn stage_of_sum(s: Stage) -> Stage {
    if s.level() == 0 {
        Stage::Rescaled
    } else {
        Stage::Added
    }
}

/// The sum of two ciphertexts of the ring of `p`: the components add, and so
/// do the noise bounds, with one wrap of the plaintext on top.
pub open spec fn sum_of(a: Encrypted, b: Encrypted, p: Parameters) -> Encrypted {
    Encrypted {
        c0: ring_add(a.c0, b.c0, p.modulus),
        c1: ring_add(a.c1, b.c1, p.modulus),
        noise_bound: p.sum_noise(a.noise_bound, b.noise_bound),
        stage: stage_of_sum(a.stage),
    }
}

/// Whether the two stages are at one level.
fn same_level(a: Stage, b: Stage) -> (r: bool)
    ensures
        r == (a.level() == b.level()),
{
    let first: bool = match a {
        Stage::Rescaled => true,
        _ => false,
    };
    let second: bool = match b {
        Stage::Rescaled => true,
        _ => false,
    };
    first == second
}

/// The sum of two ciphertexts: a ciphertext of the sum of their plaintexts.
pub fn add(a: &Ciphertext, b: &Ciphertext) -> (r: Result<Ciphertext, EngineError>)
    requires
        a.wf(),
        b.wf(),
    ensures
        match r {
            Ok(ct) => {
                &&& sum_failure(a@, a.parameters(), b@, b.parameters()) is None
                &&& ct.wf()
                &&& ct.parameters() == a.parameters()
                &&& ct@ == sum_of(a@, b@, a.parameters())
            },
            Err(e) => sum_failure(a@, a.parameters(), b@, b.parameters()) == Some(e),
        },
{
    let params: ParameterSet = a.params;
    if params.dimension() != b.params.dimension() {
        return Err(EngineError::DimensionMismatch);
    }
    if params.modulus() != b.params.modulus() || params.plain_modulus() != b.params.plain_modulus()
        || !same_level(a.stage, b.stage) {
        return Err(EngineError::LevelMismatch);
    }
    let rho: u64 = params.modulus() % params.plain_modulus();
    let bound: u128 = a.noise_bound as u128 + b.noise_bound as u128 + rho as u128;
    if !params.is_decryptable(bound) {
        return Err(EngineError::NoiseOverflow);
    }
    let c0 = a.c0.add(&b.c0)?;
    let c1 = a.c1.add(&b.c1)?;
    let stage: Stage = match a.stage {
        Stage::Rescaled => Stage::Rescaled,
        _ => Stage::Added,
    };
    Ok(Ciphertext { params, c0, c1, noise_bound: bound as u64, stage })
}

/// The representative of the residue `x` nearest to zero, in `(-q/2, q/2]`.
pub open spec fn centered(x: int, q: int) -> int {
    if 2 * x > q {
        x - q
    } else {
        x
    }
}

/// Each coefficient replaced by its representative nearest to zero.
pub open spec fn centered_poly(c: Seq<int>, q: int) -> Seq<int> {
    Seq::new(c.len(), |i: int| centered(c[i], q))
}

/// Wide machine integers read as integers.
pub open spec fn wide_ints(v: Seq<i128>) -> Seq<int> {
    Seq::new(v.len(), |i: int| v[i] as int)
}

/// The magnitude of `x`.
pub open spec fn magnitude(x: int) -> int {
    if x < 0 {
        -x
    } else {
        x
    }
}

/// The centred coefficients of a polynomial, as wide integers.
fn center(p: &Polynomial) -> (out: Vec<i128>)
    requires
        p.wf(),
    ensures
        out.len() == p@.dimension(),
        wide_ints(out@) == centered_poly(p@.coeffs, p@.modulus),
        forall|i: int| 0 <= i < out.len() ==> 2 * magnitude(#[trigger] out[i] as int) <= p@.modulus,
{
    let n: usize = p.len();
    let q: u64 = p.modulus();
    let mut out: Vec<i128> = Vec::new();
    let mut i: usize = 0;
    while i < n
        invariant
            p.wf(),
            n == p@.dimension(),
            q == p@.modulus,
            i <= n,
            out.len() == i,
            forall|j: int| 0 <= j < i ==> #[trigger] out[j] as int == centered(p@.coeffs[j], q as int),
            forall|j: int| 0 <= j < i ==> 2 * magnitude(#[trigger] out[j] as int) <= q,
        decreases n - i,
    {
        let x: u64 = p.coeff(i);
        if 2 * (x as u128) > q as u128 {
            out.push(x as i128 - q as i128);
        } else {
            out.push(x as i128);
        }
        i += 1;
    }
    assert(wide_ints(out@) =~= centered_poly(p@.coeffs, p@.modulus));
    out
}

/// A partial sum of `m` products of numbers within `q/2` stays within
/// `m * q^2 / 4`.
proof fn lemma_wrap_sum_bound(a: Seq<int>, b: Seq<int>, k: int, m: int, q: int)
    requires
        a.len() == b.len(),
        0 <= k < a.len(),
        0 <= m <= a.len(),
        q >= 0,
        forall|i: int| 0 <= i < a.len() ==> 2 * magnitude(#[trigger] a[i]) <= q,
        forall|i: int| 0 <= i < b.len() ==> 2 * magnitude(#[trigger] b[i]) <= q,
    ensures
        4 * magnitude(wrap_sum(a, b, k, m)) <= m * (q * q),
    decreases m,
{
    if m > 0 {
        let i: int = m - 1;
        lemma_wrap_sum_bound(a, b, k, i, q);
        let x: int = a[i];
        let y: int = if i <= k {
            b[k - i]
        } else {
            b[k - i + a.len()]
        };
        assert(2 * magnitude(y) <= q);
        assert(4 * magnitude(x * y) <= q * q) by (nonlinear_arith)
            requires
                2 * magnitude(x) <= q,
                2 * magnitude(y) <= q,
        ;
        assert(m * (q * q) == i * (q * q) + q * q) by (nonlinear_arith)
            requires
                m == i + 1,
        ;
    } else {
        assert(0 * (q * q) == 0);
    }
}

/// The product of two centred polynomials in `Z[x]/(x^n + 1)`, with exact
/// integer coefficients.
fn wide_product(a: &Vec<i128>, b: &Vec<i128>, q: u64) -> (out: Vec<i128>)
    requires
        a.len() == b.len(),
        a.len() * (q * q) <= 0x4000_0000_0000_0000_0000_0000_0000_0000,
        forall|i: int| 0 <= i < a.len() ==> 2 * magnitude(#[trigger] a[i] as int) <= q,
        forall|i: int| 0 <= i < b.len() ==> 2 * magnitude(#[trigger] b[i] as int) <= q,
    ensures
        out.len() == a.len(),
        wide_ints(out@) == negacyclic_product(wide_ints(a@), wide_ints(b@)),
        forall|k: int|
            0 <= k < out.len() ==> 4 * magnitude(#[trigger] out[k] as int) <= a.len() * (q * q),
{
    let n: usize = a.len();
    let ghost ai: Seq<int> = wide_ints(a@);
    let ghost bi: Seq<int> = wide_ints(b@);
    let ghost square: int = q * q;
    let mut out: Vec<i128> = Vec::new();
    let mut k: usize = 0;
    while k < n
        invariant
            n == a.len(),
            n == b.len(),
            ai == wide_ints(a@),
            bi == wide_ints(b@),
            square == q * q,
            n * square <= 0x4000_0000_0000_0000_0000_0000_0000_0000,
            forall|i: int| 0 <= i < n ==> 2 * magnitude(#[trigger] ai[i]) <= q,
            forall|i: int| 0 <= i < n ==> 2 * magnitude(#[trigger] bi[i]) <= q,
            k <= n,
            out.len() == k,
            forall|j: int| 0 <= j < k ==> #[trigger] out[j] as int == wrap_sum(ai, bi, j, n as int),
            forall|j: int| 0 <= j < k ==> 4 * magnitude(#[trigger] out[j] as int) <= n * square,
        decreases n - k,
    {
        let mut acc: i128 = 0;
        let mut i: usize = 0;
        while i < n
            invariant
                n == a.len(),
                n == b.len(),
                ai == wide_ints(a@),
                bi == wide_ints(b@),
                square == q * q,
                n * square <= 0x4000_0000_0000_0000_0000_0000_0000_0000,
                forall|i: int| 0 <= i < n ==> 2 * magnitude(#[trigger] ai[i]) <= q,
                forall|i: int| 0 <= i < n ==> 2 * magnitude(#[trigger] bi[i]) <= q,
                k < n,
                i <= n,
                acc as int == wrap_sum(ai, bi, k as int, i as int),
            decreases n - i,
        {
            let x: i128 = a[i];
            let y: i128 = if i <= k {
                b[k - i]
            } else {
                b[n - (i - k)]
            };
            proof {
                lemma_wrap_sum_bound(ai, bi, k as int, i as int, q as int);
                lemma_wrap_sum_bound(ai, bi, k as int, i as int + 1, q as int);
                assert(x as int == ai[i as int]);
                assert(2 * magnitude(x as int) <= q);
                assert(2 * magnitude(y as int) <= q) by {
                    if i <= k {
                        assert(y as int == bi[k - i]);
                    } else {
                        assert(y as int == bi[k - i + n]);
                    }
                }
                assert(4 * magnitude(x * y) <= square) by (nonlinear_arith)
                    requires
                        2 * magnitude(x as int) <= q,
                        2 * magnitude(y as int) <= q,
                        square == q * q,
                ;
                assert(i * square <= n * square && (i + 1) * square <= n * square
                    && square <= n * square) by (nonlinear_arith)
                    requires
                        0 <= i < n,
                        square >= 0,
                ;
            }
            let product: i128 = x * y;
            if i <= k {
                acc = acc + product;
            } else {
                acc = acc - product;
            }
            i += 1;
        }
        proof {
            lemma_wrap_sum_bound(ai, bi, k as int, n as int, q as int);
        }
        out.push(acc);
        k += 1;
    }
    assert(wide_ints(out@) =~= negacyclic_product(ai, bi));
    out
}

/// Each integer coefficient multiplied by `t / q`, rounded to the nearest
/// integer and reduced modulo `q`.
pub open spec fn rescaled(e: Seq<int>, p: Parameters) -> Seq<int> {
    Seq::new(e.len(), |i: int| round_div(p.plain_modulus * e[i], p.modulus) % p.modulus)
}

/// Adding `m` times the divisor adds `m` to the rounded quotient.
proof fn lemma_round_div_shift(x: int, m: int, d: int)
    requires
        d > 0,
    ensures
        round_div(x + m * d, d) == round_div(x, d) + m,
{
    lemma_hoist_over_denominator(x, m, d as nat);
    lemma_mod_multiples_vanish(m, x, d);
    assert(d * m + x == x + m * d) by (nonlinear_arith);
}

/// `t * e / q`, rounded and reduced modulo `q`, for one wide coefficient of
/// a tensor product in dimension `n`.
fn rescale_coefficient(e: i128, n: usize, t: u64, q: u64) -> (r: u64)
    requires
        q > 0,
        n * (q * q) <= 0x4000_0000_0000_0000_0000_0000_0000_0000,
        2 * magnitude(e as int) <= n * (q * q),
    ensures
        r == round_div(t * e, q as int) % (q as int),
        r < q,
{
    assert(q * q <= n * (q * q) || n == 0) by (nonlinear_arith)
        requires
            n >= 0,
            q >= 0,
    ;
    assert(n == 0 ==> n * (q * q) == 0) by (nonlinear_arith);
    if n == 0 {
        proof {
            assert(e == 0);
            assert(t * 0 == 0);
            lemma_small_mod(0, q as nat);
        }
        return 0;
    }
    assert(q * q <= 0xffff_ffff_ffff_ffff * 0xffff_ffff_ffff_ffff) by (nonlinear_arith)
        requires
            q <= 0xffff_ffff_ffff_ffff,
    ;
    let square: u128 = q as u128 * q as u128;
    assert(square * n == n * (q * q)) by (nonlinear_arith)
        requires
            square == q * q,
    ;
    let offset: u128 = square * (n as u128);
    let shifted: u128 = (e + offset as i128) as u128;
    let k: u128 = shifted / (q as u128);
    let low: u64 = (shifted % (q as u128)) as u64;
    let km: u64 = (k % (q as u128)) as u64;
    let first: u64 = crate::modular::mul(t, km, q);
    let second: u64 = scaled_coefficient(low, t, q, q);
    proof {
        let qi: int = q as int;
        let ti: int = t as int;
        let ei: int = e as int;
        let ki: int = k as int;
        let li: int = low as int;
        let ni: int = n as int;
        let whole: int = ti * (ei + ni * (qi * qi));
        lemma_fundamental_div_mod(shifted as int, qi);
        assert(whole == ti * li + (ti * ki) * qi) by (nonlinear_arith)
            requires
                whole == ti * (ei + ni * (qi * qi)),
                ei + ni * (qi * qi) == qi * ki + li,
        ;
        assert(whole == ti * ei + (ti * ni * qi) * qi) by (nonlinear_arith)
            requires
                whole == ti * (ei + ni * (qi * qi)),
        ;
        lemma_round_div_shift(ti * li, ti * ki, qi);
        lemma_round_div_shift(ti * ei, ti * ni * qi, qi);
        let rounded: int = round_div(ti * li, qi);
        assert(round_div(ti * ei, qi) == rounded + ti * ki - (ti * ni * qi));
        assert(ti * ni * qi == qi * (ti * ni)) by (nonlinear_arith);
        lemma_mod_multiples_vanish(-(ti * ni), rounded + ti * ki, qi);
        assert(qi * (-(ti * ni)) == -(qi * (ti * ni))) by (nonlinear_arith);
        assert(round_div(ti * ei, qi) % qi == (rounded + ti * ki) % qi);
        lemma_add_mod_noop(ti * ki, rounded, qi);
        lemma_mul_mod_noop_right(ti, ki, qi);
        assert(li * ti == ti * li) by (nonlinear_arith);
    }
    crate::modular::add(first, second, q)
}

/// The rescaled polynomial of a vector of wide coefficients.
fn rescale_vector(e: &Vec<i128>, t: u64, q: u64) -> (p: Polynomial)
    requires
        q > 0,
        e.len() * (q * q) <= 0x4000_0000_0000_0000_0000_0000_0000_0000,
        forall|i: int|
            0 <= i < e.len() ==> 2 * magnitude(#[trigger] e[i] as int) <= e.len() * (q * q),
    ensures
        p.wf(),
        p@.modulus == q,
        p@.dimension() == e.len(),
        forall|i: int|
            0 <= i < e.len() ==> #[trigger] p@.coeffs[i] == round_div(t * e[i], q as int) % (
            q as int),
{
    let n: usize = e.len();
    let mut out: Vec<u64> = Vec::new();
    let mut i: usize = 0;
    while i < n
        invariant
            q > 0,
            n == e.len(),
            n * (q * q) <= 0x4000_0000_0000_0000_0000_0000_0000_0000,
            forall|j: int| 0 <= j < n ==> 2 * magnitude(#[trigger] e[j] as int) <= n * (q * q),
            i <= n,
            out.len() == i,
            forall|j: int|
                0 <= j < i ==> #[trigger] out[j] == round_div(t * e[j], q as int) % (q as int),
        decreases n - i,
    {
        out.push(rescale_coefficient(e[i], n, t, q));
        i += 1;
    }
    let p = Polynomial::from_coefficients(out, q);
    proof {
        assert forall|j: int| 0 <= j < n implies #[trigger] p@.coeffs[j] == round_div(
            t * e[j],
            q as int,
        ) % (q as int) by {
            lemma_mod_twice(round_div(t * e[j], q as int), q as int);
        }
    }
    p
}

/// Digit `j` of each coefficient in base 256, as a ring element.
pub open spec fn digit_poly(c: Seq<int>, j: nat, q: int) -> Seq<int> {
    Seq::new(c.len(), |i: int| ((c[i] / pow(256, j)) % 256) % q)
}

/// The sum over the first `m` digits of the digit of `c2` times the key part
/// of that digit: its first polynomial, or its second where `second` holds.
pub open spec fn relin_sum(
    c2: Seq<int>,
    ek: Seq<(Seq<int>, Seq<int>)>,
    second: bool,
    q: int,
    m: nat,
) -> Seq<int>
    decreases m,
{
    if m == 0 {
        Seq::new(c2.len(), |i: int| 0int)
    } else {
        let j = (m - 1) as nat;
        let key = if second {
            ek[j as int].1
        } else {
            ek[j as int].0
        };
        ring_add(relin_sum(c2, ek, second, q, j), ring_mul(key, digit_poly(c2, j, q), q), q)
    }
}

/// The two-term ciphertext that stands for the three terms `(c0, c1, c2)`:
/// the key turns each digit of `c2` into a share of `c0` and of `c1`.
pub open spec fn relinearised(
    c0: Seq<int>,
    c1: Seq<int>,
    c2: Seq<int>,
    ek: Seq<(Seq<int>, Seq<int>)>,
    q: int,
) -> (Seq<int>, Seq<int>) {
    (
        ring_add(c0, relin_sum(c2, ek, false, q, ek.len()), q),
        ring_add(c1, relin_sum(c2, ek, true, q, ek.len()), q),
    )
}

/// Collapses the three terms of a rescaled product into two.
fn relinearize(c0: &Polynomial, c1: &Polynomial, c2: &Polynomial, ek: &EvaluationKey) -> (r: Result<
    (Polynomial, Polynomial),
    EngineError,
>)
    requires
        ek.wf(),
        c0.wf(),
        c1.wf(),
        c2.wf(),
        c0@.modulus == ek.parameters().modulus,
        c1@.modulus == ek.parameters().modulus,
        c2@.modulus == ek.parameters().modulus,
        c0@.dimension() == ek.parameters().dimension,
        c1@.dimension() == ek.parameters().dimension,
        c2@.dimension() == ek.parameters().dimension,
    ensures
        r matches Ok((d0, d1)) && d0.wf() && d1.wf() && d0@.modulus == c0@.modulus && d1@.modulus
            == c0@.modulus && d0@.dimension() == c0@.dimension() && d1@.dimension()
            == c0@.dimension() && (d0@.coeffs, d1@.coeffs) == relinearised(
            c0@.coeffs,
            c1@.coeffs,
            c2@.coeffs,
            ek@,
            c0@.modulus,
        ),
{
    let n: usize = c2.len();
    let q: u64 = c2.modulus();
    let count: usize = ek.parts.len();
    let ghost source: Seq<int> = c2@.coeffs;
    let ghost keys: Seq<(Seq<int>, Seq<int>)> = ek@;
    let mut rest: Vec<u64> = c2.coefficients();
    let mut acc0 = Polynomial::zero(n, q);
    let mut acc1 = Polynomial::zero(n, q);
    let mut j: usize = 0;
    proof {
        lemma_pow0(256);
        assert(acc0@.coeffs =~= relin_sum(source, keys, false, q as int, 0));
        assert(acc1@.coeffs =~= relin_sum(source, keys, true, q as int, 0));
    }
    while j < count
        invariant
            ek.wf(),
            keys == ek@,
            count == ek.parts.len(),
            source == c2@.coeffs,
            source.len() == n,
            n == ek.parameters().dimension,
            q == ek.parameters().modulus,
            q > 0,
            j <= count,
            rest.len() == n,
            forall|i: int| 0 <= i < n ==> #[trigger] rest[i] as int == source[i] / pow(256, j as nat),
            forall|i: int| 0 <= i < n ==> 0 <= #[trigger] source[i],
            acc0.wf(),
            acc1.wf(),
            acc0@.modulus == q,
            acc1@.modulus == q,
            acc0@.dimension() == n,
            acc1@.dimension() == n,
            acc0@.coeffs == relin_sum(source, keys, false, q as int, j as nat),
            acc1@.coeffs == relin_sum(source, keys, true, q as int, j as nat),
        decreases count - j,
    {
        let mut digits: Vec<u64> = Vec::new();
        let mut next: Vec<u64> = Vec::new();
        let mut i: usize = 0;
        while i < n
            invariant
                i <= n,
                rest.len() == n,
                digits.len() == i,
                next.len() == i,
                forall|m: int| 0 <= m < i ==> #[trigger] digits[m] == rest[m] % 256,
                forall|m: int| 0 <= m < i ==> #[trigger] next[m] == rest[m] / 256,
            decreases n - i,
        {
            digits.push(rest[i] % RELIN_BASE);
            next.push(rest[i] / RELIN_BASE);
            i += 1;
        }
        let dj = Polynomial::from_coefficients(digits, q);
        proof {
            lemma_pow_positive(256, j as nat);
            reveal(pow);
            assert(pow(256, (j + 1) as nat) == 256 * pow(256, j as nat));
            assert(pow(256, j as nat) * 256 == 256 * pow(256, j as nat)) by (nonlinear_arith);
            assert(dj@.coeffs =~= digit_poly(source, j as nat, q as int));
            assert forall|m: int| 0 <= m < n implies #[trigger] next[m] as int == source[m] / pow(
                256,
                (j + 1) as nat,
            ) by {
                lemma_div_denominator(source[m], pow(256, j as nat), 256);
            }
        }
        let part = &ek.parts[j];
        assert(part.wf(ek.parameters()));
        assert(keys[j as int] == (part.k0@.coeffs, part.k1@.coeffs));
        acc0 = acc0.add(&part.k0.mul(&dj)?)?;
        acc1 = acc1.add(&part.k1.mul(&dj)?)?;
        rest = next;
        j += 1;
    }
    let d0 = c0.add(&acc0)?;
    let d1 = c1.add(&acc1)?;
    assert(keys.len() == count);
    Ok((d0, d1))
}

/// Why two ciphertexts cannot be multiplied with an evaluation key of
/// parameters `p`, if they cannot: different rings, then different moduli or
/// levels, then no level left, products too wide for the machine, or a noise
/// bound that would no longer decrypt.
pub open spec fn product_failure(
    a: Encrypted,
    ap: Parameters,
    b: Encrypted,
    bp: Parameters,
    p: Parameters,
) -> Option<EngineError> {
    if ap.dimension != bp.dimension || ap.dimension != p.dimension {
        Some(EngineError::DimensionMismatch)
    } else if ap.modulus != bp.modulus || ap.modulus != p.modulus || ap.plain_modulus
        != bp.plain_modulus || ap.plain_modulus != p.plain_modulus || a.stage.level()
        != b.stage.level() {
        Some(EngineError::LevelMismatch)
    } else if a.stage.level() == 0 || !p.product_fits() || !p.decryptable(
        p.product_noise(a.noise_bound, b.noise_bound),
    ) {
        Some(EngineError::NoiseOverflow)
    } else {
        None
    }
}

/// The three terms of the product of two ciphertexts, scaled by `t / q`:
/// with centred components `(c0, c1)` and `(d0, d1)`, the rescaled
/// `c0 * d0`, `c0 * d1 + c1 * d0` and `c1 * d1`, each product taken over the
/// integers.
pub open spec fn scaled_tensor(a: Encrypted, b: Encrypted, p: Parameters) -> (
    Seq<int>,
    Seq<int>,
    Seq<int>,
) {
    let q = p.modulus;
    let c0 = centered_poly(a.c0, q);
    let c1 = centered_poly(a.c1, q);
    let d0 = centered_poly(b.c0, q);
    let d1 = centered_poly(b.c1, q);
    (
        rescaled(negacyclic_product(c0, d0), p),
        rescaled(pointwise_sum(negacyclic_product(c0, d1), negacyclic_product(c1, d0)), p),
        rescaled(negacyclic_product(c1, d1), p),
    )
}

/// The product of two ciphertexts under the evaluation key `ek`: the scaled
/// tensor product, relinearised, with the noise bound of a product.
pub open spec fn product_of(
    a: Encrypted,
    b: Encrypted,
    ek: Seq<(Seq<int>, Seq<int>)>,
    p: Parameters,
) -> Encrypted {
    let terms = scaled_tensor(a, b, p);
    let two = relinearised(terms.0, terms.1, terms.2, ek, p.modulus);
    Encrypted {
        c0: two.0,
        c1: two.1,
        noise_bound: p.product_noise(a.noise_bound, b.noise_bound),
        stage: Stage::Rescaled,
    }
}

/// The product of two ciphertexts that were never multiplied: a ciphertext
/// of the product of their plaintexts. The three-term tensor product is
/// scaled by `t / q` and collapsed to two terms with the evaluation key.
pub fn mul(a: &Ciphertext, b: &Ciphertext, ek: &EvaluationKey) -> (r: Result<
    Ciphertext,
    EngineError,
>)
    requires
        a.wf(),
        b.wf(),
        ek.wf(),
    ensures
        match r {
            Ok(ct) => {
                &&& product_failure(a@, a.parameters(), b@, b.parameters(), ek.parameters())
                    is None
                &&& ct.wf()
                &&& ct.parameters() == ek.parameters()
                &&& ct@ == product_of(a@, b@, ek@, ek.parameters())
            },
            Err(e) => product_failure(a@, a.parameters(), b@, b.parameters(), ek.parameters())
                == Some(e),
        },
{
    let params: ParameterSet = ek.params;
    let n: usize = params.dimension();
    let q: u64 = params.modulus();
    let t: u64 = params.plain_modulus();
    if a.params.dimension() != b.params.dimension() || a.params.dimension() != n {
        return Err(EngineError::DimensionMismatch);
    }
    if a.params.modulus() != b.params.modulus() || a.params.modulus() != q
        || a.params.plain_modulus() != b.params.plain_modulus() || a.params.plain_modulus() != t
        || !same_level(a.stage, b.stage) {
        return Err(EngineError::LevelMismatch);
    }
    let spent: bool = match a.stage {
        Stage::Rescaled => true,
        _ => false,
    };
    if spent || !check_product_fits(&params) {
        return Err(EngineError::NoiseOverflow);
    }
    let bound: u128 = product_noise_bound(&params, a.noise_bound, b.noise_bound);
    if !params.is_decryptable(bound) {
        return Err(EngineError::NoiseOverflow);
    }
    let c0 = center(&a.c0);
    let c1 = center(&a.c1);
    let d0 = center(&b.c0);
    let d1 = center(&b.c1);
    let e0 = wide_product(&c0, &d0, q);
    let e01 = wide_product(&c0, &d1, q);
    let e10 = wide_product(&c1, &d0, q);
    let e2 = wide_product(&c1, &d1, q);
    let mut e1: Vec<i128> = Vec::new();
    let mut i: usize = 0;
    while i < n
        invariant
            i <= n,
            e01.len() == n,
            e10.len() == n,
            n * (q * q) <= 0x4000_0000_0000_0000_0000_0000_0000_0000,
            forall|k: int| 0 <= k < n ==> 4 * magnitude(#[trigger] e01[k] as int) <= n * (q * q),
            forall|k: int| 0 <= k < n ==> 4 * magnitude(#[trigger] e10[k] as int) <= n * (q * q),
            e1.len() == i,
            forall|k: int| 0 <= k < i ==> #[trigger] e1[k] == e01[k] + e10[k],
        decreases n - i,
    {
        e1.push(e01[i] + e10[i]);
        i += 1;
    }
    let r0 = rescale_vector(&e0, t, q);
    let r1 = rescale_vector(&e1, t, q);
    let r2 = rescale_vector(&e2, t, q);
    proof {
        let terms = scaled_tensor(a@, b@, params@);
        assert(wide_ints(e1@) =~= pointwise_sum(wide_ints(e01@), wide_ints(e10@)));
        assert(r0@.coeffs =~= terms.0);
        assert(r1@.coeffs =~= terms.1);
        assert(r2@.coeffs =~= terms.2);
    }
    let (k0, k1) = relinearize(&r0, &r1, &r2, ek)?;
    Ok(Ciphertext { params, c0: k0, c1: k1, noise_bound: bound as u64, stage: Stage::Rescaled })
}

} // verus!
