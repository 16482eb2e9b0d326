//! Why the scheme computes on plaintexts: what a ciphertext hides, that
//! decryption recovers it, and that the sum of two ciphertexts hides the sum
//! of their plaintexts.

use crate::cipher::{
    decrypted_coefficient,
    decryption_failure,
    decryption_of,
    encryption_of,
    lifted_message,
    noise_exceeds,
    phase,
    rounding_gap,
    Encrypted,
    Stage,
};
use crate::encoder::encoding;
use crate::evaluator::{centered, magnitude, sum_failure, sum_of};
use crate::keys::{chunk, double_chunk, masked, public_of, secret_of};
use crate::params::{is_power_of_two, Parameters};
use crate::poly::{
    negacyclic_product,
    pointwise_neg,
    pointwise_scale,
    pointwise_sum,
    reduced,
    ring_add,
    ring_mul,
    round_div,
};
use crate::ring_laws::{
    congruent,
    conv,
    law_mul_distributes_over_add,
    lemma_conv_adds,
    lemma_conv_bound,
    lemma_conv_negates,
    lemma_product_is_conv,
    lemma_product_regroups,
    lemma_ring_add_congruent,
    lemma_ring_mul_congruent,
    lemma_ring_neg_congruent,
    lemma_ring_scale_congruent,
};
use crate::sampling::{
    lemma_bit_count_bounds,
    noise_ints,
    noise_poly,
    ternary_ints,
    ternary_poly,
    uniform_poly,
};
use vstd::arithmetic::div_mod::*;
use vstd::prelude::*;

verus! {

/// The signed distance modulo `q` from `target` to `w`, in `(-q/2, q/2]`.
pub open spec fn offset(w: int, target: int, q: int) -> int {
    centered((w - target) % q, q)
}

/// The noise in coefficient `i` of the ciphertext `(c0, c1)` taken as an
/// encryption of `m` under the secret key `s`: the distance of the phase
/// from the lifted plaintext.
pub open spec fn noise_at(
    s: Seq<int>,
    c0: Seq<int>,
    c1: Seq<int>,
    m: Seq<int>,
    p: Parameters,
    i: int,
) -> int {
    offset(phase(s, c0, c1, p.modulus)[i], p.delta() * m[i], p.modulus)
}

/// The ciphertext `(c0, c1)` hides the plaintext `m` under the secret key
/// `s` with noise of magnitude at most `v` in every coefficient.
pub open spec fn hides(
    s: Seq<int>,
    c0: Seq<int>,
    c1: Seq<int>,
    m: Seq<int>,
    v: int,
    p: Parameters,
) -> bool {
    forall|i: int| 0 <= i < p.dimension ==> magnitude(#[trigger] noise_at(s, c0, c1, m, p, i)) <= v
}

/// The four sequences belong to the ring of `p`, and `m` is a plaintext.
pub open spec fn fits(s: Seq<int>, c0: Seq<int>, c1: Seq<int>, m: Seq<int>, p: Parameters) -> bool {
    &&& s.len() == p.dimension
    &&& c0.len() == p.dimension
    &&& c1.len() == p.dimension
    &&& m.len() == p.dimension
    &&& reduced(m, p.plain_modulus)
}

/// A residue is its target plus its offset, modulo `q`.
pub proof fn lemma_offset_elim(w: int, target: int, q: int)
    requires
        q > 0,
        0 <= w < q,
    ensures
        w == (target + offset(w, target, q)) % q,
{
    let r: int = (w - target) % q;
    let e: int = offset(w, target, q);
    lemma_fundamental_div_mod(w - target, q);
    let k: int = (w - target) / q;
    assert(w - target == q * k + r);
    if 2 * r > q {
        assert(target + e == w + q * (-k - 1)) by (nonlinear_arith)
            requires
                w - target == q * k + r,
                e == r - q,
        ;
        lemma_mod_multiples_vanish(-k - 1, w, q);
    } else {
        assert(target + e == w + q * (-k)) by (nonlinear_arith)
            requires
                w - target == q * k + r,
                e == r,
        ;
        lemma_mod_multiples_vanish(-k, w, q);
    }
    lemma_small_mod(w as nat, q as nat);
}

/// A small number that a residue is congruent to its target plus, is its
/// offset.
pub proof fn lemma_offset_intro(w: int, target: int, e: int, q: int)
    requires
        q > 0,
        w % q == (target + e) % q,
        2 * magnitude(e) < q,
    ensures
        offset(w, target, q) == e,
{
    lemma_sub_mod_noop(w, target, q);
    lemma_sub_mod_noop(target + e, target, q);
    assert((w - target) % q == e % q);
    if e >= 0 {
        lemma_small_mod(e as nat, q as nat);
    } else {
        lemma_mod_add_multiples_vanish(e, q);
        lemma_small_mod((q + e) as nat, q as nat);
    }
}

/// Decryption of one coefficient: a phase within the noise bound of the
/// lifted plaintext coefficient `m` rounds back to `m`, and shows a gap
/// within the bound and one wrap.
pub proof fn lemma_decrypt_coefficient(w: int, m: int, e: int, v: int, q: int, t: int)
    requires
        1 <= t < q,
        0 <= m < t,
        -v <= e <= v,
        2 * (v + q % t) < q / t,
        w == ((q / t) * m + e) % q,
    ensures
        round_div(w, q / t) % t == m,
        rounding_gap(w, q / t) <= v + q % t,
{
    let d: int = q / t;
    let rho: int = q % t;
    lemma_fundamental_div_mod(q, t);
    assert(q == t * d + rho);
    let x: int = d * m + e;
    assert(0 <= d * m <= d * t - d) by (nonlinear_arith)
        requires
            0 <= m <= t - 1,
            d >= 0,
    ;
    assert(t * d == d * t) by (nonlinear_arith);
    lemma_small_mod(m as nat, t as nat);
    lemma_mod_self_0(t);
    if x >= 0 {
        lemma_small_mod(x as nat, q as nat);
        if e >= 0 {
            assert(x == m * d + e) by (nonlinear_arith)
                requires
                    x == d * m + e,
            ;
            lemma_fundamental_div_mod_converse(x, d, m, e);
        } else {
            assert(m >= 1) by (nonlinear_arith)
                requires
                    d * m + e >= 0,
                    e < 0,
                    m >= 0,
            ;
            assert(x == (m - 1) * d + (d + e)) by (nonlinear_arith)
                requires
                    x == d * m + e,
            ;
            lemma_fundamental_div_mod_converse(x, d, m - 1, d + e);
        }
    } else {
        assert(m == 0) by (nonlinear_arith)
            requires
                d * m + e < 0,
                -e < d,
                d > 0,
                m >= 0,
        ;
        assert(d * 0 == 0);
        lemma_mod_add_multiples_vanish(e, q);
        lemma_small_mod((q + e) as nat, q as nat);
        assert(w == q + e);
        if rho + e >= 0 {
            lemma_fundamental_div_mod_converse(w, d, t, rho + e);
        } else {
            assert(w == (t - 1) * d + (d + rho + e)) by (nonlinear_arith)
                requires
                    w == t * d + rho + e,
            ;
            lemma_fundamental_div_mod_converse(w, d, t - 1, d + rho + e);
        }
    }
}

/// Addition of one coefficient: the sum of two phases is the lifted sum of
/// the plaintext coefficients plus both noises, less one wrap where the
/// plaintext sum passes `t`.
pub proof fn lemma_sum_coefficient(
    w1: int,
    w2: int,
    m1: int,
    m2: int,
    e1: int,
    e2: int,
    q: int,
    t: int,
)
    requires
        1 <= t < q,
        0 <= m1 < t,
        0 <= m2 < t,
        w1 == ((q / t) * m1 + e1) % q,
        w2 == ((q / t) * m2 + e2) % q,
    ensures
        (w1 + w2) % q == ((q / t) * ((m1 + m2) % t) + (e1 + e2 - (q % t) * ((m1 + m2) / t))) % q,
        0 <= (m1 + m2) / t <= 1,
{
    let d: int = q / t;
    let rho: int = q % t;
    let c: int = (m1 + m2) / t;
    let m3: int = (m1 + m2) % t;
    lemma_fundamental_div_mod(q, t);
    lemma_fundamental_div_mod(m1 + m2, t);
    assert(0 <= c <= 1) by (nonlinear_arith)
        requires
            m1 + m2 == t * c + m3,
            0 <= m3 < t,
            0 <= m1 + m2 < 2 * t,
    ;
    lemma_add_mod_noop(d * m1 + e1, d * m2 + e2, q);
    let e3: int = e1 + e2 - rho * c;
    assert(d * m1 + e1 + (d * m2 + e2) == q * c + (d * m3 + e3)) by (nonlinear_arith)
        requires
            q == t * d + rho,
            m1 + m2 == t * c + m3,
            e3 == e1 + e2 - rho * c,
    ;
    lemma_mod_multiples_vanish(c, d * m3 + e3, q);
}

/// Coefficient `i` of a ciphertext that hides `m` decrypts to `m[i]` and
/// shows a gap within the noise bound and one wrap.
proof fn lemma_hidden_coefficient(s: Seq<int>, ct: Encrypted, m: Seq<int>, p: Parameters, i: int)
    requires
        p.valid(),
        fits(s, ct.c0, ct.c1, m, p),
        0 <= ct.noise_bound,
        p.decryptable(ct.noise_bound),
        hides(s, ct.c0, ct.c1, m, ct.noise_bound, p),
        0 <= i < p.dimension,
    ensures
        decrypted_coefficient(phase(s, ct.c0, ct.c1, p.modulus)[i], p) == m[i],
        rounding_gap(phase(s, ct.c0, ct.c1, p.modulus)[i], p.delta()) <= ct.noise_bound
            + p.residue(),
{
    let q: int = p.modulus;
    let ph = phase(s, ct.c0, ct.c1, q);
    let e: int = noise_at(s, ct.c0, ct.c1, m, p, i);
    assert(magnitude(e) <= ct.noise_bound);
    lemma_mod_bound(ct.c0[i] + ring_mul(ct.c1, s, q)[i], q);
    lemma_offset_elim(ph[i], p.delta() * m[i], q);
    lemma_decrypt_coefficient(ph[i], m[i], e, ct.noise_bound, q, p.plain_modulus);
}

/// Decryption recovers what a ciphertext hides: where every coefficient of
/// the phase lies within the noise bound of the lifted plaintext, and the
/// bound is one that decrypts, decryption gives that plaintext and finds no
/// excess of noise.
pub proof fn law_decryption_recovers_hidden_plaintext(
    s: Seq<int>,
    ct: Encrypted,
    m: Seq<int>,
    p: Parameters,
)
    requires
        p.valid(),
        fits(s, ct.c0, ct.c1, m, p),
        0 <= ct.noise_bound,
        p.decryptable(ct.noise_bound),
        hides(s, ct.c0, ct.c1, m, ct.noise_bound, p),
    ensures
        !noise_exceeds(s, ct, p),
        decryption_of(s, ct.c0, ct.c1, p) == m,
{
    let out = decryption_of(s, ct.c0, ct.c1, p);
    assert forall|i: int| 0 <= i < p.dimension implies #[trigger] out[i] == m[i] by {
        lemma_hidden_coefficient(s, ct, m, p, i);
    }
    assert(out =~= m);
    assert forall|i: int| 0 <= i < p.dimension implies #[trigger] rounding_gap(
        phase(s, ct.c0, ct.c1, p.modulus)[i],
        p.delta(),
    ) <= ct.noise_bound + p.residue() by {
        lemma_hidden_coefficient(s, ct, m, p, i);
    }
}

/// The phase of a sum is the sum of the phases.
proof fn lemma_phase_of_sum(s: Seq<int>, a: Encrypted, b: Encrypted, p: Parameters, i: int)
    requires
        p.modulus > 0,
        s.len() == p.dimension,
        a.c0.len() == p.dimension,
        a.c1.len() == p.dimension,
        b.c0.len() == p.dimension,
        b.c1.len() == p.dimension,
        0 <= i < p.dimension,
    ensures
        phase(s, sum_of(a, b, p).c0, sum_of(a, b, p).c1, p.modulus)[i] == (phase(
            s,
            a.c0,
            a.c1,
            p.modulus,
        )[i] + phase(s, b.c0, b.c1, p.modulus)[i]) % p.modulus,
{
    let q: int = p.modulus;
    let sum = sum_of(a, b, p);
    law_mul_distributes_over_add(a.c1, b.c1, s, q);
    let x: int = ring_mul(a.c1, s, q)[i];
    let y: int = ring_mul(b.c1, s, q)[i];
    assert(ring_mul(sum.c1, s, q)[i] == (x + y) % q);
    lemma_add_mod_noop(a.c0[i] + b.c0[i], x + y, q);
    lemma_add_mod_noop(a.c0[i] + x, b.c0[i] + y, q);
}

/// The sum of two ciphertexts hides the sum of their plaintexts: where `a`
/// hides `m1` and `b` hides `m2` within their noise bounds, their sum hides
/// `m1 + m2` modulo `t` within its own.
pub proof fn law_sum_hides_sum(
    s: Seq<int>,
    a: Encrypted,
    b: Encrypted,
    m1: Seq<int>,
    m2: Seq<int>,
    p: Parameters,
)
    requires
        p.valid(),
        fits(s, a.c0, a.c1, m1, p),
        fits(s, b.c0, b.c1, m2, p),
        0 <= a.noise_bound,
        0 <= b.noise_bound,
        hides(s, a.c0, a.c1, m1, a.noise_bound, p),
        hides(s, b.c0, b.c1, m2, b.noise_bound, p),
        p.decryptable(p.sum_noise(a.noise_bound, b.noise_bound)),
    ensures
        fits(s, sum_of(a, b, p).c0, sum_of(a, b, p).c1, ring_add(m1, m2, p.plain_modulus), p),
        hides(
            s,
            sum_of(a, b, p).c0,
            sum_of(a, b, p).c1,
            ring_add(m1, m2, p.plain_modulus),
            sum_of(a, b, p).noise_bound,
            p,
        ),
{
    let q: int = p.modulus;
    let t: int = p.plain_modulus;
    let d: int = p.delta();
    let sum = sum_of(a, b, p);
    let m3 = ring_add(m1, m2, t);
    lemma_fundamental_div_mod(q, t);
    assert forall|i: int| 0 <= i < m3.len() implies 0 <= #[trigger] m3[i] < t by {
        lemma_mod_bound(m1[i] + m2[i], t);
    }
    assert forall|i: int| 0 <= i < p.dimension implies magnitude(
        #[trigger] noise_at(s, sum.c0, sum.c1, m3, p, i),
    ) <= sum.noise_bound by {
        let w1: int = phase(s, a.c0, a.c1, q)[i];
        let w2: int = phase(s, b.c0, b.c1, q)[i];
        let e1: int = noise_at(s, a.c0, a.c1, m1, p, i);
        let e2: int = noise_at(s, b.c0, b.c1, m2, p, i);
        assert(magnitude(e1) <= a.noise_bound);
        assert(magnitude(e2) <= b.noise_bound);
        lemma_mod_bound(a.c0[i] + ring_mul(a.c1, s, q)[i], q);
        lemma_mod_bound(b.c0[i] + ring_mul(b.c1, s, q)[i], q);
        lemma_offset_elim(w1, d * m1[i], q);
        lemma_offset_elim(w2, d * m2[i], q);
        lemma_sum_coefficient(w1, w2, m1[i], m2[i], e1, e2, q, t);
        lemma_phase_of_sum(s, a, b, p, i);
        let c: int = (m1[i] + m2[i]) / t;
        let e3: int = e1 + e2 - p.residue() * c;
        assert(magnitude(e3) <= a.noise_bound + b.noise_bound + p.residue()) by (nonlinear_arith)
            requires
                e3 == e1 + e2 - p.residue() * c,
                magnitude(e1) <= a.noise_bound,
                magnitude(e2) <= b.noise_bound,
                0 <= c <= 1,
                0 <= p.residue(),
        ;
        let w3: int = phase(s, sum.c0, sum.c1, q)[i];
        lemma_mod_twice(w1 + w2, q);
        assert(d * t <= q) by (nonlinear_arith)
            requires
                q == t * d + p.residue(),
                0 <= p.residue(),
        ;
        assert(d <= q) by (nonlinear_arith)
            requires
                d * t <= q,
                t >= 1,
                d >= 0,
        ;
        lemma_offset_intro(w3, d * m3[i], e3, q);
    }
}

/// Adding the encodings of two integers gives the encoding of their sum
/// modulo `t`.
pub proof fn lemma_encoding_adds(a: int, b: int, n: nat, t: int)
    requires
        t > 0,
    ensures
        ring_add(encoding(a, n, t), encoding(b, n, t), t) == encoding((a + b) % t, n, t),
{
    let lhs = ring_add(encoding(a, n, t), encoding(b, n, t), t);
    let rhs = encoding((a + b) % t, n, t);
    assert forall|i: int| 0 <= i < n implies lhs[i] == rhs[i] by {
        if i == 0 {
            lemma_add_mod_noop(a, b, t);
            lemma_mod_twice(a + b, t);
        } else {
            lemma_small_mod(0, t as nat);
        }
    }
    assert(lhs =~= rhs);
}

/// Homomorphic addition: where `x` hides the encoding of `a` and `y` that
/// of `b`, each within its noise bound, and their sum is one that the
/// evaluator accepts, decrypting the sum gives the encoding of
/// `(a + b) mod t` and finds no excess of noise.
pub proof fn law_sum_decrypts_to_sum(
    s: Seq<int>,
    x: Encrypted,
    y: Encrypted,
    a: int,
    b: int,
    p: Parameters,
)
    requires
        p.valid(),
        fits(s, x.c0, x.c1, encoding(a, p.dimension, p.plain_modulus), p),
        fits(s, y.c0, y.c1, encoding(b, p.dimension, p.plain_modulus), p),
        0 <= x.noise_bound,
        0 <= y.noise_bound,
        hides(s, x.c0, x.c1, encoding(a, p.dimension, p.plain_modulus), x.noise_bound, p),
        hides(s, y.c0, y.c1, encoding(b, p.dimension, p.plain_modulus), y.noise_bound, p),
        p.decryptable(p.sum_noise(x.noise_bound, y.noise_bound)),
    ensures
        !noise_exceeds(s, sum_of(x, y, p), p),
        decryption_of(s, sum_of(x, y, p).c0, sum_of(x, y, p).c1, p) == encoding(
            (a + b) % p.plain_modulus,
            p.dimension,
            p.plain_modulus,
        ),
{
    let n = p.dimension;
    let t = p.plain_modulus;
    law_sum_hides_sum(s, x, y, encoding(a, n, t), encoding(b, n, t), p);
    lemma_encoding_adds(a, b, n, t);
    law_decryption_recovers_hidden_plaintext(s, sum_of(x, y, p), encoding((a + b) % t, n, t), p);
}

/// The residues of ternary samples are congruent to the samples, which lie
/// within 1 of zero.
pub proof fn lemma_ternary_samples(words: Seq<u64>, q: int)
    requires
        q > 0,
    ensures
        congruent(ternary_poly(words, q), ternary_ints(words), q),
        forall|i: int| 0 <= i < words.len() ==> -1 <= #[trigger] ternary_ints(words)[i] <= 1,
{
    assert forall|i: int| 0 <= i < words.len() implies #[trigger] ternary_poly(words, q)[i] % q
        == ternary_ints(words)[i] % q by {
        lemma_mod_twice(ternary_ints(words)[i], q);
    }
}

/// The residues of noise samples are congruent to the samples, which lie
/// within the noise width of zero.
pub proof fn lemma_noise_samples(words: Seq<u64>, width: int, q: int)
    requires
        q > 0,
        0 <= width <= 32,
    ensures
        congruent(noise_poly(words, width, q), noise_ints(words, width), q),
        forall|i: int|
            0 <= i < words.len() ==> -width <= #[trigger] noise_ints(words, width)[i] <= width,
{
    assert forall|i: int| 0 <= i < words.len() implies #[trigger] noise_poly(words, width, q)[i]
        % q == noise_ints(words, width)[i] % q by {
        lemma_mod_twice(noise_ints(words, width)[i], q);
    }
    assert forall|i: int| 0 <= i < words.len() implies -width <= #[trigger] noise_ints(
        words,
        width,
    )[i] <= width by {
        lemma_bit_count_bounds(words[i], 0, width);
        lemma_bit_count_bounds(words[i], 32, width);
    }
}

/// A fresh ciphertext hides its plaintext: the encryption of `m` under the
/// public key drawn from `kw`, with the randomness `ew`, hides `m` under the
/// secret key drawn from `kw` with noise within the bound of a fresh
/// ciphertext.
pub proof fn law_fresh_ciphertext_hides(kw: Seq<u64>, ew: Seq<u64>, m: Seq<int>, p: Parameters)
    requires
        p.valid(),
        kw.len() >= 4 * p.dimension,
        ew.len() >= 3 * p.dimension,
        m.len() == p.dimension,
        reduced(m, p.plain_modulus),
    ensures
        fits(
            secret_of(kw, p),
            encryption_of(public_of(kw, p), m, ew, p).0,
            encryption_of(public_of(kw, p), m, ew, p).1,
            m,
            p,
        ),
        hides(
            secret_of(kw, p),
            encryption_of(public_of(kw, p), m, ew, p).0,
            encryption_of(public_of(kw, p), m, ew, p).1,
            m,
            p.fresh_noise(),
            p,
        ),
{
    let n: int = p.dimension as int;
    let q: int = p.modulus;
    let t: int = p.plain_modulus;
    let d: int = p.delta();
    let width: int = p.noise_width();
    assert(n >= 1) by {
        reveal_with_fuel(is_power_of_two, 1);
    }
    // the samples as residues, and the integers they stand for
    let s = secret_of(kw, p);
    let a = uniform_poly(double_chunk(kw, 1, n), q);
    let e = noise_poly(chunk(kw, 3, n), width, q);
    let u = ternary_poly(chunk(ew, 0, n), q);
    let e0 = noise_poly(chunk(ew, 1, n), width, q);
    let e1 = noise_poly(chunk(ew, 2, n), width, q);
    let si = ternary_ints(chunk(kw, 0, n));
    let ei = noise_ints(chunk(kw, 3, n), width);
    let ui = ternary_ints(chunk(ew, 0, n));
    let e0i = noise_ints(chunk(ew, 1, n), width);
    let e1i = noise_ints(chunk(ew, 2, n), width);
    let lifted = lifted_message(m, p);
    let li = pointwise_scale(d, m);
    lemma_ternary_samples(chunk(kw, 0, n), q);
    lemma_noise_samples(chunk(kw, 3, n), width, q);
    lemma_ternary_samples(chunk(ew, 0, n), q);
    lemma_noise_samples(chunk(ew, 1, n), width, q);
    lemma_noise_samples(chunk(ew, 2, n), width, q);
    assert(congruent(a, a, q));
    // the public key and the ciphertext over the integers
    let pk = public_of(kw, p);
    let ct = encryption_of(pk, m, ew, p);
    let asi = negacyclic_product(a, si);
    let p0i = pointwise_neg(pointwise_sum(asi, ei));
    let aui = negacyclic_product(a, ui);
    let c0i = pointwise_sum(pointwise_sum(negacyclic_product(p0i, ui), e0i), li);
    let c1i = pointwise_sum(aui, e1i);
    let phi = pointwise_sum(c0i, negacyclic_product(c1i, si));
    lemma_ring_mul_congruent(a, a, s, si, q);
    lemma_ring_add_congruent(ring_mul(a, s, q), asi, e, ei, q);
    lemma_ring_neg_congruent(ring_add(ring_mul(a, s, q), e, q), pointwise_sum(asi, ei), q);
    assert(pk.0 == masked(a, s, e, q));
    lemma_ring_mul_congruent(pk.0, p0i, u, ui, q);
    lemma_ring_add_congruent(ring_mul(pk.0, u, q), negacyclic_product(p0i, ui), e0, e0i, q);
    lemma_ring_scale_congruent(m, d, q);
    lemma_ring_add_congruent(
        ring_add(ring_mul(pk.0, u, q), e0, q),
        pointwise_sum(negacyclic_product(p0i, ui), e0i),
        lifted,
        li,
        q,
    );
    lemma_ring_mul_congruent(a, a, u, ui, q);
    lemma_ring_add_congruent(ring_mul(a, u, q), aui, e1, e1i, q);
    lemma_ring_mul_congruent(ct.1, c1i, s, si, q);
    lemma_ring_add_congruent(ct.0, c0i, ring_mul(ct.1, s, q), negacyclic_product(c1i, si), q);
    let ph = phase(s, ct.0, ct.1, q);
    assert(congruent(ph, phi, q));
    lemma_fundamental_div_mod(q, t);
    assert(d <= q) by (nonlinear_arith)
        requires
            q == t * d + p.residue(),
            0 <= p.residue(),
            t >= 1,
            d >= 0,
    ;
    assert forall|k: int| 0 <= k < n implies magnitude(
        #[trigger] noise_at(s, ct.0, ct.1, m, p, k),
    ) <= p.fresh_noise() by {
        let noise: int = e0i[k] + conv(e1i, si, k) - conv(ei, ui, k);
        lemma_product_is_conv(p0i, ui, k);
        lemma_conv_negates(pointwise_sum(asi, ei), ui, k);
        lemma_conv_adds(asi, ei, ui, k);
        lemma_product_is_conv(c1i, si, k);
        lemma_conv_adds(aui, e1i, si, k);
        lemma_product_regroups(a, si, ui);
        lemma_product_is_conv(asi, ui, k);
        lemma_product_is_conv(aui, si, k);
        assert(phi[k] == d * m[k] + noise);
        lemma_conv_bound(e1i, si, k, width, 1);
        lemma_conv_bound(ei, ui, k, width, 1);
        assert(-width <= e0i[k] <= width);
        assert(magnitude(noise) <= width * (2 * n + 1)) by (nonlinear_arith)
            requires
                -width <= e0i[k] <= width,
                -(n * (width * 1)) <= conv(e1i, si, k) <= n * (width * 1),
                -(n * (width * 1)) <= conv(ei, ui, k) <= n * (width * 1),
                noise == e0i[k] + conv(e1i, si, k) - conv(ei, ui, k),
        ;
        assert(ph[k] % q == phi[k] % q);
        lemma_offset_intro(ph[k], d * m[k], noise, q);
    }
}

/// A fresh ciphertext decrypts to its plaintext: for keys drawn from `kw`
/// and an encryption of `m` with the randomness `ew`, decryption gives `m`
/// and finds no excess of noise.
pub proof fn law_decryption_inverts_encryption(
    kw: Seq<u64>,
    ew: Seq<u64>,
    m: Seq<int>,
    p: Parameters,
)
    requires
        p.valid(),
        kw.len() >= 4 * p.dimension,
        ew.len() >= 3 * p.dimension,
        m.len() == p.dimension,
        reduced(m, p.plain_modulus),
    ensures
        decryption_of(
            secret_of(kw, p),
            encryption_of(public_of(kw, p), m, ew, p).0,
            encryption_of(public_of(kw, p), m, ew, p).1,
            p,
        ) == m,
        !noise_exceeds(secret_of(kw, p), fresh(public_of(kw, p), m, ew, p), p),
{
    law_fresh_ciphertext_hides(kw, ew, m, p);
    lemma_fresh_noise_is_positive(p);
    law_decryption_recovers_hidden_plaintext(
        secret_of(kw, p),
        fresh(public_of(kw, p), m, ew, p),
        m,
        p,
    );
}

/// The value of the ciphertext that encryption gives for the plaintext `m`
/// under the public key `pk` with the randomness `words`.
pub open spec fn fresh(pk: (Seq<int>, Seq<int>), m: Seq<int>, words: Seq<u64>, p: Parameters) -> Encrypted {
    Encrypted {
        c0: encryption_of(pk, m, words, p).0,
        c1: encryption_of(pk, m, words, p).1,
        noise_bound: p.fresh_noise(),
        stage: Stage::Fresh,
    }
}

/// The noise bound of a fresh ciphertext is not negative.
proof fn lemma_fresh_noise_is_positive(p: Parameters)
    requires
        p.valid(),
    ensures
        0 <= p.fresh_noise(),
{
    assert(p.noise_width() * (2 * p.dimension + 1) >= 0) by (nonlinear_arith)
        requires
            p.noise_width() >= 1,
            p.dimension >= 0,
    ;
}

/// The encoding of an integer is a plaintext.
proof fn lemma_encoding_is_reduced(a: int, n: nat, t: int)
    requires
        t > 0,
    ensures
        encoding(a, n, t).len() == n,
        reduced(encoding(a, n, t), t),
{
    assert forall|i: int| 0 <= i < n implies 0 <= #[trigger] encoding(a, n, t)[i] < t by {
        lemma_mod_bound(a, t);
    }
}

/// Homomorphic addition: for keys drawn from `kw`, the sum of an encryption
/// of `a` and an encryption of `b` decrypts to the encoding of
/// `(a + b) mod t`, whatever randomness the two encryptions drew, as long as
/// the parameters leave room for the noise of one addition.
pub proof fn law_homomorphic_addition(
    kw: Seq<u64>,
    w1: Seq<u64>,
    w2: Seq<u64>,
    a: int,
    b: int,
    p: Parameters,
)
    requires
        p.valid(),
        kw.len() >= 4 * p.dimension,
        w1.len() >= 3 * p.dimension,
        w2.len() >= 3 * p.dimension,
        p.decryptable(p.sum_noise(p.fresh_noise(), p.fresh_noise())),
    ensures
        ({
            let s = secret_of(kw, p);
            let pk = public_of(kw, p);
            let x = fresh(pk, encoding(a, p.dimension, p.plain_modulus), w1, p);
            let y = fresh(pk, encoding(b, p.dimension, p.plain_modulus), w2, p);
            let total = sum_of(x, y, p);
            &&& sum_failure(x, p, y, p) is None
            &&& decryption_failure(s, p, total, p) is None
            &&& decryption_of(s, total.c0, total.c1, p) == encoding(
                (a + b) % p.plain_modulus,
                p.dimension,
                p.plain_modulus,
            )
        }),
{
    let n = p.dimension;
    let t = p.plain_modulus;
    let s = secret_of(kw, p);
    let pk = public_of(kw, p);
    lemma_encoding_is_reduced(a, n, t);
    lemma_encoding_is_reduced(b, n, t);
    lemma_fresh_noise_is_positive(p);
    law_fresh_ciphertext_hides(kw, w1, encoding(a, n, t), p);
    law_fresh_ciphertext_hides(kw, w2, encoding(b, n, t), p);
    law_sum_decrypts_to_sum(
        s,
        fresh(pk, encoding(a, n, t), w1, p),
        fresh(pk, encoding(b, n, t), w2, p),
        a,
        b,
        p,
    );
}

} // verus!
