//! Why multiplication of ciphertexts multiplies plaintexts: the product of
//! two ciphertexts hides the product of their plaintexts, within the noise
//! bound that the evaluator records.

use crate::cipher::{
    decryption_failure,
    decryption_of,
    encryption_of,
    lifted_message,
    phase,
    Encrypted,
};
use crate::correctness::{
    fits,
    fresh,
    hides,
    law_decryption_recovers_hidden_plaintext,
    law_fresh_ciphertext_hides,
    lemma_noise_samples,
    lemma_offset_elim,
    lemma_offset_intro,
    lemma_ternary_samples,
    noise_at,
};
use crate::encoder::encoding;
use crate::evaluator::{
    centered_poly,
    digit_poly,
    magnitude,
    product_failure,
    product_of,
    relin_sum,
    relinearised,
    rescaled,
    scaled_tensor,
};
use crate::keys::{
    chunk,
    double_chunk,
    masked,
    public_of,
    relin_of,
    relin_part_of,
    secret_of,
    words_for_keys,
};
use crate::params::{digit_count, is_power_of_two, Parameters};
use crate::poly::{
    negacyclic_product,
    pointwise_neg,
    pointwise_scale,
    pointwise_sum,
    reduced,
    ring_add,
    ring_mul,
    ring_scale,
    round_div,
    wrap_sum,
};
use crate::ring_laws::{
    congruent,
    conv,
    law_product_associates,
    lemma_conv_adds,
    lemma_conv_adds_right,
    lemma_conv_affine_left,
    lemma_conv_affine_right,
    lemma_conv_bound,
    lemma_conv_commutes,
    lemma_conv_congruent,
    lemma_conv_negates,
    lemma_conv_scales,
    lemma_conv_scales_right,
    lemma_mul_congruent,
    lemma_product_is_conv,
    lemma_product_of_products,
    lemma_product_regroups,
    lemma_ring_add_congruent,
    lemma_ring_mul_congruent,
    lemma_ring_neg_congruent,
};
use crate::sampling::{noise_ints, noise_poly, ternary_ints, ternary_poly, uniform_poly};
use vstd::arithmetic::div_mod::*;
use vstd::arithmetic::power::*;
use vstd::prelude::*;

verus! {

/// A sequence stands for a secret key: its entries are 0, 1 or -1, and the
/// key holds their residues.
pub open spec fn ternary_lift(s: Seq<int>, lift: Seq<int>, q: int) -> bool {
    &&& congruent(s, lift, q)
    &&& forall|i: int| 0 <= i < lift.len() ==> -1 <= #[trigger] lift[i] <= 1
}

/// The phase of a ciphertext over the integers: `c0 + c1 * s` with centred
/// components and no reduction.
pub open spec fn lifted_phase(lift: Seq<int>, c0: Seq<int>, c1: Seq<int>, q: int) -> Seq<int> {
    pointwise_sum(centered_poly(c0, q), negacyclic_product(centered_poly(c1, q), lift))
}

/// The noise of each coefficient of a ciphertext taken as an encryption of
/// `m`.
pub open spec fn noise_of(s: Seq<int>, c0: Seq<int>, c1: Seq<int>, m: Seq<int>, p: Parameters) -> Seq<
    int,
> {
    Seq::new(p.dimension, |k: int| noise_at(s, c0, c1, m, p, k))
}

/// How many times `q` the integer phase of each coefficient lies from the
/// lifted plaintext plus the noise.
pub open spec fn wraps_of(
    s: Seq<int>,
    lift: Seq<int>,
    c0: Seq<int>,
    c1: Seq<int>,
    m: Seq<int>,
    p: Parameters,
) -> Seq<int> {
    Seq::new(
        p.dimension,
        |k: int|
            (lifted_phase(lift, c0, c1, p.modulus)[k] - p.delta() * m[k] - noise_at(
                s,
                c0,
                c1,
                m,
                p,
                k,
            )) / p.modulus,
    )
}

/// Centring changes no residue and leaves every coefficient within `q / 2`
/// of zero.
pub proof fn lemma_centered(c: Seq<int>, q: int)
    requires
        q > 0,
        reduced(c, q),
    ensures
        centered_poly(c, q).len() == c.len(),
        congruent(c, centered_poly(c, q), q),
        forall|i: int|
            0 <= i < c.len() ==> -(q / 2) <= #[trigger] centered_poly(c, q)[i] <= q / 2,
{
    assert forall|i: int| 0 <= i < c.len() implies #[trigger] c[i] % q == centered_poly(c, q)[i]
        % q by {
        lemma_mod_sub_multiples_vanish(c[i], q);
    }
}

/// The parameters of a valid set in plain numbers.
pub proof fn lemma_valid_parameters(p: Parameters)
    requires
        p.valid(),
    ensures
        p.dimension >= 1,
        p.modulus == p.plain_modulus * p.delta() + p.residue(),
        0 <= p.residue() < p.plain_modulus,
        1 <= p.delta() <= p.modulus,
        p.delta() * p.plain_modulus <= p.modulus,
        0 <= p.fresh_noise(),
{
    reveal_with_fuel(is_power_of_two, 1);
    let q = p.modulus;
    let t = p.plain_modulus;
    let d = p.delta();
    lemma_fundamental_div_mod(q, t);
    lemma_mod_bound(q, t);
    assert(p.noise_width() * (2 * p.dimension + 1) >= 0) by (nonlinear_arith)
        requires
            p.noise_width() >= 1,
            p.dimension >= 0,
    ;
    assert(d * t <= q && d <= q) by (nonlinear_arith)
        requires
            q == t * d + p.residue(),
            0 <= p.residue(),
            t >= 1,
            d >= 0,
    ;
}

/// The integer phase of a ciphertext that hides `m` is, in every
/// coefficient, the lifted plaintext plus the noise plus a few multiples of
/// `q`: at most `(n + 2) / 2` of them.
pub proof fn lemma_phase_lift(
    s: Seq<int>,
    lift: Seq<int>,
    c0: Seq<int>,
    c1: Seq<int>,
    m: Seq<int>,
    v: int,
    p: Parameters,
)
    requires
        p.valid(),
        fits(s, c0, c1, m, p),
        reduced(c0, p.modulus),
        reduced(c1, p.modulus),
        lift.len() == p.dimension,
        ternary_lift(s, lift, p.modulus),
        0 <= v,
        p.decryptable(v),
        hides(s, c0, c1, m, v, p),
    ensures
        lifted_phase(lift, c0, c1, p.modulus) == pointwise_sum(
            pointwise_sum(pointwise_scale(p.delta(), m), noise_of(s, c0, c1, m, p)),
            pointwise_scale(p.modulus, wraps_of(s, lift, c0, c1, m, p)),
        ),
        forall|k: int|
            0 <= k < p.dimension ==> 2 * magnitude(#[trigger] wraps_of(s, lift, c0, c1, m, p)[k])
                <= p.dimension + 2,
        forall|k: int|
            0 <= k < p.dimension ==> magnitude(#[trigger] noise_of(s, c0, c1, m, p)[k]) <= v,
{
    let n: int = p.dimension as int;
    let q: int = p.modulus;
    let d: int = p.delta();
    let t: int = p.plain_modulus;
    let half: int = q / 2;
    let a0 = centered_poly(c0, q);
    let a1 = centered_poly(c1, q);
    let whole = lifted_phase(lift, c0, c1, q);
    let e = noise_of(s, c0, c1, m, p);
    let r = wraps_of(s, lift, c0, c1, m, p);
    let rhs = pointwise_sum(pointwise_sum(pointwise_scale(d, m), e), pointwise_scale(q, r));
    lemma_valid_parameters(p);
    lemma_centered(c0, q);
    lemma_centered(c1, q);
    lemma_ring_mul_congruent(c1, a1, s, lift, q);
    assert forall|k: int| 0 <= k < n implies whole[k] == #[trigger] rhs[k] && 2 * magnitude(r[k])
        <= n + 2 && magnitude(e[k]) <= v by {
        let w: int = phase(s, c0, c1, q)[k];
        let x: int = ring_mul(c1, s, q)[k];
        let target: int = d * m[k] + e[k];
        assert(magnitude(noise_at(s, c0, c1, m, p, k)) <= v);
        lemma_product_is_conv(a1, lift, k);
        assert(x % q == conv(a1, lift, k) % q);
        assert(c0[k] % q == a0[k] % q);
        lemma_add_mod_noop(c0[k], x, q);
        lemma_add_mod_noop(a0[k], conv(a1, lift, k), q);
        lemma_mod_bound(c0[k] + x, q);
        lemma_small_mod(w as nat, q as nat);
        lemma_offset_elim(w, d * m[k], q);
        assert(whole[k] % q == target % q);
        let y: int = whole[k] - target;
        lemma_sub_mod_noop(whole[k], target, q);
        lemma_mod_self_0(q);
        assert(y % q == 0) by {
            lemma_small_mod(0, q as nat);
        }
        lemma_fundamental_div_mod(y, q);
        assert(y == q * r[k]);
        lemma_conv_bound(a1, lift, k, half, 1);
        assert(n * (half * 1) * 2 <= n * q) by (nonlinear_arith)
            requires
                half * 2 <= q,
                n >= 0,
        ;
        assert(0 <= d * m[k] <= d * t - d) by (nonlinear_arith)
            requires
                0 <= m[k] <= t - 1,
                d >= 0,
        ;
        assert(2 * magnitude(y) < (n + 3) * q) by (nonlinear_arith)
            requires
                y == a0[k] + conv(a1, lift, k) - target,
                -half <= a0[k] <= half,
                half * 2 <= q,
                -(n * (half * 1)) <= conv(a1, lift, k) <= n * (half * 1),
                n * (half * 1) * 2 <= n * q,
                target == d * m[k] + e[k],
                0 <= d * m[k] <= d * t - d,
                magnitude(e[k]) <= v,
                2 * v < d,
                d * t <= q,
        ;
        assert(2 * magnitude(r[k]) <= n + 2) by (nonlinear_arith)
            requires
                y == q * r[k],
                2 * magnitude(y) < (n + 3) * q,
                q > 0,
        ;
    }
    assert(whole =~= rhs);
}

/// The product of two integer phases is the tensor product of the
/// components evaluated at the secret: `t0 + t1 * s + t2 * s^2`.
pub proof fn lemma_tensor_identity(
    s: Seq<int>,
    a0: Seq<int>,
    a1: Seq<int>,
    b0: Seq<int>,
    b1: Seq<int>,
    k: int,
)
    requires
        s.len() > 0,
        a0.len() == s.len(),
        a1.len() == s.len(),
        b0.len() == s.len(),
        b1.len() == s.len(),
        0 <= k < s.len(),
    ensures
        conv(
            pointwise_sum(a0, negacyclic_product(a1, s)),
            pointwise_sum(b0, negacyclic_product(b1, s)),
            k,
        ) == negacyclic_product(a0, b0)[k] + conv(
            pointwise_sum(negacyclic_product(a0, b1), negacyclic_product(a1, b0)),
            s,
            k,
        ) + conv(negacyclic_product(a1, b1), negacyclic_product(s, s), k),
{
    let a1s = negacyclic_product(a1, s);
    let b1s = negacyclic_product(b1, s);
    let right = pointwise_sum(b0, b1s);
    lemma_conv_adds(a0, a1s, right, k);
    lemma_conv_adds_right(a0, b0, b1s, k);
    lemma_conv_adds_right(a1s, b0, b1s, k);
    lemma_product_is_conv(a0, b0, k);
    // a0 * (b1 * s) == (a0 * b1) * s
    law_product_associates(a0, b1, s);
    lemma_product_is_conv(a0, b1s, k);
    lemma_product_is_conv(negacyclic_product(a0, b1), s, k);
    // (a1 * s) * b0 == (a1 * b0) * s
    lemma_product_regroups(a1, s, b0);
    lemma_product_is_conv(a1s, b0, k);
    lemma_product_is_conv(negacyclic_product(a1, b0), s, k);
    // (a1 * s) * (b1 * s) == (a1 * b1) * (s * s)
    lemma_product_of_products(a1, b1, s);
    lemma_product_is_conv(a1s, b1s, k);
    lemma_product_is_conv(negacyclic_product(a1, b1), negacyclic_product(s, s), k);
    lemma_conv_adds(negacyclic_product(a0, b1), negacyclic_product(a1, b0), s, k);
}

/// Rounding a quotient moves the numerator by at most half the divisor.
pub proof fn lemma_round_div_error(x: int, q: int)
    requires
        q > 0,
    ensures
        -q < 2 * (q * round_div(x, q) - x) <= q,
{
    lemma_fundamental_div_mod(x, q);
    lemma_mod_bound(x, q);
    let up: int = if 2 * (x % q) >= q {
        1
    } else {
        0
    };
    assert(q * (x / q + up) == q * (x / q) + q * up) by (nonlinear_arith);
}

/// The ternary integers that the secret key of `kw` holds the residues of.
pub open spec fn secret_lift(kw: Seq<u64>, p: Parameters) -> Seq<int> {
    ternary_ints(chunk(kw, 0, p.dimension as int))
}

/// Digit `j` of each coefficient in base 256, as integers.
spec fn digit_ints(c: Seq<int>, j: nat) -> Seq<int> {
    Seq::new(c.len(), |i: int| (c[i] / pow(256, j)) % 256)
}

/// The lowest `m` digits of each coefficient, put together again.
spec fn low_part(c: Seq<int>, m: nat) -> Seq<int> {
    Seq::new(c.len(), |i: int| c[i] % pow(256, m))
}

/// The uniform polynomial of part `j` of the evaluation key.
spec fn relin_mask(kw: Seq<u64>, p: Parameters, j: int) -> Seq<int> {
    uniform_poly(double_chunk(kw, 4 + 3 * j, p.dimension as int), p.modulus)
}

/// The noise of part `j` of the evaluation key, as integers.
spec fn relin_error(kw: Seq<u64>, p: Parameters, j: int) -> Seq<int> {
    noise_ints(chunk(kw, 6 + 3 * j, p.dimension as int), p.noise_width())
}

/// The first polynomial of part `j` of the evaluation key over the
/// integers: `-(a * s + e) + 256^j * s^2`.
spec fn relin_lift(kw: Seq<u64>, p: Parameters, j: int) -> Seq<int> {
    let s = secret_lift(kw, p);
    pointwise_sum(
        pointwise_neg(
            pointwise_sum(negacyclic_product(relin_mask(kw, p, j), s), relin_error(kw, p, j)),
        ),
        pointwise_scale(pow(256, j as nat), negacyclic_product(s, s)),
    )
}

/// The sum of relinearisation over the first `m` digits, over the integers.
spec fn relin_int(kw: Seq<u64>, p: Parameters, c2: Seq<int>, second: bool, m: nat) -> Seq<int>
    decreases m,
{
    if m == 0 {
        Seq::new(c2.len(), |i: int| 0int)
    } else {
        let j = (m - 1) as nat;
        let key = if second {
            relin_mask(kw, p, j as int)
        } else {
            relin_lift(kw, p, j as int)
        };
        pointwise_sum(
            relin_int(kw, p, c2, second, j),
            negacyclic_product(key, digit_ints(c2, j)),
        )
    }
}

/// The noise that relinearisation over the first `m` digits adds to
/// coefficient `k`.
spec fn relin_noise(kw: Seq<u64>, p: Parameters, c2: Seq<int>, k: int, m: nat) -> int
    decreases m,
{
    if m == 0 {
        0
    } else {
        let j = (m - 1) as nat;
        relin_noise(kw, p, c2, k, j) + conv(relin_error(kw, p, j as int), digit_ints(c2, j), k)
    }
}

/// A number is below 256 to the power of its digit count.
proof fn lemma_digit_count_covers(x: nat)
    ensures
        x < pow(256, digit_count(x)),
    decreases x,
{
    reveal(pow);
    if x < 256 {
        assert(pow(256, 1) == 256 * pow(256, 0));
        assert(pow(256, 0) == 1);
    } else {
        lemma_digit_count_covers(x / 256);
        lemma_fundamental_div_mod(x as int, 256);
        let c: nat = digit_count(x / 256);
        assert(pow(256, (1 + c) as nat) == 256 * pow(256, c));
    }
}

/// The chunks that make part `j` of the evaluation key lie within the
/// words of key generation.
proof fn lemma_relin_chunks(kw: Seq<u64>, p: Parameters, j: int)
    requires
        p.valid(),
        kw.len() >= words_for_keys(p),
        0 <= j < p.relin_digits(),
    ensures
        chunk(kw, 0, p.dimension as int).len() == p.dimension,
        double_chunk(kw, 4 + 3 * j, p.dimension as int).len() == 2 * p.dimension,
        relin_mask(kw, p, j).len() == p.dimension,
        chunk(kw, 6 + 3 * j, p.dimension as int).len() == p.dimension,
{
    let n: int = p.dimension as int;
    let l: int = p.relin_digits() as int;
    assert(0 <= (4 + 3 * j) * n && (4 + 3 * j + 2) * n == (4 + 3 * j) * n + 2 * n && (6 + 3 * j)
        * n == (4 + 3 * j) * n + 2 * n && (6 + 3 * j + 1) * n == (4 + 3 * j) * n + 3 * n && (4 + 3
        * j) * n + 3 * n <= n * (4 + 3 * l) && 0 * n == 0 && (0 + 1) * n == n && n <= n * (4 + 3
        * l)) by (nonlinear_arith)
        requires
            0 <= j < l,
            n >= 0,
    ;
}

/// A residue sequence scaled in the ring is congruent to its stand-in
/// scaled by a congruent number.
proof fn lemma_ring_scale_lift(x: Seq<int>, x2: Seq<int>, c: int, c2: int, q: int)
    requires
        q > 0,
        congruent(x, x2, q),
        c % q == c2 % q,
    ensures
        congruent(ring_scale(x, c, q), pointwise_scale(c2, x2), q),
{
    assert forall|i: int| 0 <= i < x.len() implies #[trigger] ring_scale(x, c, q)[i] % q
        == pointwise_scale(c2, x2)[i] % q by {
        assert(x[i] % q == x2[i] % q);
        lemma_mul_congruent(x[i], x2[i], c, c2, q);
        lemma_mod_twice(x[i] * c, q);
        assert(x2[i] * c2 == c2 * x2[i]) by (nonlinear_arith);
    }
}

/// The secret key of `kw` holds the residues of its ternary integers.
proof fn lemma_secret_lift(kw: Seq<u64>, p: Parameters)
    requires
        p.valid(),
        kw.len() >= p.dimension,
    ensures
        secret_of(kw, p).len() == p.dimension,
        secret_lift(kw, p).len() == p.dimension,
        ternary_lift(secret_of(kw, p), secret_lift(kw, p), p.modulus),
{
    let n: int = p.dimension as int;
    assert(0 * n == 0 && (0 + 1) * n == n) by (nonlinear_arith);
    lemma_ternary_samples(chunk(kw, 0, n), p.modulus);
}

/// Part `j` of the evaluation key holds the residues of its stand-ins over
/// the integers.
proof fn lemma_relin_part_lift(kw: Seq<u64>, p: Parameters, j: int)
    requires
        p.valid(),
        kw.len() >= words_for_keys(p),
        0 <= j < p.relin_digits(),
    ensures
        relin_part_of(kw, p, j).0.len() == p.dimension,
        relin_part_of(kw, p, j).1.len() == p.dimension,
        relin_lift(kw, p, j).len() == p.dimension,
        relin_error(kw, p, j).len() == p.dimension,
        congruent(relin_part_of(kw, p, j).0, relin_lift(kw, p, j), p.modulus),
        relin_part_of(kw, p, j).1 == relin_mask(kw, p, j),
        forall|i: int|
            0 <= i < p.dimension ==> -p.noise_width() <= #[trigger] relin_error(kw, p, j)[i]
                <= p.noise_width(),
{
    let n: int = p.dimension as int;
    let q: int = p.modulus;
    let width: int = p.noise_width();
    lemma_relin_chunks(kw, p, j);
    let s = secret_of(kw, p);
    let si = secret_lift(kw, p);
    let a = relin_mask(kw, p, j);
    let e = noise_poly(chunk(kw, 6 + 3 * j, n), width, q);
    let ei = relin_error(kw, p, j);
    lemma_ternary_samples(chunk(kw, 0, n), q);
    lemma_noise_samples(chunk(kw, 6 + 3 * j, n), width, q);
    assert(congruent(a, a, q));
    lemma_ring_mul_congruent(a, a, s, si, q);
    lemma_ring_add_congruent(ring_mul(a, s, q), negacyclic_product(a, si), e, ei, q);
    lemma_ring_neg_congruent(
        ring_add(ring_mul(a, s, q), e, q),
        pointwise_sum(negacyclic_product(a, si), ei),
        q,
    );
    lemma_ring_mul_congruent(s, si, s, si, q);
    lemma_mod_twice(pow(256, j as nat), q);
    lemma_ring_scale_lift(
        ring_mul(s, s, q),
        negacyclic_product(si, si),
        pow(256, j as nat) % q,
        pow(256, j as nat),
        q,
    );
    lemma_ring_add_congruent(
        masked(a, s, e, q),
        pointwise_neg(pointwise_sum(negacyclic_product(a, si), ei)),
        ring_scale(ring_mul(s, s, q), pow(256, j as nat) % q, q),
        pointwise_scale(pow(256, j as nat), negacyclic_product(si, si)),
        q,
    );
}

/// The digits of a reduced sequence lie in `[0, 255]`, and their residues
/// are what relinearisation multiplies by.
proof fn lemma_digits(c2: Seq<int>, j: nat, q: int)
    requires
        q > 0,
    ensures
        digit_ints(c2, j).len() == c2.len(),
        congruent(digit_poly(c2, j, q), digit_ints(c2, j), q),
        forall|i: int| 0 <= i < c2.len() ==> -255 <= #[trigger] digit_ints(c2, j)[i] <= 255,
{
    assert forall|i: int| 0 <= i < c2.len() implies #[trigger] digit_poly(c2, j, q)[i] % q
        == digit_ints(c2, j)[i] % q by {
        lemma_mod_twice((c2[i] / pow(256, j)) % 256, q);
    }
    assert forall|i: int| 0 <= i < c2.len() implies -255 <= #[trigger] digit_ints(c2, j)[i]
        <= 255 by {
        lemma_mod_bound(c2[i] / pow(256, j), 256);
    }
}

/// The sums of relinearisation hold the residues of their stand-ins over
/// the integers.
proof fn lemma_relin_sums_lift(kw: Seq<u64>, p: Parameters, c2: Seq<int>, second: bool, m: nat)
    requires
        p.valid(),
        kw.len() >= words_for_keys(p),
        c2.len() == p.dimension,
        m <= p.relin_digits(),
    ensures
        relin_int(kw, p, c2, second, m).len() == p.dimension,
        congruent(
            relin_sum(c2, relin_of(kw, p), second, p.modulus, m),
            relin_int(kw, p, c2, second, m),
            p.modulus,
        ),
    decreases m,
{
    let q: int = p.modulus;
    if m > 0 {
        let j: nat = (m - 1) as nat;
        lemma_relin_sums_lift(kw, p, c2, second, j);
        lemma_relin_part_lift(kw, p, j as int);
        lemma_digits(c2, j, q);
        let part = relin_of(kw, p)[j as int];
        assert(part == relin_part_of(kw, p, j as int));
        if second {
            assert(congruent(part.1, relin_mask(kw, p, j as int), q));
            lemma_ring_mul_congruent(
                part.1,
                relin_mask(kw, p, j as int),
                digit_poly(c2, j, q),
                digit_ints(c2, j),
                q,
            );
            lemma_ring_add_congruent(
                relin_sum(c2, relin_of(kw, p), second, q, j),
                relin_int(kw, p, c2, second, j),
                ring_mul(part.1, digit_poly(c2, j, q), q),
                negacyclic_product(relin_mask(kw, p, j as int), digit_ints(c2, j)),
                q,
            );
        } else {
            lemma_ring_mul_congruent(
                part.0,
                relin_lift(kw, p, j as int),
                digit_poly(c2, j, q),
                digit_ints(c2, j),
                q,
            );
            lemma_ring_add_congruent(
                relin_sum(c2, relin_of(kw, p), second, q, j),
                relin_int(kw, p, c2, second, j),
                ring_mul(part.0, digit_poly(c2, j, q), q),
                negacyclic_product(relin_lift(kw, p, j as int), digit_ints(c2, j)),
                q,
            );
        }
    }
}

/// The square of a ternary polynomial has coefficients within `n` of zero.
proof fn lemma_square_bound(s: Seq<int>)
    requires
        s.len() > 0,
        forall|i: int| 0 <= i < s.len() ==> -1 <= #[trigger] s[i] <= 1,
    ensures
        negacyclic_product(s, s).len() == s.len(),
        forall|i: int|
            0 <= i < s.len() ==> -(s.len() as int) <= #[trigger] negacyclic_product(s, s)[i]
                <= s.len(),
{
    assert forall|i: int| 0 <= i < s.len() implies -(s.len() as int) <= #[trigger] negacyclic_product(
        s,
        s,
    )[i] <= s.len() by {
        lemma_product_is_conv(s, s, i);
        lemma_conv_bound(s, s, i, 1, 1);
        assert(s.len() * (1 * 1) == s.len());
    }
}

/// A product with the zero polynomial is zero.
proof fn lemma_conv_zero(a: Seq<int>, b: Seq<int>, k: int)
    requires
        a.len() == b.len(),
        a.len() > 0,
        (forall|i: int| 0 <= i < a.len() ==> #[trigger] a[i] == 0) || (forall|i: int|
            0 <= i < b.len() ==> #[trigger] b[i] == 0),
    ensures
        conv(a, b, k) == 0,
{
    if forall|i: int| 0 <= i < a.len() ==> #[trigger] a[i] == 0 {
        assert(pointwise_scale(0, a) =~= a);
        lemma_conv_scales(0, a, b, k);
    } else {
        assert(pointwise_scale(0, b) =~= b);
        lemma_conv_scales_right(0, a, b, k);
    }
    assert(0 * conv(a, b, k) == 0);
}

/// What relinearisation over the first `m` digits contributes to the phase:
/// the square of the secret times the low digits of `c2`, less the noise of
/// the key.
proof fn lemma_relin_identity(kw: Seq<u64>, p: Parameters, c2: Seq<int>, k: int, m: nat)
    requires
        p.valid(),
        kw.len() >= words_for_keys(p),
        c2.len() == p.dimension,
        reduced(c2, p.modulus),
        m <= p.relin_digits(),
        0 <= k < p.dimension,
    ensures
        relin_int(kw, p, c2, false, m)[k] + conv(
            relin_int(kw, p, c2, true, m),
            secret_lift(kw, p),
            k,
        ) == conv(
            negacyclic_product(secret_lift(kw, p), secret_lift(kw, p)),
            low_part(c2, m),
            k,
        ) - relin_noise(kw, p, c2, k, m),
    decreases m,
{
    let n: int = p.dimension as int;
    let q: int = p.modulus;
    let si = secret_lift(kw, p);
    let ss = negacyclic_product(si, si);
    lemma_valid_parameters(p);
    assert(words_for_keys(p) >= n) by (nonlinear_arith)
        requires
            words_for_keys(p) == n * (4 + 3 * p.relin_digits()),
            n >= 0,
    ;
    lemma_secret_lift(kw, p);
    lemma_square_bound(si);
    lemma_relin_sums_lift(kw, p, c2, false, m);
    lemma_relin_sums_lift(kw, p, c2, true, m);
    if m == 0 {
        reveal(pow);
        assert(pow(256, 0) == 1);
        assert forall|i: int| 0 <= i < n implies #[trigger] low_part(c2, 0)[i] == 0 by {}
        lemma_conv_zero(ss, low_part(c2, 0), k);
        lemma_conv_zero(relin_int(kw, p, c2, true, 0), si, k);
    } else {
        let j: nat = (m - 1) as nat;
        let c: int = pow(256, j);
        lemma_relin_identity(kw, p, c2, k, j);
        lemma_relin_sums_lift(kw, p, c2, false, j);
        lemma_relin_sums_lift(kw, p, c2, true, j);
        lemma_relin_part_lift(kw, p, j as int);
        lemma_relin_chunks(kw, p, j as int);
        lemma_digits(c2, j, q);
        let a = relin_mask(kw, p, j as int);
        let ei = relin_error(kw, p, j as int);
        let dg = digit_ints(c2, j);
        let a_s = negacyclic_product(a, si);
        let key = relin_lift(kw, p, j as int);
        // the first sum grows by key * digits
        lemma_product_is_conv(key, dg, k);
        lemma_conv_adds(pointwise_neg(pointwise_sum(a_s, ei)), pointwise_scale(c, ss), dg, k);
        lemma_conv_negates(pointwise_sum(a_s, ei), dg, k);
        lemma_conv_adds(a_s, ei, dg, k);
        lemma_conv_scales(c, ss, dg, k);
        // the second sum, times the secret, grows by (a * digits) * s == (a * s) * digits
        lemma_conv_adds(
            relin_int(kw, p, c2, true, j),
            negacyclic_product(a, dg),
            si,
            k,
        );
        lemma_product_regroups(a, dg, si);
        lemma_product_is_conv(negacyclic_product(a, dg), si, k);
        lemma_product_is_conv(a_s, dg, k);
        // the low part grows by one digit
        lemma_pow_positive(256, j);
        reveal(pow);
        assert(pow(256, m) == 256 * c);
        assert(c * 256 == 256 * c) by (nonlinear_arith);
        assert forall|i: int| 0 <= i < n implies #[trigger] low_part(c2, m)[i] == low_part(
            c2,
            j,
        )[i] + c * dg[i] by {
            lemma_breakdown(c2[i], c, 256);
        }
        assert(low_part(c2, m) =~= pointwise_sum(low_part(c2, j), pointwise_scale(c, dg)));
        lemma_conv_adds_right(ss, low_part(c2, j), pointwise_scale(c, dg), k);
        lemma_conv_scales_right(c, ss, dg, k);
    }
}

/// The noise that relinearisation adds is at most `m * n * 255` times the
/// noise width.
proof fn lemma_relin_noise_bound(kw: Seq<u64>, p: Parameters, c2: Seq<int>, k: int, m: nat)
    requires
        p.valid(),
        kw.len() >= words_for_keys(p),
        c2.len() == p.dimension,
        m <= p.relin_digits(),
    ensures
        magnitude(relin_noise(kw, p, c2, k, m)) <= m * (p.dimension * (p.noise_width() * 255)),
    decreases m,
{
    let n: int = p.dimension as int;
    let bound: int = n * (p.noise_width() * 255);
    lemma_valid_parameters(p);
    if m > 0 {
        let j: nat = (m - 1) as nat;
        lemma_relin_noise_bound(kw, p, c2, k, j);
        lemma_relin_part_lift(kw, p, j as int);
        lemma_digits(c2, j, p.modulus);
        lemma_conv_bound(relin_error(kw, p, j as int), digit_ints(c2, j), k, p.noise_width(), 255);
        assert(m * bound == j * bound + bound) by (nonlinear_arith)
            requires
                m == j + 1,
        ;
    } else {
        assert(0 * bound == 0);
    }
}

/// All the digits of a reduced coefficient put together give it back.
proof fn lemma_low_part_full(c2: Seq<int>, p: Parameters)
    requires
        p.valid(),
        reduced(c2, p.modulus),
    ensures
        low_part(c2, p.relin_digits()) == c2,
{
    lemma_digit_count_covers((p.modulus - 1) as nat);
    assert forall|i: int| 0 <= i < c2.len() implies #[trigger] low_part(c2, p.relin_digits())[i]
        == c2[i] by {
        lemma_small_mod(c2[i] as nat, pow(256, p.relin_digits()) as nat);
    }
    assert(low_part(c2, p.relin_digits()) =~= c2);
}

/// The phase of a relinearised ciphertext: that of the three terms
/// evaluated at the secret, `r0 + r1 * s + r2 * s^2`, less the noise of the
/// evaluation key.
proof fn lemma_relinearised_phase(
    kw: Seq<u64>,
    p: Parameters,
    r0: Seq<int>,
    r1: Seq<int>,
    r2: Seq<int>,
    k: int,
)
    requires
        p.valid(),
        kw.len() >= words_for_keys(p),
        r0.len() == p.dimension,
        r1.len() == p.dimension,
        r2.len() == p.dimension,
        reduced(r2, p.modulus),
        0 <= k < p.dimension,
    ensures
        phase(
            secret_of(kw, p),
            relinearised(r0, r1, r2, relin_of(kw, p), p.modulus).0,
            relinearised(r0, r1, r2, relin_of(kw, p), p.modulus).1,
            p.modulus,
        )[k] % p.modulus == (r0[k] + conv(r1, secret_lift(kw, p), k) + conv(
            negacyclic_product(secret_lift(kw, p), secret_lift(kw, p)),
            r2,
            k,
        ) - relin_noise(kw, p, r2, k, p.relin_digits())) % p.modulus,
{
    let n: int = p.dimension as int;
    let q: int = p.modulus;
    let l: nat = p.relin_digits();
    let s = secret_of(kw, p);
    let si = secret_lift(kw, p);
    let ek = relin_of(kw, p);
    let out = relinearised(r0, r1, r2, ek, q);
    let sum0 = relin_sum(r2, ek, false, q, l);
    let sum1 = relin_sum(r2, ek, true, q, l);
    let int0 = relin_int(kw, p, r2, false, l);
    let int1 = relin_int(kw, p, r2, true, l);
    lemma_valid_parameters(p);
    assert(words_for_keys(p) >= n) by (nonlinear_arith)
        requires
            words_for_keys(p) == n * (4 + 3 * l),
            n >= 0,
    ;
    lemma_secret_lift(kw, p);
    lemma_relin_sums_lift(kw, p, r2, false, l);
    lemma_relin_sums_lift(kw, p, r2, true, l);
    assert(ek.len() == l);
    assert(congruent(r0, r0, q));
    assert(congruent(r1, r1, q));
    lemma_ring_add_congruent(r0, r0, sum0, int0, q);
    lemma_ring_add_congruent(r1, r1, sum1, int1, q);
    lemma_ring_mul_congruent(out.1, pointwise_sum(r1, int1), s, si, q);
    lemma_product_is_conv(pointwise_sum(r1, int1), si, k);
    lemma_conv_adds(r1, int1, si, k);
    lemma_relin_identity(kw, p, r2, k, l);
    lemma_low_part_full(r2, p);
    let x: int = out.0[k];
    let y: int = ring_mul(out.1, s, q)[k];
    assert(x % q == (r0[k] + int0[k]) % q);
    assert(y % q == conv(pointwise_sum(r1, int1), si, k) % q);
    lemma_add_mod_noop(x, y, q);
    lemma_add_mod_noop(r0[k] + int0[k], conv(pointwise_sum(r1, int1), si, k), q);
    lemma_mod_twice(x + y, q);
}

/// A product of two bounded numbers is bounded by the product of the bounds.
proof fn lemma_product_magnitude(x: int, y: int, bx: int, by: int)
    requires
        magnitude(x) <= bx,
        magnitude(y) <= by,
    ensures
        magnitude(x * y) <= bx * by,
{
    assert(magnitude(x * y) <= bx * by) by (nonlinear_arith)
        requires
            -bx <= x <= bx,
            -by <= y <= by,
    ;
}

/// The cross terms of a product of two phases, sorted by powers of `q`.
/// With `t * d == q - rho` and `mm == t * kq + m3`, `t` times the product of
/// `d * m1 + e1 + q * r1` and `d * m2 + e2 + q * r2` is `q * d * m3` plus
/// `q^2 * x` plus `q * y` plus a rest `z`.
proof fn lemma_product_terms(
    q: int,
    t: int,
    d: int,
    rho: int,
    mm: int,
    me: int,
    mr: int,
    em: int,
    ee: int,
    er: int,
    rm: int,
    re: int,
    rr: int,
    kq: int,
    m3: int,
)
    requires
        q == t * d + rho,
        mm == t * kq + m3,
    ensures
        t * (d * (d * mm + me + q * mr) + (d * em + ee + q * er) + q * (d * rm + re + q * rr)) == q
            * (d * m3) + q * (q * (kq + mr + rm + t * rr)) + q * (-(rho * kq) + me + em - rho * mr
            - rho * rm + t * er + t * re) + (-(rho * (d * mm)) - rho * me - rho * em + t * ee),
{
    let td: int = t * d;
    assert(td == q - rho);
    // the terms with two factors d
    assert(t * (d * (d * mm)) == td * (d * mm)) by (nonlinear_arith)
        requires
            td == t * d,
    ;
    assert(td * (d * mm) == q * (d * mm) - rho * (d * mm)) by (nonlinear_arith)
        requires
            td == q - rho,
    ;
    assert(d * mm == td * kq + d * m3) by (nonlinear_arith)
        requires
            mm == t * kq + m3,
            td == t * d,
    ;
    assert(q * (d * mm) == q * (q * kq) - q * (rho * kq) + q * (d * m3)) by (nonlinear_arith)
        requires
            d * mm == td * kq + d * m3,
            td == q - rho,
    ;
    // the terms with one factor d
    assert(t * (d * me) == q * me - rho * me) by (nonlinear_arith)
        requires
            t * d == q - rho,
    ;
    assert(t * (d * em) == q * em - rho * em) by (nonlinear_arith)
        requires
            t * d == q - rho,
    ;
    assert(t * (d * (q * mr)) == q * (q * mr) - q * (rho * mr)) by (nonlinear_arith)
        requires
            t * d == q - rho,
    ;
    assert(t * (q * (d * rm)) == q * (q * rm) - q * (rho * rm)) by (nonlinear_arith)
        requires
            t * d == q - rho,
    ;
    // the terms without
    assert(t * (q * er) == q * (t * er)) by (nonlinear_arith);
    assert(t * (q * re) == q * (t * re)) by (nonlinear_arith);
    assert(t * (q * (q * rr)) == q * (q * (t * rr))) by (nonlinear_arith);
    // all of them
    let inner: int = d * (d * mm + me + q * mr) + (d * em + ee + q * er) + q * (d * rm + re + q
        * rr);
    assert(inner == d * (d * mm) + d * me + d * (q * mr) + d * em + ee + q * er + q * (d * rm) + q
        * re + q * (q * rr)) by (nonlinear_arith)
        requires
            inner == d * (d * mm + me + q * mr) + (d * em + ee + q * er) + q * (d * rm + re + q
                * rr),
    ;
    assert(t * inner == t * (d * (d * mm)) + t * (d * me) + t * (d * (q * mr)) + t * (d * em) + t
        * ee + t * (q * er) + t * (q * (d * rm)) + t * (q * re) + t * (q * (q * rr)))
        by (nonlinear_arith)
        requires
            inner == d * (d * mm) + d * me + d * (q * mr) + d * em + ee + q * er + q * (d * rm)
                + q * re + q * (q * rr),
    ;
    let x: int = kq + mr + rm + t * rr;
    assert(q * (q * x) == q * (q * kq) + q * (q * mr) + q * (q * rm) + q * (q * (t * rr)))
        by (nonlinear_arith)
        requires
            x == kq + mr + rm + t * rr,
    ;
    let y: int = -(rho * kq) + me + em - rho * mr - rho * rm + t * er + t * re;
    assert(q * y == -(q * (rho * kq)) + q * me + q * em - q * (rho * mr) - q * (rho * rm) + q * (t
        * er) + q * (t * re)) by (nonlinear_arith)
        requires
            y == -(rho * kq) + me + em - rho * mr - rho * rm + t * er + t * re,
    ;
}

/// The noise of one coefficient of a product stays within the bound that
/// the evaluator records. `w` is the rescaled tensor product evaluated at
/// the secret, `dd` what the rounding of the rescaling moved it by, `rn`
/// the noise of relinearisation; the other numbers are those of
/// [`lemma_product_terms`] with their bounds.
proof fn lemma_product_noise_bound(
    n: int,
    q: int,
    t: int,
    d: int,
    rho: int,
    v1: int,
    v2: int,
    rb: int,
    l: int,
    width: int,
    mm: int,
    me: int,
    mr: int,
    em: int,
    ee: int,
    er: int,
    rm: int,
    re: int,
    rr: int,
    kq: int,
    m3: int,
    w: int,
    dd: int,
    rn: int,
)
    requires
        n >= 1,
        t >= 1,
        d >= 1,
        q == t * d + rho,
        0 <= rho < t,
        0 <= v1,
        0 <= v2,
        2 * (v1 + rho) < d,
        2 * (v2 + rho) < d,
        0 <= rb,
        2 * rb <= n + 2,
        0 <= l,
        0 <= width,
        magnitude(mm) <= n * (t * t),
        magnitude(me) <= n * (t * v2),
        magnitude(mr) <= n * (t * rb),
        magnitude(em) <= n * (v1 * t),
        magnitude(ee) <= n * (v1 * v2),
        magnitude(er) <= n * (v1 * rb),
        magnitude(rm) <= n * (rb * t),
        magnitude(re) <= n * (rb * v2),
        mm == t * kq + m3,
        0 <= m3 < t,
        q * w == t * (d * (d * mm + me + q * mr) + (d * em + ee + q * er) + q * (d * rm + re + q
            * rr)) + dd,
        2 * magnitude(dd) <= q * (1 + n + n * n),
        magnitude(rn) <= l * (n * (width * 255)),
    ensures
        magnitude(w - rn - d * m3 - q * (kq + mr + rm + t * rr)) <= n * t * ((n + 7) / 2) * (v1
            + v2 + 2 * t) + n * v1 + n * n + 1 + l * n * 256 * width,
{
    let x: int = kq + mr + rm + t * rr;
    let y: int = -(rho * kq) + me + em - rho * mr - rho * rm + t * er + t * re;
    let z0: int = -(rho * (d * mm)) - rho * me - rho * em + t * ee;
    let zp: int = w - d * m3 - q * x - y;
    lemma_product_terms(q, t, d, rho, mm, me, mr, em, ee, er, rm, re, rr, kq, m3);
    assert(q * zp == z0 + dd) by (nonlinear_arith)
        requires
            zp == w - d * m3 - q * x - y,
            q * w == q * (d * m3) + q * (q * x) + q * y + z0 + dd,
    ;
    // the products of the bounds
    let ntt: int = n * (t * t);
    let ntv1: int = n * (t * v1);
    let ntv2: int = n * (t * v2);
    let ntr: int = n * (t * rb);
    let nv1r: int = n * (v1 * rb);
    let nrv2: int = n * (rb * v2);
    let nv1: int = n * v1;
    let nv2: int = n * v2;
    let nn: int = n * n;
    assert(n * (v1 * t) == ntv1 && n * (rb * t) == ntr) by (nonlinear_arith)
        requires
            ntv1 == n * (t * v1),
            ntr == n * (t * rb),
    ;
    assert(0 <= ntt && 0 <= ntv1 && 0 <= ntv2 && 0 <= ntr && 0 <= nv1r && 0 <= nrv2 && 0 <= nv1
        && 0 <= nv2 && n <= nn) by (nonlinear_arith)
        requires
            n >= 1,
            t >= 1,
            v1 >= 0,
            v2 >= 0,
            rb >= 0,
            ntt == n * (t * t),
            ntv1 == n * (t * v1),
            ntv2 == n * (t * v2),
            ntr == n * (t * rb),
            nv1r == n * (v1 * rb),
            nrv2 == n * (rb * v2),
            nv1 == n * v1,
            nv2 == n * v2,
            nn == n * n,
    ;
    // the quotient of the plaintext product
    assert(magnitude(kq) <= n * t) by (nonlinear_arith)
        requires
            mm == t * kq + m3,
            0 <= m3 < t,
            magnitude(mm) <= n * (t * t),
            t >= 1,
            n >= 1,
    ;
    // the part y
    lemma_product_magnitude(rho, kq, t, n * t);
    assert(t * (n * t) == ntt) by (nonlinear_arith)
        requires
            ntt == n * (t * t),
    ;
    lemma_product_magnitude(rho, mr, t, ntr);
    lemma_product_magnitude(rho, rm, t, ntr);
    lemma_product_magnitude(t, er, t, nv1r);
    lemma_product_magnitude(t, re, t, nrv2);
    assert(magnitude(y) <= ntt + ntv2 + ntv1 + 2 * (t * ntr) + t * nv1r + t * nrv2);
    assert(2 * (2 * (t * ntr)) <= 2 * ntt * (n + 2)) by (nonlinear_arith)
        requires
            2 * rb <= n + 2,
            ntr == n * (t * rb),
            ntt == n * (t * t),
            n >= 1,
            t >= 1,
            rb >= 0,
    ;
    assert(2 * (t * nv1r) <= ntv1 * (n + 2)) by (nonlinear_arith)
        requires
            2 * rb <= n + 2,
            nv1r == n * (v1 * rb),
            ntv1 == n * (t * v1),
            n >= 1,
            t >= 1,
            rb >= 0,
            v1 >= 0,
    ;
    assert(2 * (t * nrv2) <= ntv2 * (n + 2)) by (nonlinear_arith)
        requires
            2 * rb <= n + 2,
            nrv2 == n * (rb * v2),
            ntv2 == n * (t * v2),
            n >= 1,
            t >= 1,
            rb >= 0,
            v2 >= 0,
    ;
    // the rest z0, a multiple of q
    let dt: int = d * t;
    assert(dt <= q && dt == t * d && dt >= 1) by (nonlinear_arith)
        requires
            dt == d * t,
            q == t * d + rho,
            rho >= 0,
            t >= 1,
            d >= 1,
    ;
    assert(magnitude(rho * (d * mm)) <= q * ntt) by (nonlinear_arith)
        requires
            0 <= rho < t,
            d >= 1,
            d * t <= q,
            magnitude(mm) <= ntt,
            ntt >= 0,
    ;
    assert(2 * magnitude(rho * me) <= q * nv2) by (nonlinear_arith)
        requires
            0 <= rho,
            2 * rho < d,
            d * t <= q,
            t >= 1,
            magnitude(me) <= n * (t * v2),
            nv2 == n * v2,
            n >= 1,
            v2 >= 0,
    ;
    assert(2 * magnitude(rho * em) <= q * nv1) by (nonlinear_arith)
        requires
            0 <= rho,
            2 * rho < d,
            d * t <= q,
            t >= 1,
            magnitude(em) <= n * (v1 * t),
            nv1 == n * v1,
            n >= 1,
            v1 >= 0,
    ;
    assert(2 * magnitude(t * ee) <= q * nv1) by (nonlinear_arith)
        requires
            2 * v2 < d,
            d * t <= q,
            t >= 1,
            magnitude(ee) <= n * (v1 * v2),
            nv1 == n * v1,
            n >= 1,
            v1 >= 0,
            v2 >= 0,
    ;
    let bz: int = 2 * ntt + nv2 + 2 * nv1 + 1 + n + nn;
    assert(q * bz == 2 * (q * ntt) + q * nv2 + 2 * (q * nv1) + q * (1 + n + n * n))
        by (nonlinear_arith)
        requires
            bz == 2 * ntt + nv2 + 2 * nv1 + 1 + n + nn,
            nn == n * n,
    ;
    assert(2 * magnitude(z0 + dd) <= q * bz);
    assert(2 * magnitude(zp) <= bz) by (nonlinear_arith)
        requires
            q * zp == z0 + dd,
            2 * magnitude(z0 + dd) <= q * bz,
            q >= 1,
    ;
    // the noise of relinearisation
    let lnw: int = l * n * 256 * width;
    assert(l * (n * (width * 255)) <= lnw) by (nonlinear_arith)
        requires
            lnw == l * n * 256 * width,
            l >= 0,
            n >= 1,
            width >= 0,
    ;
    // the bound of the evaluator
    let h: int = (n + 7) / 2;
    let first: int = n * t * h * (v1 + v2 + 2 * t);
    assert(2 * first >= (n + 6) * (ntv1 + ntv2) + 2 * (n + 6) * ntt) by (nonlinear_arith)
        requires
            first == n * t * h * (v1 + v2 + 2 * t),
            2 * h >= n + 6,
            ntv1 == n * (t * v1),
            ntv2 == n * (t * v2),
            ntt == n * (t * t),
            n >= 1,
            t >= 1,
            v1 >= 0,
            v2 >= 0,
    ;
    assert(ntv1 >= nv1 && ntv2 >= nv2) by (nonlinear_arith)
        requires
            ntv1 == n * (t * v1),
            ntv2 == n * (t * v2),
            nv1 == n * v1,
            nv2 == n * v2,
            n >= 1,
            t >= 1,
            v1 >= 0,
            v2 >= 0,
    ;
    assert((n + 6) * (ntv1 + ntv2) == (n + 2) * ntv1 + (n + 2) * ntv2 + 4 * ntv1 + 4 * ntv2)
        by (nonlinear_arith);
    assert(2 * (n + 6) * ntt == 2 * ntt * (n + 2) + 8 * ntt) by (nonlinear_arith);
    assert(ntv1 * (n + 2) == (n + 2) * ntv1 && ntv2 * (n + 2) == (n + 2) * ntv2)
        by (nonlinear_arith);
    let noise: int = w - rn - d * m3 - q * x;
    assert(noise == zp + y - rn);
}

/// The rescaled coefficients before their reduction modulo `q`.
spec fn rounded(e: Seq<int>, p: Parameters) -> Seq<int> {
    Seq::new(e.len(), |i: int| round_div(p.plain_modulus * e[i], p.modulus))
}

/// What rounding moved each numerator by.
spec fn moved(e: Seq<int>, p: Parameters) -> Seq<int> {
    Seq::new(
        e.len(),
        |i: int| p.modulus * round_div(p.plain_modulus * e[i], p.modulus) - p.plain_modulus * e[i],
    )
}

/// The rescaled coefficients are reduced residues of the rounded quotients,
/// and `q` times a rounded quotient is `t` times the coefficient plus a
/// move of at most `q / 2`.
proof fn lemma_rounded(e: Seq<int>, p: Parameters)
    requires
        p.modulus > 0,
    ensures
        rescaled(e, p).len() == e.len(),
        rounded(e, p).len() == e.len(),
        moved(e, p).len() == e.len(),
        reduced(rescaled(e, p), p.modulus),
        congruent(rescaled(e, p), rounded(e, p), p.modulus),
        pointwise_scale(p.modulus, rounded(e, p)) == pointwise_sum(
            pointwise_scale(p.plain_modulus, e),
            moved(e, p),
        ),
        forall|i: int|
            0 <= i < e.len() ==> -(p.modulus / 2) <= #[trigger] moved(e, p)[i] <= p.modulus / 2,
{
    let q: int = p.modulus;
    let t: int = p.plain_modulus;
    assert forall|i: int| 0 <= i < e.len() implies 0 <= #[trigger] rescaled(e, p)[i] < q by {
        lemma_mod_bound(round_div(t * e[i], q), q);
    }
    assert forall|i: int| 0 <= i < e.len() implies #[trigger] rescaled(e, p)[i] % q == rounded(
        e,
        p,
    )[i] % q by {
        lemma_mod_twice(round_div(t * e[i], q), q);
    }
    assert forall|i: int| 0 <= i < e.len() implies -(q / 2) <= #[trigger] moved(e, p)[i] <= q
        / 2 by {
        lemma_round_div_error(t * e[i], q);
    }
    assert(pointwise_scale(q, rounded(e, p)) =~= pointwise_sum(pointwise_scale(t, e), moved(e, p)));
}

/// The noise of coefficient `k` of a product is within the bound that the
/// evaluator records.
proof fn lemma_product_coefficient(
    kw: Seq<u64>,
    a: Encrypted,
    b: Encrypted,
    m1: Seq<int>,
    m2: Seq<int>,
    p: Parameters,
    k: int,
)
    requires
        p.valid(),
        kw.len() >= words_for_keys(p),
        fits(secret_of(kw, p), a.c0, a.c1, m1, p),
        fits(secret_of(kw, p), b.c0, b.c1, m2, p),
        reduced(a.c0, p.modulus),
        reduced(a.c1, p.modulus),
        reduced(b.c0, p.modulus),
        reduced(b.c1, p.modulus),
        0 <= a.noise_bound,
        0 <= b.noise_bound,
        p.decryptable(a.noise_bound),
        p.decryptable(b.noise_bound),
        hides(secret_of(kw, p), a.c0, a.c1, m1, a.noise_bound, p),
        hides(secret_of(kw, p), b.c0, b.c1, m2, b.noise_bound, p),
        p.decryptable(p.product_noise(a.noise_bound, b.noise_bound)),
        0 <= k < p.dimension,
    ensures
        magnitude(
            noise_at(
                secret_of(kw, p),
                product_of(a, b, relin_of(kw, p), p).c0,
                product_of(a, b, relin_of(kw, p), p).c1,
                ring_mul(m1, m2, p.plain_modulus),
                p,
                k,
            ),
        ) <= p.product_noise(a.noise_bound, b.noise_bound),
{
    let n: int = p.dimension as int;
    let q: int = p.modulus;
    let t: int = p.plain_modulus;
    let d: int = p.delta();
    let rho: int = p.residue();
    let half: int = q / 2;
    let v1: int = a.noise_bound;
    let v2: int = b.noise_bound;
    let rb: int = (n + 2) / 2;
    let l: nat = p.relin_digits();
    let width: int = p.noise_width();
    let s = secret_of(kw, p);
    let si = secret_lift(kw, p);
    let ss = negacyclic_product(si, si);
    lemma_valid_parameters(p);
    assert(words_for_keys(p) >= n) by (nonlinear_arith)
        requires
            words_for_keys(p) == n * (4 + 3 * l),
            n >= 0,
    ;
    lemma_secret_lift(kw, p);
    lemma_square_bound(si);
    // the phases over the integers
    let a0 = centered_poly(a.c0, q);
    let a1 = centered_poly(a.c1, q);
    let b0 = centered_poly(b.c0, q);
    let b1 = centered_poly(b.c1, q);
    let pa = lifted_phase(si, a.c0, a.c1, q);
    let pb = lifted_phase(si, b.c0, b.c1, q);
    let e1 = noise_of(s, a.c0, a.c1, m1, p);
    let e2 = noise_of(s, b.c0, b.c1, m2, p);
    let r1 = wraps_of(s, si, a.c0, a.c1, m1, p);
    let r2 = wraps_of(s, si, b.c0, b.c1, m2, p);
    lemma_centered(a.c0, q);
    lemma_centered(a.c1, q);
    lemma_centered(b.c0, q);
    lemma_centered(b.c1, q);
    lemma_phase_lift(s, si, a.c0, a.c1, m1, v1, p);
    lemma_phase_lift(s, si, b.c0, b.c1, m2, v2, p);
    // the tensor product, rescaled
    let t0 = negacyclic_product(a0, b0);
    let t1 = pointwise_sum(negacyclic_product(a0, b1), negacyclic_product(a1, b0));
    let t2 = negacyclic_product(a1, b1);
    let terms = scaled_tensor(a, b, p);
    assert(terms.0 == rescaled(t0, p) && terms.1 == rescaled(t1, p) && terms.2 == rescaled(t2, p));
    lemma_tensor_identity(si, a0, a1, b0, b1, k);
    lemma_rounded(t0, p);
    lemma_rounded(t1, p);
    lemma_rounded(t2, p);
    let f0 = rounded(t0, p);
    let f1 = rounded(t1, p);
    let f2 = rounded(t2, p);
    let g0 = moved(t0, p);
    let g1 = moved(t1, p);
    let g2 = moved(t2, p);
    // the phase of the product
    let out = product_of(a, b, relin_of(kw, p), p);
    let w_out: int = phase(s, out.c0, out.c1, q)[k];
    let rn: int = relin_noise(kw, p, terms.2, k, l);
    lemma_relinearised_phase(kw, p, terms.0, terms.1, terms.2, k);
    lemma_relin_noise_bound(kw, p, terms.2, k, l);
    assert(congruent(si, si, q));
    assert(congruent(ss, ss, q));
    lemma_conv_congruent(terms.1, f1, si, si, k, q);
    lemma_conv_congruent(ss, ss, terms.2, f2, k, q);
    let w: int = f0[k] + conv(f1, si, k) + conv(ss, f2, k);
    assert(terms.0[k] % q == f0[k] % q);
    lemma_add_mod_noop(terms.0[k], conv(terms.1, si, k), q);
    lemma_add_mod_noop(f0[k], conv(f1, si, k), q);
    lemma_add_mod_noop(terms.0[k] + conv(terms.1, si, k), conv(ss, terms.2, k), q);
    lemma_add_mod_noop(f0[k] + conv(f1, si, k), conv(ss, f2, k), q);
    lemma_sub_mod_noop(terms.0[k] + conv(terms.1, si, k) + conv(ss, terms.2, k), rn, q);
    lemma_sub_mod_noop(w, rn, q);
    assert(w_out % q == (w - rn) % q);
    // q * w is t times the product of the phases, plus what rounding moved
    let dd: int = g0[k] + conv(g1, si, k) + conv(ss, g2, k);
    lemma_conv_scales(q, f1, si, k);
    lemma_conv_adds(pointwise_scale(t, t1), g1, si, k);
    lemma_conv_scales(t, t1, si, k);
    lemma_conv_scales_right(q, ss, f2, k);
    lemma_conv_adds_right(ss, pointwise_scale(t, t2), g2, k);
    lemma_conv_scales_right(t, ss, t2, k);
    lemma_conv_commutes(ss, t2, k);
    let both: int = conv(pa, pb, k);
    assert(q * f0[k] == t * t0[k] + g0[k]) by {
        assert(pointwise_scale(q, f0)[k] == pointwise_sum(pointwise_scale(t, t0), g0)[k]);
    }
    assert(q * w == t * both + dd) by (nonlinear_arith)
        requires
            w == f0[k] + conv(f1, si, k) + conv(ss, f2, k),
            q * f0[k] == t * t0[k] + g0[k],
            q * conv(f1, si, k) == t * conv(t1, si, k) + conv(g1, si, k),
            q * conv(ss, f2, k) == t * conv(t2, ss, k) + conv(ss, g2, k),
            both == t0[k] + conv(t1, si, k) + conv(t2, ss, k),
            dd == g0[k] + conv(g1, si, k) + conv(ss, g2, k),
    ;
    lemma_conv_bound(g1, si, k, half, 1);
    lemma_conv_bound(ss, g2, k, n, half);
    assert(2 * magnitude(dd) <= q * (1 + n + n * n)) by (nonlinear_arith)
        requires
            dd == g0[k] + conv(g1, si, k) + conv(ss, g2, k),
            -half <= g0[k] <= half,
            -(n * (half * 1)) <= conv(g1, si, k) <= n * (half * 1),
            -(n * (n * half)) <= conv(ss, g2, k) <= n * (n * half),
            2 * half <= q,
            n >= 1,
            half >= 0,
    ;
    // the product of the phases, term by term
    let mm: int = conv(m1, m2, k);
    let me: int = conv(m1, e2, k);
    let mr: int = conv(m1, r2, k);
    let em: int = conv(e1, m2, k);
    let ee: int = conv(e1, e2, k);
    let er: int = conv(e1, r2, k);
    let rm: int = conv(r1, m2, k);
    let re: int = conv(r1, e2, k);
    let rr: int = conv(r1, r2, k);
    lemma_conv_affine_left(m1, e1, r1, d, q, pb, k);
    lemma_conv_affine_right(m1, m2, e2, r2, d, q, k);
    lemma_conv_affine_right(e1, m2, e2, r2, d, q, k);
    lemma_conv_affine_right(r1, m2, e2, r2, d, q, k);
    assert(both == d * (d * mm + me + q * mr) + (d * em + ee + q * er) + q * (d * rm + re + q
        * rr));
    assert forall|i: int| 0 <= i < n implies -rb <= #[trigger] r1[i] <= rb by {
        assert(2 * magnitude(r1[i]) <= n + 2);
    }
    assert forall|i: int| 0 <= i < n implies -rb <= #[trigger] r2[i] <= rb by {
        assert(2 * magnitude(r2[i]) <= n + 2);
    }
    assert forall|i: int| 0 <= i < n implies -v1 <= #[trigger] e1[i] <= v1 by {
        assert(magnitude(e1[i]) <= v1);
    }
    assert forall|i: int| 0 <= i < n implies -v2 <= #[trigger] e2[i] <= v2 by {
        assert(magnitude(e2[i]) <= v2);
    }
    lemma_conv_bound(m1, m2, k, t, t);
    lemma_conv_bound(m1, e2, k, t, v2);
    lemma_conv_bound(m1, r2, k, t, rb);
    lemma_conv_bound(e1, m2, k, v1, t);
    lemma_conv_bound(e1, e2, k, v1, v2);
    lemma_conv_bound(e1, r2, k, v1, rb);
    lemma_conv_bound(r1, m2, k, rb, t);
    lemma_conv_bound(r1, e2, k, rb, v2);
    // the plaintext of the product
    let m3: int = ring_mul(m1, m2, t)[k];
    let kq: int = mm / t;
    lemma_product_is_conv(m1, m2, k);
    lemma_fundamental_div_mod(mm, t);
    lemma_mod_bound(mm, t);
    assert(m3 == mm % t);
    lemma_product_noise_bound(
        n,
        q,
        t,
        d,
        rho,
        v1,
        v2,
        rb,
        l as int,
        width,
        mm,
        me,
        mr,
        em,
        ee,
        er,
        rm,
        re,
        rr,
        kq,
        m3,
        w,
        dd,
        rn,
    );
    let x: int = kq + mr + rm + t * rr;
    let noise: int = w - rn - d * m3 - q * x;
    assert(magnitude(noise) <= p.product_noise(v1, v2));
    lemma_mod_multiples_vanish(x, d * m3 + noise, q);
    assert(w_out % q == (d * m3 + noise) % q);
    lemma_offset_intro(w_out, d * m3, noise, q);
}

/// The product of two ciphertexts hides the product of their plaintexts:
/// where `a` hides `m1` and `b` hides `m2` under the secret key drawn from
/// `kw`, each within a noise bound that decrypts, their product under the
/// evaluation key drawn from `kw` hides `m1 * m2` in `Z_t[x]/(x^n + 1)`
/// within the noise bound of the product.
pub proof fn law_product_hides_product(
    kw: Seq<u64>,
    a: Encrypted,
    b: Encrypted,
    m1: Seq<int>,
    m2: Seq<int>,
    p: Parameters,
)
    requires
        p.valid(),
        kw.len() >= words_for_keys(p),
        fits(secret_of(kw, p), a.c0, a.c1, m1, p),
        fits(secret_of(kw, p), b.c0, b.c1, m2, p),
        reduced(a.c0, p.modulus),
        reduced(a.c1, p.modulus),
        reduced(b.c0, p.modulus),
        reduced(b.c1, p.modulus),
        0 <= a.noise_bound,
        0 <= b.noise_bound,
        p.decryptable(a.noise_bound),
        p.decryptable(b.noise_bound),
        hides(secret_of(kw, p), a.c0, a.c1, m1, a.noise_bound, p),
        hides(secret_of(kw, p), b.c0, b.c1, m2, b.noise_bound, p),
        p.decryptable(p.product_noise(a.noise_bound, b.noise_bound)),
    ensures
        fits(
            secret_of(kw, p),
            product_of(a, b, relin_of(kw, p), p).c0,
            product_of(a, b, relin_of(kw, p), p).c1,
            ring_mul(m1, m2, p.plain_modulus),
            p,
        ),
        hides(
            secret_of(kw, p),
            product_of(a, b, relin_of(kw, p), p).c0,
            product_of(a, b, relin_of(kw, p), p).c1,
            ring_mul(m1, m2, p.plain_modulus),
            product_of(a, b, relin_of(kw, p), p).noise_bound,
            p,
        ),
{
    let t: int = p.plain_modulus;
    let out = product_of(a, b, relin_of(kw, p), p);
    let m3 = ring_mul(m1, m2, t);
    let terms = scaled_tensor(a, b, p);
    assert(terms.0.len() == p.dimension && terms.1.len() == p.dimension);
    assert forall|i: int| 0 <= i < m3.len() implies 0 <= #[trigger] m3[i] < t by {
        lemma_mod_bound(wrap_sum(m1, m2, i, m1.len() as int), t);
    }
    assert forall|k: int| 0 <= k < p.dimension implies magnitude(
        #[trigger] noise_at(secret_of(kw, p), out.c0, out.c1, m3, p, k),
    ) <= out.noise_bound by {
        lemma_product_coefficient(kw, a, b, m1, m2, p, k);
    }
}

/// The partial sums of the product of two encodings hold one term only.
proof fn lemma_encoding_product_sum(a: int, b: int, n: nat, t: int, k: int, m: int)
    requires
        0 <= k < n,
        1 <= m <= n,
    ensures
        wrap_sum(encoding(a, n, t), encoding(b, n, t), k, m) == (a % t) * encoding(b, n, t)[k],
    decreases m,
{
    let ea = encoding(a, n, t);
    let eb = encoding(b, n, t);
    if m > 1 {
        lemma_encoding_product_sum(a, b, n, t, k, m - 1);
        let i: int = m - 1;
        assert(ea[i] == 0);
        assert(0 * eb[k - i] == 0 && 0 * eb[k - i + n] == 0);
    } else {
        assert(wrap_sum(ea, eb, k, 0) == 0);
    }
}

/// Multiplying the encodings of two integers gives the encoding of their
/// product modulo `t`.
pub proof fn lemma_encoding_multiplies(a: int, b: int, n: nat, t: int)
    requires
        t > 0,
    ensures
        ring_mul(encoding(a, n, t), encoding(b, n, t), t) == encoding((a * b) % t, n, t),
{
    let lhs = ring_mul(encoding(a, n, t), encoding(b, n, t), t);
    let rhs = encoding((a * b) % t, n, t);
    assert forall|k: int| 0 <= k < n implies lhs[k] == rhs[k] by {
        lemma_encoding_product_sum(a, b, n, t, k, n as int);
        if k == 0 {
            lemma_mul_mod_noop_general(a, b, t);
            lemma_mod_twice(a * b, t);
        } else {
            assert((a % t) * 0 == 0);
            lemma_small_mod(0, t as nat);
        }
    }
    assert(lhs =~= rhs);
}

/// The components of a fresh ciphertext are reduced.
proof fn lemma_fresh_is_reduced(
    pk: (Seq<int>, Seq<int>),
    m: Seq<int>,
    words: Seq<u64>,
    p: Parameters,
)
    requires
        p.modulus > 0,
    ensures
        reduced(encryption_of(pk, m, words, p).0, p.modulus),
        reduced(encryption_of(pk, m, words, p).1, p.modulus),
{
    let q: int = p.modulus;
    let ct = encryption_of(pk, m, words, p);
    assert forall|i: int| 0 <= i < ct.0.len() implies 0 <= #[trigger] ct.0[i] < q by {
        let u = ternary_poly(chunk(words, 0, p.dimension as int), q);
        let e0 = noise_poly(chunk(words, 1, p.dimension as int), p.noise_width(), q);
        let left = ring_add(ring_mul(pk.0, u, q), e0, q);
        let lifted = lifted_message(m, p);
        assert(ct.0[i] == (left[i] + lifted[i]) % q);
        lemma_mod_bound(left[i] + lifted[i], q);
    }
    assert forall|i: int| 0 <= i < ct.1.len() implies 0 <= #[trigger] ct.1[i] < q by {
        let u = ternary_poly(chunk(words, 0, p.dimension as int), q);
        let e1 = noise_poly(chunk(words, 2, p.dimension as int), p.noise_width(), q);
        let left = ring_mul(pk.1, u, q);
        assert(ct.1[i] == (left[i] + e1[i]) % q);
        lemma_mod_bound(left[i] + e1[i], q);
    }
}

/// Homomorphic multiplication: for keys drawn from `kw` under parameters
/// that support one multiplication, the product of an encryption of `a` and
/// an encryption of `b` decrypts to the encoding of `(a * b) mod t`,
/// whatever randomness the two encryptions drew.
pub proof fn law_homomorphic_multiplication(
    kw: Seq<u64>,
    w1: Seq<u64>,
    w2: Seq<u64>,
    a: int,
    b: int,
    p: Parameters,
)
    requires
        p.valid(),
        p.supports_multiplication(),
        kw.len() >= words_for_keys(p),
        w1.len() >= 3 * p.dimension,
        w2.len() >= 3 * p.dimension,
    ensures
        ({
            let s = secret_of(kw, p);
            let pk = public_of(kw, p);
            let x = fresh(pk, encoding(a, p.dimension, p.plain_modulus), w1, p);
            let y = fresh(pk, encoding(b, p.dimension, p.plain_modulus), w2, p);
            let product = product_of(x, y, relin_of(kw, p), p);
            &&& product_failure(x, p, y, p, p) is None
            &&& decryption_failure(s, p, product, p) is None
            &&& decryption_of(s, product.c0, product.c1, p) == encoding(
                (a * b) % p.plain_modulus,
                p.dimension,
                p.plain_modulus,
            )
        }),
{
    let n = p.dimension;
    let t = p.plain_modulus;
    let s = secret_of(kw, p);
    let pk = public_of(kw, p);
    let ma = encoding(a, n, t);
    let mb = encoding(b, n, t);
    let x = fresh(pk, ma, w1, p);
    let y = fresh(pk, mb, w2, p);
    let product = product_of(x, y, relin_of(kw, p), p);
    lemma_valid_parameters(p);
    assert(words_for_keys(p) >= 4 * n) by (nonlinear_arith)
        requires
            words_for_keys(p) == n * (4 + 3 * p.relin_digits()),
            n >= 0,
    ;
    assert forall|i: int| 0 <= i < n implies 0 <= #[trigger] ma[i] < t by {
        lemma_mod_bound(a, t);
    }
    assert forall|i: int| 0 <= i < n implies 0 <= #[trigger] mb[i] < t by {
        lemma_mod_bound(b, t);
    }
    law_fresh_ciphertext_hides(kw, w1, ma, p);
    law_fresh_ciphertext_hides(kw, w2, mb, p);
    lemma_fresh_is_reduced(pk, ma, w1, p);
    lemma_fresh_is_reduced(pk, mb, w2, p);
    law_product_hides_product(kw, x, y, ma, mb, p);
    lemma_encoding_multiplies(a, b, n, t);
    assert(product.noise_bound >= 0) by {
        lemma_product_noise_is_positive(p, x.noise_bound, y.noise_bound);
    }
    law_decryption_recovers_hidden_plaintext(s, product, encoding((a * b) % t, n, t), p);
}

/// The noise bound of a product is not negative.
proof fn lemma_product_noise_is_positive(p: Parameters, v1: int, v2: int)
    requires
        p.valid(),
        0 <= v1,
        0 <= v2,
    ensures
        0 <= p.product_noise(v1, v2),
{
    let n: int = p.dimension as int;
    let t: int = p.plain_modulus;
    let h: int = (n + 7) / 2;
    let l: int = p.relin_digits() as int;
    let width: int = p.noise_width();
    assert(n * t * h * (v1 + v2 + 2 * t) >= 0 && n * v1 >= 0 && n * n >= 0 && l * n * 256 * width
        >= 0) by (nonlinear_arith)
        requires
            n >= 0,
            t >= 1,
            h >= 0,
            v1 >= 0,
            v2 >= 0,
            l >= 0,
            width >= 1,
    ;
}

} // verus!
