//! Algebraic laws of the ring operations, stated over the mathematical
//! coefficient sequences that the contracts of [`crate::poly`] use.

use crate::poly::{
    negacyclic_product,
    pointwise_neg,
    pointwise_scale,
    pointwise_sum,
    ring_add,
    ring_mul,
    ring_neg,
    ring_reduce,
    ring_scale,
    wrap_sum,
    wrap_term,
};
use crate::sums::{
    lemma_sum_add,
    lemma_sum_bound,
    lemma_sum_congruent,
    lemma_sum_ext,
    lemma_sum_reflect,
    lemma_sum_scale,
    lemma_sum_shift,
    lemma_sum_swap,
    lemma_sum_window,
    sum,
};
use vstd::arithmetic::div_mod::*;
use vstd::prelude::*;

verus! {

/// Sums of congruent numbers are congruent.
pub proof fn lemma_add_congruent(x: int, x2: int, y: int, y2: int, m: int)
    requires
        m > 0,
        x % m == x2 % m,
        y % m == y2 % m,
    ensures
        (x + y) % m == (x2 + y2) % m,
{
    lemma_add_mod_noop(x, y, m);
    lemma_add_mod_noop(x2, y2, m);
}

/// Negation keeps congruence.
pub proof fn lemma_neg_congruent(x: int, x2: int, m: int)
    requires
        m > 0,
        x % m == x2 % m,
    ensures
        (-x) % m == (-x2) % m,
{
    lemma_sub_mod_noop(0, x, m);
    lemma_sub_mod_noop(0, x2, m);
}

/// Products of congruent numbers are congruent.
pub proof fn lemma_mul_congruent(x: int, x2: int, y: int, y2: int, m: int)
    requires
        m > 0,
        x % m == x2 % m,
        y % m == y2 % m,
    ensures
        (x * y) % m == (x2 * y2) % m,
{
    lemma_mul_mod_noop_general(x, y, m);
    lemma_mul_mod_noop_general(x2, y2, m);
}

/// The partial sums of the product with a sum split into the partial sums of
/// the two products, modulo `m`.
proof fn lemma_wrap_sum_splits(p: Seq<int>, q: Seq<int>, r: Seq<int>, m: int, k: int, j: int)
    requires
        m > 0,
        p.len() == q.len(),
        p.len() == r.len(),
        0 <= k < p.len(),
        0 <= j <= p.len(),
    ensures
        wrap_sum(ring_add(p, q, m), r, k, j) % m == (wrap_sum(p, r, k, j) + wrap_sum(q, r, k, j))
            % m,
    decreases j,
{
    if j > 0 {
        let s = ring_add(p, q, m);
        let i: int = j - 1;
        lemma_wrap_sum_splits(p, q, r, m, k, i);
        let y: int = if i <= k {
            r[k - i]
        } else {
            r[k - i + p.len()]
        };
        assert(s[i] == (p[i] + q[i]) % m);
        lemma_mod_twice(p[i] + q[i], m);
        lemma_mul_congruent(s[i], p[i] + q[i], y, y, m);
        assert((p[i] + q[i]) * y == p[i] * y + q[i] * y) by (nonlinear_arith);
        if i <= k {
            assert(wrap_term(s, r, k, i) % m == (wrap_term(p, r, k, i) + wrap_term(q, r, k, i))
                % m);
        } else {
            lemma_neg_congruent(s[i] * y, p[i] * y + q[i] * y, m);
            assert(wrap_term(s, r, k, i) % m == (wrap_term(p, r, k, i) + wrap_term(q, r, k, i))
                % m);
        }
        lemma_add_congruent(
            wrap_sum(s, r, k, i),
            wrap_sum(p, r, k, i) + wrap_sum(q, r, k, i),
            wrap_term(s, r, k, i),
            wrap_term(p, r, k, i) + wrap_term(q, r, k, i),
            m,
        );
    }
}

/// Multiplication distributes over addition: `(P + Q) * R == P * R + Q * R`
/// in `Z_m[x]/(x^n + 1)`, for any three polynomials of one dimension.
pub proof fn law_mul_distributes_over_add(p: Seq<int>, q: Seq<int>, r: Seq<int>, m: int)
    requires
        m > 0,
        p.len() == q.len(),
        p.len() == r.len(),
    ensures
        ring_mul(ring_add(p, q, m), r, m) == ring_add(ring_mul(p, r, m), ring_mul(q, r, m), m),
{
    let n: int = p.len() as int;
    let lhs = ring_mul(ring_add(p, q, m), r, m);
    let rhs = ring_add(ring_mul(p, r, m), ring_mul(q, r, m), m);
    assert forall|k: int| 0 <= k < n implies lhs[k] == rhs[k] by {
        lemma_wrap_sum_splits(p, q, r, m, k, n);
        lemma_add_mod_noop(wrap_sum(p, r, k, n), wrap_sum(q, r, k, n), m);
    }
    assert(lhs =~= rhs);
}

/// `1` for an even number of wraps, `-1` for an odd one.
pub open spec fn sign(c: int) -> int {
    if c % 2 == 0 {
        1
    } else {
        -1
    }
}

/// The coefficient sequence continued to all exponents by `x^n = -1`:
/// `b[i mod n]`, negated once for each wrap.
pub open spec fn ext(b: Seq<int>, i: int) -> int {
    sign(i / (b.len() as int)) * b[i % (b.len() as int)]
}

/// The function `i -> a[i] * ext(b, k - i)`, whose sum over one period is
/// coefficient `k` of the product.
pub open spec fn conv_term(a: Seq<int>, b: Seq<int>, k: int) -> spec_fn(int) -> int {
    |i: int| a[i] * ext(b, k - i)
}

/// Coefficient `k` of the product, for any exponent `k`.
pub open spec fn conv(a: Seq<int>, b: Seq<int>, k: int) -> int {
    sum(conv_term(a, b, k), 0, a.len() as int)
}

/// Inside `[0, n)` the continuation is the sequence itself.
pub proof fn lemma_ext_inside(b: Seq<int>, i: int)
    requires
        0 <= i < b.len(),
    ensures
        ext(b, i) == b[i],
{
    let n: int = b.len() as int;
    lemma_small_mod(i as nat, n as nat);
    lemma_basic_div(i, n);
}

/// One wrap negates the continuation.
pub proof fn lemma_ext_flip(b: Seq<int>, i: int)
    requires
        b.len() > 0,
    ensures
        ext(b, i + b.len()) == -ext(b, i),
        ext(b, i - b.len()) == -ext(b, i),
{
    let n: int = b.len() as int;
    lemma_div_plus_one(i, n);
    lemma_mod_add_multiples_vanish(i, n);
    lemma_div_minus_one(i, n);
    lemma_mod_sub_multiples_vanish(i, n);
    let x: int = b[i % n];
    assert(sign(i / n + 1) * x == -(sign(i / n) * x)) by (nonlinear_arith)
        requires
            sign(i / n + 1) == -sign(i / n),
    ;
    assert(sign(i / n - 1) * x == -(sign(i / n) * x)) by (nonlinear_arith)
        requires
            sign(i / n - 1) == -sign(i / n),
    ;
}

/// The terms of the product are those of the continued sequence.
pub proof fn lemma_wrap_term_is_ext(a: Seq<int>, b: Seq<int>, k: int, i: int)
    requires
        a.len() == b.len(),
        0 <= k < a.len(),
        0 <= i < a.len(),
    ensures
        wrap_term(a, b, k, i) == conv_term(a, b, k)(i),
{
    if i <= k {
        lemma_ext_inside(b, k - i);
    } else {
        lemma_ext_inside(b, k - i + b.len());
        lemma_ext_flip(b, k - i);
        assert(a[i] * (-b[k - i + b.len()]) == -(a[i] * b[k - i + b.len()])) by (nonlinear_arith);
    }
}

/// The partial sums of the product are sums over the continued sequence.
pub proof fn lemma_wrap_sum_is_sum(a: Seq<int>, b: Seq<int>, k: int, m: int)
    requires
        a.len() == b.len(),
        0 <= k < a.len(),
        0 <= m <= a.len(),
    ensures
        wrap_sum(a, b, k, m) == sum(conv_term(a, b, k), 0, m),
    decreases m,
{
    if m > 0 {
        lemma_wrap_sum_is_sum(a, b, k, m - 1);
        lemma_wrap_term_is_ext(a, b, k, m - 1);
    }
}

/// Coefficient `k` of the product is the sum over the continued sequence.
pub proof fn lemma_product_is_conv(a: Seq<int>, b: Seq<int>, k: int)
    requires
        a.len() == b.len(),
        0 <= k < a.len(),
    ensures
        negacyclic_product(a, b)[k] == conv(a, b, k),
{
    lemma_wrap_sum_is_sum(a, b, k, a.len() as int);
}

/// One wrap of the exponent negates the coefficient.
pub proof fn lemma_conv_flip(a: Seq<int>, b: Seq<int>, k: int)
    requires
        a.len() == b.len(),
        a.len() > 0,
    ensures
        conv(a, b, k + a.len()) == -conv(a, b, k),
{
    let n: int = a.len() as int;
    let f = conv_term(a, b, k);
    let g = conv_term(a, b, k + n);
    let h = |i: int| (-1) * f(i);
    assert forall|i: int| 0 <= i < n implies #[trigger] g(i) == h(i) by {
        lemma_ext_flip(b, k - i);
        assert(a[i] * (-ext(b, k - i)) == (-1) * (a[i] * ext(b, k - i))) by (nonlinear_arith);
    }
    lemma_sum_ext(g, h, 0, n);
    lemma_sum_scale(f, -1, 0, n);
}

/// `c` wraps of the exponent multiply the coefficient by the sign of `c`.
pub proof fn lemma_conv_wraps(a: Seq<int>, b: Seq<int>, r: int, c: int)
    requires
        a.len() == b.len(),
        a.len() > 0,
    ensures
        conv(a, b, r + a.len() * c) == sign(c) * conv(a, b, r),
    decreases
            if c >= 0 {
                c
            } else {
                -c
            },
{
    let n: int = a.len() as int;
    if c == 0 {
        assert(n * 0 == 0);
    } else if c > 0 {
        lemma_conv_wraps(a, b, r, c - 1);
        lemma_conv_flip(a, b, r + n * (c - 1));
        assert(r + n * (c - 1) + n == r + n * c) by (nonlinear_arith);
        assert(-(sign(c - 1) * conv(a, b, r)) == sign(c) * conv(a, b, r)) by (nonlinear_arith)
            requires
                sign(c) == -sign(c - 1),
        ;
    } else {
        lemma_conv_wraps(a, b, r, c + 1);
        lemma_conv_flip(a, b, r + n * c);
        assert(r + n * c + n == r + n * (c + 1)) by (nonlinear_arith);
        assert(-(sign(c + 1) * conv(a, b, r)) == sign(c) * conv(a, b, r)) by (nonlinear_arith)
            requires
                sign(c) == -sign(c + 1),
        ;
    }
}

/// For every exponent, the sum over the continued sequence is the
/// continuation of the product.
pub proof fn lemma_conv_is_ext(a: Seq<int>, b: Seq<int>, k: int)
    requires
        a.len() == b.len(),
        a.len() > 0,
    ensures
        conv(a, b, k) == ext(negacyclic_product(a, b), k),
{
    let n: int = a.len() as int;
    lemma_fundamental_div_mod(k, n);
    lemma_mod_bound(k, n);
    lemma_conv_wraps(a, b, k % n, k / n);
    lemma_product_is_conv(a, b, k % n);
}

/// Multiplication in `Z[x]/(x^n + 1)` commutes, coefficient by coefficient
/// and for every exponent.
pub proof fn lemma_conv_commutes(a: Seq<int>, b: Seq<int>, k: int)
    requires
        a.len() == b.len(),
        a.len() > 0,
    ensures
        conv(a, b, k) == conv(b, a, k),
{
    let n: int = a.len() as int;
    let h = |i: int| ext(a, i) * ext(b, k - i);
    let mirrored = |j: int| h(k - j);
    assert forall|i: int| 0 <= i < n implies #[trigger] conv_term(a, b, k)(i) == h(i) by {
        lemma_ext_inside(a, i);
    }
    lemma_sum_ext(conv_term(a, b, k), h, 0, n);
    assert forall|i: int| #[trigger] h(i + n) == h(i) by {
        lemma_ext_flip(a, i);
        lemma_ext_flip(b, k - i);
        assert(k - (i + n) == (k - i) - n);
        assert((-ext(a, i)) * (-ext(b, k - i)) == ext(a, i) * ext(b, k - i)) by (nonlinear_arith);
    }
    lemma_sum_window(h, n, k - n + 1);
    lemma_sum_reflect(h, k - n + 1, k + 1, k);
    assert forall|j: int| 0 <= j < n implies #[trigger] mirrored(j) == conv_term(b, a, k)(j) by {
        lemma_ext_inside(b, j);
        assert(ext(a, k - j) * ext(b, j) == b[j] * ext(a, k - j)) by (nonlinear_arith)
            requires
                ext(b, j) == b[j],
        ;
    }
    lemma_sum_ext(mirrored, conv_term(b, a, k), 0, n);
}

/// The function `i -> ext(b, i - j) * ext(c, k - i)`: what the terms of a
/// triple product share once `a[j]` is taken out.
pub open spec fn inner_term(b: Seq<int>, c: Seq<int>, k: int, j: int) -> spec_fn(int) -> int {
    |i: int| ext(b, i - j) * ext(c, k - i)
}

/// Summed over one period, the inner terms give the continuation of the
/// product of `b` and `c` at `k - j`.
proof fn lemma_inner_sum(b: Seq<int>, c: Seq<int>, k: int, j: int)
    requires
        b.len() == c.len(),
        b.len() > 0,
    ensures
        sum(inner_term(b, c, k, j), 0, b.len() as int) == ext(negacyclic_product(b, c), k - j),
{
    let n: int = b.len() as int;
    let g = inner_term(b, c, k, j);
    let moved = |l: int| g(l + j);
    assert forall|i: int| #[trigger] g(i + n) == g(i) by {
        lemma_ext_flip(b, i - j);
        lemma_ext_flip(c, k - i);
        assert(i + n - j == (i - j) + n);
        assert(k - (i + n) == (k - i) - n);
        assert((-ext(b, i - j)) * (-ext(c, k - i)) == ext(b, i - j) * ext(c, k - i))
            by (nonlinear_arith);
    }
    lemma_sum_window(g, n, j);
    lemma_sum_shift(g, 0, n, j);
    assert forall|l: int| 0 <= l < n implies #[trigger] moved(l) == conv_term(b, c, k - j)(l) by {
        lemma_ext_inside(b, l);
        assert(l + j - j == l);
        assert(k - (l + j) == k - j - l);
    }
    lemma_sum_ext(moved, conv_term(b, c, k - j), 0, n);
    lemma_conv_is_ext(b, c, k - j);
}

/// Multiplication in `Z[x]/(x^n + 1)` associates, coefficient by
/// coefficient and for every exponent.
pub proof fn lemma_conv_associates(a: Seq<int>, b: Seq<int>, c: Seq<int>, k: int)
    requires
        a.len() == b.len(),
        a.len() == c.len(),
        a.len() > 0,
    ensures
        conv(negacyclic_product(a, b), c, k) == conv(a, negacyclic_product(b, c), k),
{
    let n: int = a.len() as int;
    let p = negacyclic_product(a, b);
    let q = negacyclic_product(b, c);
    let f = |i: int, j: int| ext(c, k - i) * (a[j] * ext(b, i - j));
    let rows = |i: int| sum(|j: int| f(i, j), 0, n);
    let columns = |j: int| sum(|i: int| f(i, j), 0, n);
    assert forall|i: int| 0 <= i < n implies #[trigger] conv_term(p, c, k)(i) == rows(i) by {
        let inner = conv_term(a, b, i);
        let scaled = |j: int| ext(c, k - i) * inner(j);
        lemma_product_is_conv(a, b, i);
        lemma_sum_scale(inner, ext(c, k - i), 0, n);
        lemma_sum_ext(scaled, |j: int| f(i, j), 0, n);
        assert(p[i] * ext(c, k - i) == ext(c, k - i) * p[i]) by (nonlinear_arith);
    }
    lemma_sum_ext(conv_term(p, c, k), rows, 0, n);
    lemma_sum_swap(f, n, n);
    assert forall|j: int| 0 <= j < n implies #[trigger] columns(j) == conv_term(a, q, k)(j) by {
        let g = inner_term(b, c, k, j);
        let scaled = |i: int| a[j] * g(i);
        assert forall|i: int| 0 <= i < n implies #[trigger] f(i, j) == scaled(i) by {
            assert(ext(c, k - i) * (a[j] * ext(b, i - j)) == a[j] * (ext(b, i - j) * ext(
                c,
                k - i,
            ))) by (nonlinear_arith);
        }
        lemma_sum_ext(|i: int| f(i, j), scaled, 0, n);
        lemma_sum_scale(g, a[j], 0, n);
        lemma_inner_sum(b, c, k, j);
    }
    lemma_sum_ext(columns, conv_term(a, q, k), 0, n);
}

/// The product is additive in its first factor.
pub proof fn lemma_conv_adds(p: Seq<int>, q: Seq<int>, r: Seq<int>, k: int)
    requires
        p.len() == q.len(),
        p.len() == r.len(),
    ensures
        conv(pointwise_sum(p, q), r, k) == conv(p, r, k) + conv(q, r, k),
{
    let n: int = p.len() as int;
    let s = pointwise_sum(p, q);
    let both = |i: int| conv_term(p, r, k)(i) + conv_term(q, r, k)(i);
    assert forall|i: int| 0 <= i < n implies #[trigger] conv_term(s, r, k)(i) == both(i) by {
        assert((p[i] + q[i]) * ext(r, k - i) == p[i] * ext(r, k - i) + q[i] * ext(r, k - i))
            by (nonlinear_arith);
    }
    lemma_sum_ext(conv_term(s, r, k), both, 0, n);
    lemma_sum_add(conv_term(p, r, k), conv_term(q, r, k), 0, n);
}

/// The product of a negated factor is the negated product.
pub proof fn lemma_conv_negates(p: Seq<int>, r: Seq<int>, k: int)
    requires
        p.len() == r.len(),
    ensures
        conv(pointwise_neg(p), r, k) == -conv(p, r, k),
{
    let n: int = p.len() as int;
    let s = pointwise_neg(p);
    let f = conv_term(p, r, k);
    let h = |i: int| (-1) * f(i);
    assert forall|i: int| 0 <= i < n implies #[trigger] conv_term(s, r, k)(i) == h(i) by {
        assert((-p[i]) * ext(r, k - i) == (-1) * (p[i] * ext(r, k - i))) by (nonlinear_arith);
    }
    lemma_sum_ext(conv_term(s, r, k), h, 0, n);
    lemma_sum_scale(f, -1, 0, n);
}

/// Two sequences of one length agree modulo `q` in every entry.
pub open spec fn congruent(x: Seq<int>, y: Seq<int>, q: int) -> bool {
    x.len() == y.len() && forall|i: int| 0 <= i < x.len() ==> #[trigger] x[i] % q == y[i] % q
}

/// The continuations of congruent sequences are congruent.
proof fn lemma_ext_congruent(b: Seq<int>, b2: Seq<int>, i: int, q: int)
    requires
        q > 0,
        b.len() > 0,
        congruent(b, b2, q),
    ensures
        ext(b, i) % q == ext(b2, i) % q,
{
    let n: int = b.len() as int;
    lemma_mod_bound(i, n);
    let x: int = b[i % n];
    let y: int = b2[i % n];
    assert(x % q == y % q);
    if sign(i / n) == 1 {
        assert(1 * x == x && 1 * y == y);
    } else {
        assert((-1) * x == -x && (-1) * y == -y);
        lemma_neg_congruent(x, y, q);
    }
}

/// Products of congruent factors are congruent.
pub proof fn lemma_conv_congruent(
    a: Seq<int>,
    a2: Seq<int>,
    b: Seq<int>,
    b2: Seq<int>,
    k: int,
    q: int,
)
    requires
        q > 0,
        a.len() == b.len(),
        congruent(a, a2, q),
        congruent(b, b2, q),
    ensures
        conv(a, b, k) % q == conv(a2, b2, k) % q,
{
    let n: int = a.len() as int;
    assert forall|i: int| 0 <= i < n implies #[trigger] conv_term(a, b, k)(i) % q == conv_term(
        a2,
        b2,
        k,
    )(i) % q by {
        lemma_ext_congruent(b, b2, k - i, q);
        assert(a[i] % q == a2[i] % q);
        lemma_mul_congruent(a[i], a2[i], ext(b, k - i), ext(b2, k - i), q);
    }
    lemma_sum_congruent(conv_term(a, b, k), conv_term(a2, b2, k), 0, n, q);
}

/// A product of factors within `x` and `y` of zero lies within `n * x * y`.
pub proof fn lemma_conv_bound(a: Seq<int>, b: Seq<int>, k: int, x: int, y: int)
    requires
        a.len() == b.len(),
        a.len() > 0,
        forall|i: int| 0 <= i < a.len() ==> -x <= #[trigger] a[i] <= x,
        forall|i: int| 0 <= i < b.len() ==> -y <= #[trigger] b[i] <= y,
    ensures
        -(a.len() * (x * y)) <= conv(a, b, k) <= a.len() * (x * y),
{
    let n: int = a.len() as int;
    assert forall|i: int| 0 <= i < n implies -(x * y) <= #[trigger] conv_term(a, b, k)(i) <= x
        * y by {
        let m: int = (k - i) % n;
        lemma_mod_bound(k - i, n);
        let u: int = a[i];
        let w: int = b[m];
        let e: int = ext(b, k - i);
        assert(-y <= w <= y);
        assert(-y <= e <= y) by {
            assert(1 * w == w && (-1) * w == -w);
        }
        assert(-(x * y) <= u * e <= x * y) by (nonlinear_arith)
            requires
                -x <= u <= x,
                -y <= e <= y,
        ;
    }
    lemma_sum_bound(conv_term(a, b, k), 0, n, x * y);
    assert((n - 0) * (x * y) == a.len() * (x * y));
}

/// Multiplication commutes: `P * Q == Q * P` in `Z_m[x]/(x^n + 1)`.
pub proof fn law_mul_commutes(p: Seq<int>, q: Seq<int>, m: int)
    requires
        p.len() == q.len(),
    ensures
        ring_mul(p, q, m) == ring_mul(q, p, m),
{
    let lhs = ring_mul(p, q, m);
    let rhs = ring_mul(q, p, m);
    assert forall|k: int| 0 <= k < p.len() implies lhs[k] == rhs[k] by {
        lemma_product_is_conv(p, q, k);
        lemma_product_is_conv(q, p, k);
        lemma_conv_commutes(p, q, k);
    }
    assert(lhs =~= rhs);
}

/// Reducing the coefficients changes no residue.
pub proof fn lemma_reduce_congruent(x: Seq<int>, m: int)
    requires
        m > 0,
    ensures
        congruent(ring_reduce(x, m), x, m),
        congruent(x, ring_reduce(x, m), m),
        congruent(x, x, m),
{
    assert forall|i: int| 0 <= i < x.len() implies #[trigger] ring_reduce(x, m)[i] % m == x[i]
        % m by {
        lemma_mod_twice(x[i], m);
    }
}

/// Multiplication associates: `(P * Q) * R == P * (Q * R)` in
/// `Z_m[x]/(x^n + 1)`.
pub proof fn law_mul_associates(p: Seq<int>, q: Seq<int>, r: Seq<int>, m: int)
    requires
        m > 0,
        p.len() == q.len(),
        p.len() == r.len(),
    ensures
        ring_mul(ring_mul(p, q, m), r, m) == ring_mul(p, ring_mul(q, r, m), m),
{
    let lhs = ring_mul(ring_mul(p, q, m), r, m);
    let rhs = ring_mul(p, ring_mul(q, r, m), m);
    let pq = negacyclic_product(p, q);
    let qr = negacyclic_product(q, r);
    assert forall|k: int| 0 <= k < p.len() implies lhs[k] == rhs[k] by {
        lemma_product_is_conv(ring_mul(p, q, m), r, k);
        lemma_product_is_conv(p, ring_mul(q, r, m), k);
        lemma_reduce_congruent(pq, m);
        lemma_reduce_congruent(qr, m);
        lemma_reduce_congruent(r, m);
        lemma_reduce_congruent(p, m);
        lemma_conv_congruent(ring_mul(p, q, m), pq, r, r, k, m);
        lemma_conv_congruent(p, p, ring_mul(q, r, m), qr, k, m);
        lemma_conv_associates(p, q, r, k);
    }
    assert(lhs =~= rhs);
}

/// The sum in the ring of congruent sequences is congruent to their sum
/// over the integers.
pub proof fn lemma_ring_add_congruent(x: Seq<int>, x2: Seq<int>, y: Seq<int>, y2: Seq<int>, m: int)
    requires
        m > 0,
        x.len() == y.len(),
        congruent(x, x2, m),
        congruent(y, y2, m),
    ensures
        congruent(ring_add(x, y, m), pointwise_sum(x2, y2), m),
{
    assert forall|i: int| 0 <= i < x.len() implies #[trigger] ring_add(x, y, m)[i] % m
        == pointwise_sum(x2, y2)[i] % m by {
        assert(x[i] % m == x2[i] % m);
        assert(y[i] % m == y2[i] % m);
        lemma_add_congruent(x[i], x2[i], y[i], y2[i], m);
        lemma_mod_twice(x[i] + y[i], m);
    }
}

/// The negation in the ring of a congruent sequence is congruent to its
/// negation over the integers.
pub proof fn lemma_ring_neg_congruent(x: Seq<int>, x2: Seq<int>, m: int)
    requires
        m > 0,
        congruent(x, x2, m),
    ensures
        congruent(ring_neg(x, m), pointwise_neg(x2), m),
{
    assert forall|i: int| 0 <= i < x.len() implies #[trigger] ring_neg(x, m)[i] % m
        == pointwise_neg(x2)[i] % m by {
        assert(x[i] % m == x2[i] % m);
        lemma_neg_congruent(x[i], x2[i], m);
        lemma_mod_twice(-x[i], m);
    }
}

/// The product in the ring of congruent sequences is congruent to their
/// product over the integers.
pub proof fn lemma_ring_mul_congruent(x: Seq<int>, x2: Seq<int>, y: Seq<int>, y2: Seq<int>, m: int)
    requires
        m > 0,
        x.len() == y.len(),
        congruent(x, x2, m),
        congruent(y, y2, m),
    ensures
        congruent(ring_mul(x, y, m), negacyclic_product(x2, y2), m),
{
    assert forall|k: int| 0 <= k < x.len() implies #[trigger] ring_mul(x, y, m)[k] % m
        == negacyclic_product(x2, y2)[k] % m by {
        lemma_product_is_conv(x, y, k);
        lemma_product_is_conv(x2, y2, k);
        lemma_conv_congruent(x, x2, y, y2, k, m);
        lemma_mod_twice(conv(x, y, k), m);
    }
}

/// A sequence scaled in the ring is congruent to the sequence scaled over
/// the integers.
pub proof fn lemma_ring_scale_congruent(x: Seq<int>, c: int, m: int)
    requires
        m > 0,
    ensures
        congruent(ring_scale(x, c, m), pointwise_scale(c, x), m),
{
    let scaled = pointwise_scale(c, x);
    assert forall|i: int| 0 <= i < x.len() implies #[trigger] ring_scale(x, c, m)[i] % m
        == scaled[i] % m by {
        lemma_mod_twice(x[i] * c, m);
        assert(x[i] * c == c * x[i]) by (nonlinear_arith);
    }
}

/// A constant factor can be taken out of the first factor of a product.
pub proof fn lemma_conv_scales(c: int, p: Seq<int>, r: Seq<int>, k: int)
    requires
        p.len() == r.len(),
    ensures
        conv(pointwise_scale(c, p), r, k) == c * conv(p, r, k),
{
    let n: int = p.len() as int;
    let s = pointwise_scale(c, p);
    let f = conv_term(p, r, k);
    let h = |i: int| c * f(i);
    assert forall|i: int| 0 <= i < n implies #[trigger] conv_term(s, r, k)(i) == h(i) by {
        assert((c * p[i]) * ext(r, k - i) == c * (p[i] * ext(r, k - i))) by (nonlinear_arith);
    }
    lemma_sum_ext(conv_term(s, r, k), h, 0, n);
    lemma_sum_scale(f, c, 0, n);
}

/// The product is additive in its second factor.
pub proof fn lemma_conv_adds_right(r: Seq<int>, p: Seq<int>, q: Seq<int>, k: int)
    requires
        p.len() == q.len(),
        p.len() == r.len(),
        p.len() > 0,
    ensures
        conv(r, pointwise_sum(p, q), k) == conv(r, p, k) + conv(r, q, k),
{
    lemma_conv_commutes(r, pointwise_sum(p, q), k);
    lemma_conv_commutes(r, p, k);
    lemma_conv_commutes(r, q, k);
    lemma_conv_adds(p, q, r, k);
}

/// A constant factor can be taken out of the second factor of a product.
pub proof fn lemma_conv_scales_right(c: int, r: Seq<int>, p: Seq<int>, k: int)
    requires
        p.len() == r.len(),
        p.len() > 0,
    ensures
        conv(r, pointwise_scale(c, p), k) == c * conv(r, p, k),
{
    lemma_conv_commutes(r, pointwise_scale(c, p), k);
    lemma_conv_commutes(r, p, k);
    lemma_conv_scales(c, p, r, k);
}

/// The product with `d * m + e + q * r` as its second factor, term by term.
pub proof fn lemma_conv_affine_right(
    x: Seq<int>,
    m: Seq<int>,
    e: Seq<int>,
    r: Seq<int>,
    d: int,
    q: int,
    k: int,
)
    requires
        x.len() > 0,
        x.len() == m.len(),
        x.len() == e.len(),
        x.len() == r.len(),
    ensures
        conv(x, pointwise_sum(pointwise_sum(pointwise_scale(d, m), e), pointwise_scale(q, r)), k)
            == d * conv(x, m, k) + conv(x, e, k) + q * conv(x, r, k),
{
    lemma_conv_adds_right(
        x,
        pointwise_sum(pointwise_scale(d, m), e),
        pointwise_scale(q, r),
        k,
    );
    lemma_conv_adds_right(x, pointwise_scale(d, m), e, k);
    lemma_conv_scales_right(d, x, m, k);
    lemma_conv_scales_right(q, x, r, k);
}

/// The product with `d * m + e + q * r` as its first factor, term by term.
pub proof fn lemma_conv_affine_left(
    m: Seq<int>,
    e: Seq<int>,
    r: Seq<int>,
    d: int,
    q: int,
    y: Seq<int>,
    k: int,
)
    requires
        y.len() > 0,
        y.len() == m.len(),
        y.len() == e.len(),
        y.len() == r.len(),
    ensures
        conv(pointwise_sum(pointwise_sum(pointwise_scale(d, m), e), pointwise_scale(q, r)), y, k)
            == d * conv(m, y, k) + conv(e, y, k) + q * conv(r, y, k),
{
    lemma_conv_adds(pointwise_sum(pointwise_scale(d, m), e), pointwise_scale(q, r), y, k);
    lemma_conv_adds(pointwise_scale(d, m), e, y, k);
    lemma_conv_scales(d, m, y, k);
    lemma_conv_scales(q, r, y, k);
}

/// Multiplication in `Z[x]/(x^n + 1)` commutes.
pub proof fn law_product_commutes(a: Seq<int>, b: Seq<int>)
    requires
        a.len() == b.len(),
    ensures
        negacyclic_product(a, b) == negacyclic_product(b, a),
{
    let lhs = negacyclic_product(a, b);
    let rhs = negacyclic_product(b, a);
    assert forall|k: int| 0 <= k < a.len() implies lhs[k] == rhs[k] by {
        lemma_product_is_conv(a, b, k);
        lemma_product_is_conv(b, a, k);
        lemma_conv_commutes(a, b, k);
    }
    assert(lhs =~= rhs);
}

/// Multiplication in `Z[x]/(x^n + 1)` associates.
pub proof fn law_product_associates(a: Seq<int>, b: Seq<int>, c: Seq<int>)
    requires
        a.len() == b.len(),
        a.len() == c.len(),
    ensures
        negacyclic_product(negacyclic_product(a, b), c) == negacyclic_product(
            a,
            negacyclic_product(b, c),
        ),
{
    let lhs = negacyclic_product(negacyclic_product(a, b), c);
    let rhs = negacyclic_product(a, negacyclic_product(b, c));
    assert forall|k: int| 0 <= k < a.len() implies lhs[k] == rhs[k] by {
        lemma_product_is_conv(negacyclic_product(a, b), c, k);
        lemma_product_is_conv(a, negacyclic_product(b, c), k);
        lemma_conv_associates(a, b, c, k);
    }
    assert(lhs =~= rhs);
}

/// Three factors can change places: `(a * s) * u == (a * u) * s`.
pub proof fn lemma_product_regroups(a: Seq<int>, s: Seq<int>, u: Seq<int>)
    requires
        a.len() == s.len(),
        a.len() == u.len(),
    ensures
        negacyclic_product(negacyclic_product(a, s), u) == negacyclic_product(
            negacyclic_product(a, u),
            s,
        ),
{
    law_product_associates(a, s, u);
    law_product_associates(a, u, s);
    law_product_commutes(s, u);
}

/// The product of two products with a common factor:
/// `(x * s) * (y * s) == (x * y) * (s * s)`.
pub proof fn lemma_product_of_products(x: Seq<int>, y: Seq<int>, s: Seq<int>)
    requires
        x.len() == y.len(),
        x.len() == s.len(),
    ensures
        negacyclic_product(negacyclic_product(x, s), negacyclic_product(y, s))
            == negacyclic_product(negacyclic_product(x, y), negacyclic_product(s, s)),
{
    let ys = negacyclic_product(y, s);
    let ss = negacyclic_product(s, s);
    law_product_associates(x, s, ys);
    law_product_commutes(s, ys);
    law_product_associates(y, s, s);
    law_product_associates(x, y, ss);
}

} // verus!
