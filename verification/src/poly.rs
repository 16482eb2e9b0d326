//! Elements of the ring `Z_q[x]/(x^n + 1)`.
//!
//! A [`Polynomial`] holds `n` coefficients in `[0, q)` and never changes once
//! built; every operation returns a new one.

use crate::error::EngineError;
use vstd::arithmetic::div_mod::*;
use vstd::prelude::*;

verus! {

/// The mathematical value of a [`Polynomial`].
pub struct RingElement {
    /// Coefficient `i` belongs to `x^i`.
    pub coeffs: Seq<int>,
    /// The modulus `q` of the coefficients.
    pub modulus: int,
}

impl RingElement {
    /// The number of coefficients, `n`.
    pub open spec fn dimension(self) -> nat {
        self.coeffs.len()
    }

    /// The modulus is positive and every coefficient lies in `[0, q)`.
    pub open spec fn wf(self) -> bool {
        self.modulus > 0 && reduced(self.coeffs, self.modulus)
    }
}

/// Every entry of `c` lies in `[0, q)`.
pub open spec fn reduced(c: Seq<int>, q: int) -> bool {
    forall|i: int| 0 <= i < c.len() ==> 0 <= #[trigger] c[i] < q
}

/// Each entry of `c` reduced modulo `q`.
pub open spec fn ring_reduce(c: Seq<int>, q: int) -> Seq<int> {
    Seq::new(c.len(), |i: int| c[i] % q)
}

/// The coefficientwise sum modulo `q`.
pub open spec fn ring_add(a: Seq<int>, b: Seq<int>, q: int) -> Seq<int> {
    Seq::new(a.len(), |i: int| (a[i] + b[i]) % q)
}

/// The coefficientwise sum over the integers, with no reduction.
pub open spec fn pointwise_sum(a: Seq<int>, b: Seq<int>) -> Seq<int> {
    Seq::new(a.len(), |i: int| a[i] + b[i])
}

/// The coefficientwise negation over the integers, with no reduction.
pub open spec fn pointwise_neg(a: Seq<int>) -> Seq<int> {
    Seq::new(a.len(), |i: int| -a[i])
}

/// Each coefficient multiplied by `c` over the integers, with no reduction.
pub open spec fn pointwise_scale(c: int, a: Seq<int>) -> Seq<int> {
    Seq::new(a.len(), |i: int| c * a[i])
}

/// The coefficientwise difference modulo `q`.
pub open spec fn ring_sub(a: Seq<int>, b: Seq<int>, q: int) -> Seq<int> {
    Seq::new(a.len(), |i: int| (a[i] - b[i]) % q)
}

/// The additive inverse modulo `q`.
pub open spec fn ring_neg(a: Seq<int>, q: int) -> Seq<int> {
    Seq::new(a.len(), |i: int| (-a[i]) % q)
}

/// Each coefficient multiplied by the number `c`, modulo `q`.
pub open spec fn ring_scale(a: Seq<int>, c: int, q: int) -> Seq<int> {
    Seq::new(a.len(), |i: int| (a[i] * c) % q)
}

/// What `a[i]` contributes to coefficient `k` of the product modulo
/// `x^n + 1`: the partner `b[k - i]`, or `-b[k - i + n]` once `x^n = -1` has
/// wrapped the exponent round.
pub open spec fn wrap_term(a: Seq<int>, b: Seq<int>, k: int, i: int) -> int {
    if i <= k {
        a[i] * b[k - i]
    } else {
        -(a[i] * b[k - i + a.len()])
    }
}

/// The sum of the first `m` contributions to coefficient `k` of the product.
pub open spec fn wrap_sum(a: Seq<int>, b: Seq<int>, k: int, m: int) -> int
    decreases m,
{
    if m <= 0 {
        0
    } else {
        wrap_sum(a, b, k, m - 1) + wrap_term(a, b, k, m - 1)
    }
}

/// The product in `Z[x]/(x^n + 1)`, with no reduction of the coefficients.
pub open spec fn negacyclic_product(a: Seq<int>, b: Seq<int>) -> Seq<int> {
    Seq::new(a.len(), |k: int| wrap_sum(a, b, k, a.len() as int))
}

/// The product in `Z_q[x]/(x^n + 1)`.
pub open spec fn ring_mul(a: Seq<int>, b: Seq<int>, q: int) -> Seq<int> {
    ring_reduce(negacyclic_product(a, b), q)
}

/// The integer nearest to `x / d`, a tie going up.
pub open spec fn round_div(x: int, d: int) -> int {
    x / d + if 2 * (x % d) >= d {
        1int
    } else {
        0int
    }
}

/// Each coefficient multiplied by `num / den`, rounded, and reduced modulo `q`.
pub open spec fn ring_scale_round(a: Seq<int>, num: int, den: int, q: int) -> Seq<int> {
    Seq::new(a.len(), |i: int| round_div(a[i] * num, den) % q)
}

/// Words read as integers.
pub open spec fn as_ints(words: Seq<u64>) -> Seq<int> {
    Seq::new(words.len(), |i: int| words[i] as int)
}

/// An element of `Z_q[x]/(x^n + 1)`.
#[derive(Debug, PartialEq, Eq)]
pub struct Polynomial {
    coeffs: Vec<u64>,
    modulus: u64,
}

impl View for Polynomial {
    type V = RingElement;

    closed spec fn view(&self) -> RingElement {
        RingElement { coeffs: as_ints(self.coeffs@), modulus: self.modulus as int }
    }
}

impl Clone for Polynomial {
    fn clone(&self) -> (copy: Self)
        ensures
            copy@ == self@,
    {
        let coeffs: Vec<u64> = self.coeffs.clone();
        assert(coeffs@ =~= self.coeffs@);
        Polynomial { coeffs, modulus: self.modulus }
    }
}

impl Polynomial {
    /// The invariant of the type: a positive modulus and reduced coefficients.
    pub open spec fn wf(&self) -> bool {
        self@.wf()
    }

    /// The polynomial with the given coefficients, each reduced modulo `modulus`.
    pub fn from_coefficients(coeffs: Vec<u64>, modulus: u64) -> (p: Polynomial)
        requires
            modulus > 0,
        ensures
            p.wf(),
            p@.modulus == modulus,
            p@.coeffs == ring_reduce(as_ints(coeffs@), modulus as int),
    {
        let n: usize = coeffs.len();
        let mut out: Vec<u64> = Vec::new();
        let mut i: usize = 0;
        while i < n
            invariant
                modulus > 0,
                n == coeffs.len(),
                i <= n,
                out.len() == i,
                forall|j: int| 0 <= j < i ==> #[trigger] out[j] == coeffs[j] % modulus,
            decreases n - i,
        {
            out.push(coeffs[i] % modulus);
            i += 1;
        }
        let p = Polynomial { coeffs: out, modulus };
        assert(p@.coeffs =~= ring_reduce(as_ints(coeffs@), modulus as int));
        p
    }

    /// The zero polynomial of dimension `n`.
    pub fn zero(n: usize, modulus: u64) -> (p: Polynomial)
        requires
            modulus > 0,
        ensures
            p.wf(),
            p@.modulus == modulus,
            p@.coeffs == Seq::new(n as nat, |i: int| 0int),
    {
        Polynomial::constant(n, 0, modulus)
    }

    /// The constant polynomial `value mod modulus` of dimension `n`.
    pub fn constant(n: usize, value: u64, modulus: u64) -> (p: Polynomial)
        requires
            modulus > 0,
        ensures
            p.wf(),
            p@.modulus == modulus,
            p@.coeffs == Seq::new(
                n as nat,
                |i: int|
                    if i == 0 {
                        value as int % modulus as int
                    } else {
                        0int
                    },
            ),
    {
        let mut out: Vec<u64> = Vec::new();
        let mut i: usize = 0;
        while i < n
            invariant
                modulus > 0,
                i <= n,
                out.len() == i,
                forall|j: int|
                    0 <= j < i ==> #[trigger] out[j] == if j == 0 {
                        value as int % modulus as int
                    } else {
                        0int
                    },
            decreases n - i,
        {
            if i == 0 {
                out.push(value % modulus);
            } else {
                out.push(0);
            }
            i += 1;
        }
        let p = Polynomial { coeffs: out, modulus };
        assert(p@.coeffs =~= Seq::new(
            n as nat,
            |i: int|
                if i == 0 {
                    value as int % modulus as int
                } else {
                    0int
                },
        ));
        p
    }

    /// The dimension `n` of the ring.
    pub fn len(&self) -> (n: usize)
        ensures
            n == self@.dimension(),
    {
        self.coeffs.len()
    }

    /// The modulus `q` of the coefficients.
    pub fn modulus(&self) -> (q: u64)
        ensures
            q == self@.modulus,
    {
        self.modulus
    }

    /// The coefficient of `x^i`.
    pub fn coeff(&self, i: usize) -> (c: u64)
        requires
            i < self@.dimension(),
        ensures
            c == self@.coeffs[i as int],
    {
        self.coeffs[i]
    }

    /// All coefficients, lowest degree first.
    pub fn coefficients(&self) -> (c: Vec<u64>)
        ensures
            as_ints(c@) == self@.coeffs,
    {
        let c: Vec<u64> = self.coeffs.clone();
        assert(c@ =~= self.coeffs@);
        c
    }

    /// Whether the two polynomials can be combined, and the failure if not:
    /// a different dimension first, then a different modulus.
    pub open spec fn mismatch(&self, other: &Polynomial) -> Option<EngineError> {
        if self@.dimension() != other@.dimension() {
            Some(EngineError::DimensionMismatch)
        } else if self@.modulus != other@.modulus {
            Some(EngineError::LevelMismatch)
        } else {
            None
        }
    }

    fn check_match(&self, other: &Polynomial) -> (r: Option<EngineError>)
        ensures
            r == self.mismatch(other),
    {
        if self.coeffs.len() != other.coeffs.len() {
            Some(EngineError::DimensionMismatch)
        } else if self.modulus != other.modulus {
            Some(EngineError::LevelMismatch)
        } else {
            None
        }
    }

    /// The sum of two polynomials of one ring.
    pub fn add(&self, other: &Polynomial) -> (r: Result<Polynomial, EngineError>)
        requires
            self.wf(),
            other.wf(),
        ensures
            match r {
                Ok(p) => self.mismatch(other) is None && p.wf() && p@.modulus == self@.modulus
                    && p@.coeffs == ring_add(self@.coeffs, other@.coeffs, self@.modulus),
                Err(e) => self.mismatch(other) == Some(e),
            },
    {
        if let Some(e) = self.check_match(other) {
            return Err(e);
        }
        let n: usize = self.coeffs.len();
        let q: u64 = self.modulus;
        let mut out: Vec<u64> = Vec::new();
        let mut i: usize = 0;
        while i < n
            invariant
                q > 0,
                q == self.modulus,
                n == self.coeffs.len(),
                n == other.coeffs.len(),
                i <= n,
                out.len() == i,
                forall|j: int|
                    0 <= j < i ==> #[trigger] out[j] == (self.coeffs[j] + other.coeffs[j]) % (
                    q as int),
            decreases n - i,
        {
            out.push(crate::modular::add(self.coeffs[i], other.coeffs[i], q));
            i += 1;
        }
        let p = Polynomial { coeffs: out, modulus: q };
        assert(p@.coeffs =~= ring_add(self@.coeffs, other@.coeffs, self@.modulus));
        Ok(p)
    }

    /// The difference of two polynomials of one ring.
    pub fn sub(&self, other: &Polynomial) -> (r: Result<Polynomial, EngineError>)
        requires
            self.wf(),
            other.wf(),
        ensures
            match r {
                Ok(p) => self.mismatch(other) is None && p.wf() && p@.modulus == self@.modulus
                    && p@.coeffs == ring_sub(self@.coeffs, other@.coeffs, self@.modulus),
                Err(e) => self.mismatch(other) == Some(e),
            },
    {
        if let Some(e) = self.check_match(other) {
            return Err(e);
        }
        let n: usize = self.coeffs.len();
        let q: u64 = self.modulus;
        let mut out: Vec<u64> = Vec::new();
        let mut i: usize = 0;
        while i < n
            invariant
                q > 0,
                q == self.modulus,
                n == self.coeffs.len(),
                n == other.coeffs.len(),
                i <= n,
                out.len() == i,
                forall|j: int|
                    0 <= j < i ==> #[trigger] out[j] == (self.coeffs[j] - other.coeffs[j]) % (
                    q as int),
            decreases n - i,
        {
            out.push(crate::modular::sub(self.coeffs[i], other.coeffs[i], q));
            i += 1;
        }
        let p = Polynomial { coeffs: out, modulus: q };
        assert(p@.coeffs =~= ring_sub(self@.coeffs, other@.coeffs, self@.modulus));
        Ok(p)
    }

    /// The additive inverse.
    pub fn neg(&self) -> (p: Polynomial)
        requires
            self.wf(),
        ensures
            p.wf(),
            p@.modulus == self@.modulus,
            p@.coeffs == ring_neg(self@.coeffs, self@.modulus),
    {
        let n: usize = self.coeffs.len();
        let q: u64 = self.modulus;
        let mut out: Vec<u64> = Vec::new();
        let mut i: usize = 0;
        while i < n
            invariant
                q > 0,
                q == self.modulus,
                n == self.coeffs.len(),
                i <= n,
                out.len() == i,
                forall|j: int| 0 <= j < i ==> #[trigger] out[j] == (-self.coeffs[j]) % (q as int),
            decreases n - i,
        {
            out.push(crate::modular::sub(0, self.coeffs[i], q));
            i += 1;
        }
        let p = Polynomial { coeffs: out, modulus: q };
        assert(p@.coeffs =~= ring_neg(self@.coeffs, self@.modulus));
        p
    }

    /// The polynomial multiplied by the number `c`.
    pub fn scale(&self, c: u64) -> (p: Polynomial)
        requires
            self.wf(),
        ensures
            p.wf(),
            p@.modulus == self@.modulus,
            p@.coeffs == ring_scale(self@.coeffs, c as int, self@.modulus),
    {
        let n: usize = self.coeffs.len();
        let q: u64 = self.modulus;
        let mut out: Vec<u64> = Vec::new();
        let mut i: usize = 0;
        while i < n
            invariant
                q > 0,
                q == self.modulus,
                n == self.coeffs.len(),
                i <= n,
                out.len() == i,
                forall|j: int| 0 <= j < i ==> #[trigger] out[j] == (self.coeffs[j] * c) % (q as int),
            decreases n - i,
        {
            out.push(crate::modular::mul(self.coeffs[i], c, q));
            i += 1;
        }
        let p = Polynomial { coeffs: out, modulus: q };
        assert(p@.coeffs =~= ring_scale(self@.coeffs, c as int, self@.modulus));
        p
    }

    /// The product of two polynomials of one ring, by negacyclic convolution.
    pub fn mul(&self, other: &Polynomial) -> (r: Result<Polynomial, EngineError>)
        requires
            self.wf(),
            other.wf(),
        ensures
            match r {
                Ok(p) => self.mismatch(other) is None && p.wf() && p@.modulus == self@.modulus
                    && p@.coeffs == ring_mul(self@.coeffs, other@.coeffs, self@.modulus),
                Err(e) => self.mismatch(other) == Some(e),
            },
    {
        if let Some(e) = self.check_match(other) {
            return Err(e);
        }
        let n: usize = self.coeffs.len();
        let q: u64 = self.modulus;
        let ghost a: Seq<int> = self@.coeffs;
        let ghost b: Seq<int> = other@.coeffs;
        let mut out: Vec<u64> = Vec::new();
        let mut k: usize = 0;
        while k < n
            invariant
                q > 0,
                q == self.modulus,
                n == self.coeffs.len(),
                n == other.coeffs.len(),
                a == self@.coeffs,
                b == other@.coeffs,
                k <= n,
                out.len() == k,
                forall|j: int| 0 <= j < k ==> #[trigger] out[j] == wrap_sum(a, b, j, n as int) % (q as int),
            decreases n - k,
        {
            let mut acc: u64 = 0;
            let mut i: usize = 0;
            proof {
                lemma_small_mod(0, q as nat);
            }
            while i < n
                invariant
                    q > 0,
                    q == self.modulus,
                    n == self.coeffs.len(),
                    n == other.coeffs.len(),
                    a == self@.coeffs,
                    b == other@.coeffs,
                    k < n,
                    i <= n,
                    acc == wrap_sum(a, b, k as int, i as int) % (q as int),
                decreases n - i,
            {
                let ghost before: int = wrap_sum(a, b, k as int, i as int);
                if i <= k {
                    let prod: u64 = crate::modular::mul(self.coeffs[i], other.coeffs[k - i], q);
                    proof {
                        lemma_add_mod_noop(before, a[i as int] * b[k - i], q as int);
                    }
                    acc = crate::modular::add(acc, prod, q);
                } else {
                    let prod: u64 = crate::modular::mul(
                        self.coeffs[i],
                        other.coeffs[n - (i - k)],
                        q,
                    );
                    proof {
                        lemma_sub_mod_noop(before, a[i as int] * b[k - i + n], q as int);
                    }
                    acc = crate::modular::sub(acc, prod, q);
                }
                i += 1;
            }
            out.push(acc);
            k += 1;
        }
        let p = Polynomial { coeffs: out, modulus: q };
        assert(p@.coeffs =~= ring_mul(self@.coeffs, other@.coeffs, self@.modulus));
        Ok(p)
    }

    /// Each coefficient multiplied by `num / den` and rounded to the nearest
    /// integer, a tie going up; the result is reduced modulo `q` again.
    pub fn scale_round(&self, num: u64, den: u64) -> (p: Polynomial)
        requires
            self.wf(),
            den > 0,
        ensures
            p.wf(),
            p@.modulus == self@.modulus,
            p@.coeffs == ring_scale_round(self@.coeffs, num as int, den as int, self@.modulus),
    {
        let n: usize = self.coeffs.len();
        let q: u64 = self.modulus;
        let mut out: Vec<u64> = Vec::new();
        let mut i: usize = 0;
        while i < n
            invariant
                q > 0,
                den > 0,
                q == self.modulus,
                n == self.coeffs.len(),
                i <= n,
                out.len() == i,
                forall|j: int|
                    0 <= j < i ==> #[trigger] out[j] == round_div(
                        self.coeffs[j] * num,
                        den as int,
                    ) % (q as int),
            decreases n - i,
        {
            out.push(scaled_coefficient(self.coeffs[i], num, den, q));
            i += 1;
        }
        let p = Polynomial { coeffs: out, modulus: q };
        assert(p@.coeffs =~= ring_scale_round(
            self@.coeffs,
            num as int,
            den as int,
            self@.modulus,
        ));
        p
    }
}

/// `c * num / den` rounded to the nearest integer and reduced modulo `q`.
pub fn scaled_coefficient(c: u64, num: u64, den: u64, q: u64) -> (r: u64)
    requires
        den > 0,
        q > 0,
    ensures
        r == round_div(c * num, den as int) % (q as int),
{
    assert(c * num <= 0xffff_ffff_ffff_ffff * 0xffff_ffff_ffff_ffff) by (nonlinear_arith)
        requires
            c <= 0xffff_ffff_ffff_ffff,
            num <= 0xffff_ffff_ffff_ffff,
    ;
    let wide: u128 = c as u128 * num as u128;
    let quotient: u128 = wide / (den as u128);
    let remainder: u128 = wide % (den as u128);
    let rounded: u128 = if 2 * remainder >= den as u128 {
        quotient + 1
    } else {
        quotient
    };
    (rounded % (q as u128)) as u64
}

} // verus!
