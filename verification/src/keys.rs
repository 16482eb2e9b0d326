//! Key generation: the secret key, the public key and the evaluation key of
//! one parameter set, each a function of the random words it was drawn from.

use crate::error::EngineError;
use crate::params::{count_digits, ParameterSet, Parameters, RELIN_BASE};
use crate::poly::{ring_add, ring_mul, ring_neg, ring_scale, Polynomial, RingElement};
use crate::random::RandomSource;
use crate::sampling::{
    lemma_ternary_residues,
    noise_poly,
    sample_noise,
    sample_ternary,
    sample_uniform,
    ternary,
    ternary_poly,
    uniform_poly,
};
use vstd::arithmetic::div_mod::*;
use vstd::arithmetic::power::*;
use vstd::prelude::*;

verus! {

/// The `i`-th run of `n` words of a stream.
pub open spec fn chunk(words: Seq<u64>, i: int, n: int) -> Seq<u64> {
    words.subrange(i * n, (i + 1) * n)
}

/// The `i`-th and the next run of `n` words of a stream: the `2 * n` words
/// that one uniform polynomial takes.
pub open spec fn double_chunk(words: Seq<u64>, i: int, n: int) -> Seq<u64> {
    words.subrange(i * n, (i + 2) * n)
}

/// `-(a * s + e)`: a ring element that `s` unmasks to the small error `-e`.
pub open spec fn masked(a: Seq<int>, s: Seq<int>, e: Seq<int>, q: int) -> Seq<int> {
    ring_neg(ring_add(ring_mul(a, s, q), e, q), q)
}

/// How many random words key generation consumes, in runs of `n`: one for
/// the secret, two for the uniform polynomial and one for the noise of the
/// public key, and the same three again for each digit of relinearisation.
pub open spec fn words_for_keys(p: Parameters) -> int {
    p.dimension as int * (4 + 3 * p.relin_digits())
}

/// The secret key that the words give: a ternary polynomial.
pub open spec fn secret_of(words: Seq<u64>, p: Parameters) -> Seq<int> {
    ternary_poly(chunk(words, 0, p.dimension as int), p.modulus)
}

/// The public key that the words give: `(-(a * s + e), a)` for a uniform `a`
/// and a noise polynomial `e`.
pub open spec fn public_of(words: Seq<u64>, p: Parameters) -> (Seq<int>, Seq<int>) {
    let n = p.dimension as int;
    let a = uniform_poly(double_chunk(words, 1, n), p.modulus);
    let e = noise_poly(chunk(words, 3, n), p.noise_width(), p.modulus);
    (masked(a, secret_of(words, p), e, p.modulus), a)
}

/// Part `j` of the evaluation key that the words give:
/// `(-(a * s + e) + 256^j * s^2, a)` for a uniform `a` and a noise polynomial
/// `e` of its own.
pub open spec fn relin_part_of(words: Seq<u64>, p: Parameters, j: int) -> (Seq<int>, Seq<int>) {
    let n = p.dimension as int;
    let s = secret_of(words, p);
    let a = uniform_poly(double_chunk(words, 4 + 3 * j, n), p.modulus);
    let e = noise_poly(chunk(words, 6 + 3 * j, n), p.noise_width(), p.modulus);
    let square = ring_scale(ring_mul(s, s, p.modulus), pow(256, j as nat) % p.modulus, p.modulus);
    (ring_add(masked(a, s, e, p.modulus), square, p.modulus), a)
}

/// The evaluation key that the words give, one part for each digit.
pub open spec fn relin_of(words: Seq<u64>, p: Parameters) -> Seq<(Seq<int>, Seq<int>)> {
    Seq::new(p.relin_digits(), |j: int| relin_part_of(words, p, j))
}

/// `x` is an element of the ring of `p`: well formed, of its modulus and of
/// its dimension.
pub open spec fn in_ring(x: RingElement, p: Parameters) -> bool {
    x.wf() && x.modulus == p.modulus && x.dimension() == p.dimension
}

/// The polynomial `s` can be the secret key of the parameters `p`: it is a
/// ternary element of their ring.
pub open spec fn secret_fits(p: Parameters, s: RingElement) -> bool {
    p.valid() && in_ring(s, p) && ternary(s.coeffs, p.modulus)
}

/// The polynomials `a` and `b` can be the public key of the parameters `p`.
pub open spec fn public_fits(p: Parameters, a: RingElement, b: RingElement) -> bool {
    p.valid() && in_ring(a, p) && in_ring(b, p)
}

/// The pairs of polynomials can be the evaluation key of the parameters
/// `p`: one pair of elements of their ring for each digit.
pub open spec fn evaluation_fits(p: Parameters, parts: Seq<(RingElement, RingElement)>) -> bool {
    &&& p.valid()
    &&& parts.len() == p.relin_digits()
    &&& forall|j: int|
        0 <= j < parts.len() ==> in_ring((#[trigger] parts[j]).0, p) && in_ring(parts[j].1, p)
}

/// The key that decrypts: a polynomial with coefficients 0, 1 and -1.
#[derive(Debug, PartialEq, Eq)]
pub struct SecretKey {
    pub(crate) params: ParameterSet,
    pub(crate) s: Polynomial,
}

/// The key that encrypts: the pair `(pk0, pk1)`.
#[derive(Debug, PartialEq, Eq)]
pub struct PublicKey {
    pub(crate) params: ParameterSet,
    pub(crate) pk0: Polynomial,
    pub(crate) pk1: Polynomial,
}

/// One digit's share of the evaluation key.
#[derive(Debug, PartialEq, Eq)]
pub struct RelinPart {
    pub(crate) k0: Polynomial,
    pub(crate) k1: Polynomial,
}

/// The key that relinearises a product: encryptions of `256^j * s^2`.
#[derive(Debug, PartialEq, Eq)]
pub struct EvaluationKey {
    pub(crate) params: ParameterSet,
    pub(crate) parts: Vec<RelinPart>,
}

impl RelinPart {
    /// Both polynomials are well formed and belong to the ring of `p`.
    pub open(crate) spec fn wf(&self, p: Parameters) -> bool {
        &&& self.k0.wf()
        &&& self.k1.wf()
        &&& self.k0@.modulus == p.modulus
        &&& self.k1@.modulus == p.modulus
        &&& self.k0@.dimension() == p.dimension
        &&& self.k1@.dimension() == p.dimension
    }

    /// The two polynomials of the part.
    pub open(crate) spec fn ring_elements(&self) -> (RingElement, RingElement) {
        (self.k0@, self.k1@)
    }

    /// The part that holds the two polynomials.
    pub fn new(k0: Polynomial, k1: Polynomial) -> (part: RelinPart)
        ensures
            part.ring_elements() == (k0@, k1@),
    {
        RelinPart { k0, k1 }
    }

    /// The two polynomials of the part.
    pub fn polynomials(&self) -> (r: (&Polynomial, &Polynomial))
        ensures
            (r.0@, r.1@) == self.ring_elements(),
    {
        (&self.k0, &self.k1)
    }
}

impl View for SecretKey {
    type V = Seq<int>;

    open(crate) spec fn view(&self) -> Seq<int> {
        self.s@.coeffs
    }
}

impl View for PublicKey {
    type V = (Seq<int>, Seq<int>);

    open(crate) spec fn view(&self) -> (Seq<int>, Seq<int>) {
        (self.pk0@.coeffs, self.pk1@.coeffs)
    }
}

impl View for EvaluationKey {
    type V = Seq<(Seq<int>, Seq<int>)>;

    open(crate) spec fn view(&self) -> Seq<(Seq<int>, Seq<int>)> {
        Seq::new(self.parts.len() as nat, |j: int| (self.parts[j].k0@.coeffs, self.parts[j].k1@.coeffs))
    }
}

impl SecretKey {
    /// The invariant of the type: a ternary polynomial of the ring of the
    /// parameters.
    pub open(crate) spec fn wf(&self) -> bool {
        &&& self.params.wf()
        &&& self.s.wf()
        &&& self.s@.modulus == self.params@.modulus
        &&& self.s@.dimension() == self.params@.dimension
        &&& ternary(self.s@.coeffs, self.params@.modulus)
    }

    /// The polynomial of the key.
    pub open(crate) spec fn ring_element(&self) -> RingElement {
        self.s@
    }

    /// The polynomial of the key, for its holder to keep. Whoever reads it
    /// can decrypt.
    pub fn polynomial(&self) -> (s: &Polynomial)
        ensures
            s@ == self.ring_element(),
            s@.coeffs == self@,
    {
        &self.s
    }

    /// The secret key of the parameters `params` that holds the polynomial
    /// `s`, if `s` is a ternary element of their ring.
    pub fn from_parts(params: ParameterSet, s: Polynomial) -> (r: Option<SecretKey>)
        requires
            params.wf(),
            s.wf(),
        ensures
            r is Some <==> secret_fits(params@, s@),
            r matches Some(key) ==> key.wf() && key.parameters() == params@ && key.ring_element()
                == s@ && key@ == s@.coeffs,
    {
        let n: usize = s.len();
        let q: u64 = params.modulus();
        if n != params.dimension() || s.modulus() != q {
            return None;
        }
        let mut i: usize = 0;
        while i < n
            invariant
                i <= n,
                n == s@.dimension(),
                q >= 1,
                q == params@.modulus,
                forall|j: int|
                    0 <= j < i ==> (#[trigger] s@.coeffs[j]) == 0 || s@.coeffs[j] == 1
                        || s@.coeffs[j] == q - 1,
            decreases n - i,
        {
            let c: u64 = s.coeff(i);
            if c != 0 && c != 1 && c != q - 1 {
                proof {
                    let at: int = i as int;
                    assert(!(s@.coeffs[at] == 0 || s@.coeffs[at] == 1 || s@.coeffs[at] == q - 1));
                    assert(!ternary(s@.coeffs, q as int));
                }
                return None;
            }
            i += 1;
        }
        Some(SecretKey { params, s })
    }

    /// The parameter set of the key.
    pub open(crate) spec fn parameters(&self) -> Parameters {
        self.params@
    }

    /// The parameter set of the key.
    pub fn params(&self) -> (p: ParameterSet)
        ensures
            p@ == self.parameters(),
    {
        self.params
    }
}

impl PublicKey {
    /// The invariant of the type.
    pub open(crate) spec fn wf(&self) -> bool {
        &&& self.params.wf()
        &&& self.pk0.wf()
        &&& self.pk1.wf()
        &&& self.pk0@.modulus == self.params@.modulus
        &&& self.pk1@.modulus == self.params@.modulus
        &&& self.pk0@.dimension() == self.params@.dimension
        &&& self.pk1@.dimension() == self.params@.dimension
    }

    /// The two polynomials of the key.
    pub open(crate) spec fn ring_elements(&self) -> (RingElement, RingElement) {
        (self.pk0@, self.pk1@)
    }

    /// The two polynomials of the key, to share or to save.
    pub fn polynomials(&self) -> (r: (&Polynomial, &Polynomial))
        ensures
            (r.0@, r.1@) == self.ring_elements(),
            (r.0@.coeffs, r.1@.coeffs) == self@,
    {
        (&self.pk0, &self.pk1)
    }

    /// The public key of the parameters `params` that holds the two
    /// polynomials, if both are elements of their ring.
    pub fn from_parts(params: ParameterSet, pk0: Polynomial, pk1: Polynomial) -> (r: Option<
        PublicKey,
    >)
        requires
            params.wf(),
            pk0.wf(),
            pk1.wf(),
        ensures
            r is Some <==> public_fits(params@, pk0@, pk1@),
            r matches Some(key) ==> key.wf() && key.parameters() == params@ && key.ring_elements()
                == (pk0@, pk1@) && key@ == (pk0@.coeffs, pk1@.coeffs),
    {
        let n: usize = params.dimension();
        let q: u64 = params.modulus();
        if pk0.len() != n || pk1.len() != n || pk0.modulus() != q || pk1.modulus() != q {
            return None;
        }
        Some(PublicKey { params, pk0, pk1 })
    }

    /// The parameter set of the key.
    pub open(crate) spec fn parameters(&self) -> Parameters {
        self.params@
    }

    /// The parameter set of the key.
    pub fn params(&self) -> (p: ParameterSet)
        ensures
            p@ == self.parameters(),
    {
        self.params
    }
}

impl EvaluationKey {
    /// The invariant of the type.
    pub open(crate) spec fn wf(&self) -> bool {
        &&& self.params.wf()
        &&& self.parts.len() == self.params@.relin_digits()
        &&& forall|j: int| 0 <= j < self.parts.len() ==> (#[trigger] self.parts[j]).wf(self.params@)
    }

    /// The pairs of polynomials of the key, one for each digit.
    pub open(crate) spec fn ring_elements(&self) -> Seq<(RingElement, RingElement)> {
        Seq::new(self.parts.len() as nat, |j: int| self.parts[j].ring_elements())
    }

    /// The number of parts of the key, one for each digit.
    pub fn len(&self) -> (n: usize)
        ensures
            n == self.ring_elements().len(),
            n == self@.len(),
    {
        self.parts.len()
    }

    /// Part `j` of the key, to share or to save.
    pub fn part(&self, j: usize) -> (part: &RelinPart)
        requires
            j < self.ring_elements().len(),
        ensures
            part.ring_elements() == self.ring_elements()[j as int],
            (part.ring_elements().0.coeffs, part.ring_elements().1.coeffs) == self@[j as int],
    {
        &self.parts[j]
    }

    /// The evaluation key of the parameters `params` that holds the given
    /// parts, if there is one part for each digit and all their polynomials
    /// are elements of the ring of the parameters.
    pub fn from_parts(params: ParameterSet, parts: Vec<RelinPart>) -> (r: Option<EvaluationKey>)
        requires
            params.wf(),
            forall|j: int|
                0 <= j < parts.len() ==> (#[trigger] parts[j]).ring_elements().0.wf()
                    && parts[j].ring_elements().1.wf(),
        ensures
            r is Some <==> evaluation_fits(
                params@,
                Seq::new(parts.len() as nat, |j: int| parts[j].ring_elements()),
            ),
            r matches Some(key) ==> key.wf() && key.parameters() == params@ && key.ring_elements()
                == Seq::new(parts.len() as nat, |j: int| parts[j].ring_elements()),
    {
        let n: usize = params.dimension();
        let q: u64 = params.modulus();
        let ghost given = Seq::new(parts.len() as nat, |j: int| parts[j].ring_elements());
        if parts.len() != count_digits(q - 1) {
            return None;
        }
        let mut i: usize = 0;
        while i < parts.len()
            invariant
                i <= parts.len(),
                n == params@.dimension,
                q == params@.modulus,
                given == Seq::new(parts.len() as nat, |j: int| parts[j].ring_elements()),
                forall|j: int| 0 <= j < i ==> (#[trigger] parts[j]).wf(params@),
                forall|j: int|
                    0 <= j < parts.len() ==> (#[trigger] parts[j]).ring_elements().0.wf()
                        && parts[j].ring_elements().1.wf(),
            decreases parts.len() - i,
        {
            let part = &parts[i];
            if part.k0.len() != n || part.k1.len() != n || part.k0.modulus() != q
                || part.k1.modulus() != q {
                assert(!(in_ring(given[i as int].0, params@) && in_ring(
                    given[i as int].1,
                    params@,
                )));
                return None;
            }
            i += 1;
        }
        proof {
            assert forall|j: int| 0 <= j < given.len() implies in_ring(
                (#[trigger] given[j]).0,
                params@,
            ) && in_ring(given[j].1, params@) by {
                assert(parts[j].wf(params@));
            }
        }
        let key = EvaluationKey { params, parts };
        assert(key.ring_elements() =~= given);
        Some(key)
    }

    /// The parameter set of the key.
    pub open(crate) spec fn parameters(&self) -> Parameters {
        self.params@
    }

    /// The parameter set of the key.
    pub fn params(&self) -> (p: ParameterSet)
        ensures
            p@ == self.parameters(),
    {
        self.params
    }
}

/// `-(a * s + e)` for three polynomials of one ring.
fn mask(a: &Polynomial, s: &Polynomial, e: &Polynomial) -> (r: Result<Polynomial, EngineError>)
    requires
        a.wf(),
        s.wf(),
        e.wf(),
        a.mismatch(s) is None,
        a.mismatch(e) is None,
    ensures
        r matches Ok(m) && m.wf() && m@.modulus == a@.modulus && m@.dimension() == a@.dimension()
            && m@.coeffs == masked(a@.coeffs, s@.coeffs, e@.coeffs, a@.modulus),
{
    Ok(a.mul(s)?.add(e)?.neg())
}

/// Draws a secret key, a public key and an evaluation key for `params` from
/// the random source. Nothing is drawn unless the source holds all the words
/// that the three keys take.
pub fn generate(params: &ParameterSet, rng: &mut RandomSource) -> (r: Result<
    (SecretKey, PublicKey, EvaluationKey),
    EngineError,
>)
    requires
        params.wf(),
        old(rng).wf(),
    ensures
        final(rng).wf(),
        match r {
            Ok((sk, pk, ek)) => {
                &&& old(rng)@.len() >= words_for_keys(params@)
                &&& final(rng)@ == old(rng)@.skip(words_for_keys(params@))
                &&& sk.wf() && pk.wf() && ek.wf()
                &&& sk.parameters() == params@ && pk.parameters() == params@ && ek.parameters()
                    == params@
                &&& sk@ == secret_of(old(rng)@, params@)
                &&& pk@ == public_of(old(rng)@, params@)
                &&& ek@ == relin_of(old(rng)@, params@)
            },
            Err(e) => e == EngineError::InsufficientEntropy && old(rng)@.len() < words_for_keys(
                params@,
            ) && final(rng)@ == old(rng)@,
        },
{
    let n: usize = params.dimension();
    let q: u64 = params.modulus();
    let width: u64 = params.noise_width();
    let digits: usize = count_digits(q - 1);
    assert(n * (4 + 3 * digits) <= 65536 * 28) by (nonlinear_arith)
        requires
            n <= 65536,
            digits <= 8,
    ;
    let needed: usize = n * (4 + 3 * digits);
    if rng.remaining() < needed {
        return Err(EngineError::InsufficientEntropy);
    }
    let ghost stream: Seq<u64> = rng@;
    let ghost p: Parameters = params@;
    let ghost dim: int = n as int;
    assert(needed >= 4 * n) by (nonlinear_arith)
        requires
            needed == n * (4 + 3 * digits),
            digits >= 1,
    ;
    let s = sample_ternary(rng, n, q)?;
    assert(rng@ =~= stream.skip(dim));
    assert(stream.take(dim) =~= chunk(stream, 0, dim));
    proof {
        lemma_ternary_residues(chunk(stream, 0, dim), q as int);
    }
    let a = sample_uniform(rng, n, q)?;
    assert(rng@ =~= stream.skip(3 * dim));
    assert(stream.skip(dim).take(2 * dim) =~= double_chunk(stream, 1, dim));
    let e = sample_noise(rng, n, width, q)?;
    assert(rng@ =~= stream.skip(4 * dim));
    assert(stream.skip(3 * dim).take(dim) =~= chunk(stream, 3, dim));
    let pk0 = mask(&a, &s, &e)?;
    let square = s.mul(&s)?;
    let mut parts: Vec<RelinPart> = Vec::new();
    let mut power: u64 = 1 % q;
    let mut j: usize = 0;
    proof {
        lemma_pow0(256);
    }
    while j < digits
        invariant
            params.wf(),
            rng.wf(),
            p == params@,
            dim == n,
            n == p.dimension,
            q == p.modulus,
            width == p.noise_width(),
            digits == p.relin_digits(),
            needed == n * (4 + 3 * digits),
            stream.len() >= needed,
            j <= digits,
            rng@ == stream.skip((4 + 3 * j) * dim),
            s.wf(),
            s@.modulus == q,
            s@.dimension() == n,
            s@.coeffs == secret_of(stream, p),
            ternary(s@.coeffs, q as int),
            square.wf(),
            square@.modulus == q,
            square@.dimension() == n,
            square@.coeffs == ring_mul(s@.coeffs, s@.coeffs, q as int),
            power == pow(256, j as nat) % (q as int),
            parts.len() == j,
            forall|i: int| 0 <= i < j ==> (#[trigger] parts[i]).wf(p),
            forall|i: int|
                0 <= i < j ==> (#[trigger] parts[i].k0@.coeffs, parts[i].k1@.coeffs)
                    == relin_part_of(stream, p, i),
        decreases digits - j,
    {
        let ghost used: int = (4 + 3 * j) * dim;
        proof {
            assert((4 + 3 * j + 2) * dim == used + 2 * dim) by (nonlinear_arith)
                requires
                    used == (4 + 3 * j) * dim,
            ;
            assert((6 + 3 * j) * dim == used + 2 * dim) by (nonlinear_arith)
                requires
                    used == (4 + 3 * j) * dim,
            ;
            assert((6 + 3 * j + 1) * dim == used + 3 * dim) by (nonlinear_arith)
                requires
                    used == (4 + 3 * j) * dim,
            ;
            assert((4 + 3 * (j + 1)) * dim == used + 3 * dim) by (nonlinear_arith)
                requires
                    used == (4 + 3 * j) * dim,
            ;
            assert(used + 3 * dim <= needed && used >= 0) by (nonlinear_arith)
                requires
                    used == (4 + 3 * j) * dim,
                    needed == dim * (4 + 3 * digits),
                    j < digits,
                    dim >= 0,
            ;
        }
        let aj = sample_uniform(rng, n, q)?;
        assert(rng@ =~= stream.skip(used + 2 * dim));
        assert(stream.skip(used).take(2 * dim) =~= double_chunk(stream, 4 + 3 * j, dim));
        let ej = sample_noise(rng, n, width, q)?;
        assert(rng@ =~= stream.skip(used + 3 * dim));
        assert(stream.skip(used + 2 * dim).take(dim) =~= chunk(stream, 6 + 3 * j, dim));
        let hidden = mask(&aj, &s, &ej)?;
        let scaled = square.scale(power);
        let k0 = hidden.add(&scaled)?;
        parts.push(RelinPart { k0, k1: aj });
        proof {
            reveal(pow);
            assert(pow(256, (j + 1) as nat) == 256 * pow(256, j as nat));
            lemma_mul_mod_noop_left(pow(256, j as nat), 256, q as int);
            assert(pow(256, j as nat) * 256 == 256 * pow(256, j as nat)) by (nonlinear_arith);
        }
        power = crate::modular::mul(power, RELIN_BASE, q);
        j += 1;
    }
    proof {
        assert((4 + 3 * digits) * dim == needed) by (nonlinear_arith)
            requires
                needed == dim * (4 + 3 * digits),
        ;
    }
    let sk = SecretKey { params: *params, s };
    let pk = PublicKey { params: *params, pk0, pk1: a };
    let ek = EvaluationKey { params: *params, parts };
    assert(ek@ =~= relin_of(stream, p));
    Ok((sk, pk, ek))
}

/// A secret key can be rebuilt from what it gives out: its parameters and
/// its polynomial are such that [`SecretKey::from_parts`] accepts them, and
/// the key that comes back has the same parameters and the same polynomial.
pub proof fn law_secret_key_rebuilds(key: SecretKey)
    requires
        key.wf(),
    ensures
        secret_fits(key.parameters(), key.ring_element()),
        key@ == key.ring_element().coeffs,
{
}

/// A public key can be rebuilt from what it gives out, as a secret key can.
pub proof fn law_public_key_rebuilds(key: PublicKey)
    requires
        key.wf(),
    ensures
        public_fits(key.parameters(), key.ring_elements().0, key.ring_elements().1),
        key@ == (key.ring_elements().0.coeffs, key.ring_elements().1.coeffs),
{
}

/// An evaluation key can be rebuilt from what it gives out, as a secret key
/// can.
pub proof fn law_evaluation_key_rebuilds(key: EvaluationKey)
    requires
        key.wf(),
    ensures
        evaluation_fits(key.parameters(), key.ring_elements()),
        key@ == Seq::new(
            key.ring_elements().len(),
            |j: int| (key.ring_elements()[j].0.coeffs, key.ring_elements()[j].1.coeffs),
        ),
{
    assert forall|j: int| 0 <= j < key.ring_elements().len() implies in_ring(
        (#[trigger] key.ring_elements()[j]).0,
        key.parameters(),
    ) && in_ring(key.ring_elements()[j].1, key.parameters()) by {
        assert(key.parts[j].wf(key.params@));
    }
    assert(key@ =~= Seq::new(
        key.ring_elements().len(),
        |j: int| (key.ring_elements()[j].0.coeffs, key.ring_elements()[j].1.coeffs),
    ));
}

/// Key generation is determined by its inputs: the same parameters and the
/// same random words give the same secret, public and evaluation key.
pub proof fn law_key_generation_is_deterministic(
    params: Parameters,
    words: Seq<u64>,
    other_params: Parameters,
    other_words: Seq<u64>,
)
    requires
        params == other_params,
        words == other_words,
    ensures
        secret_of(words, params) == secret_of(other_words, other_params),
        public_of(words, params) == public_of(other_words, other_params),
        relin_of(words, params) == relin_of(other_words, other_params),
{
}

} // verus!
