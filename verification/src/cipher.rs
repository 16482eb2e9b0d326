//! Ciphertexts, public-key encryption and secret-key decryption.

use crate::encoder::Plaintext;
use crate::error::EngineError;
use crate::keys::{chunk, in_ring, PublicKey, SecretKey};
use crate::params::{ParameterSet, Parameters};
use crate::poly::{ring_add, ring_mul, ring_scale, round_div, Polynomial, RingElement};
use crate::random::RandomSource;
use crate::sampling::{noise_poly, sample_noise, sample_ternary, ternary_poly};
use vstd::arithmetic::div_mod::*;
use vstd::prelude::*;

verus! {

/// Where a ciphertext stands in its life.
#[derive(Clone, Copy, Debug, PartialEq, Eq, Structural)]
pub enum Stage {
    /// Fresh from encryption.
    Fresh,
    /// The sum of ciphertexts that were never multiplied.
    Added,
    /// A product, relinearised and rescaled: its one level is spent.
    Rescaled,
}

impl Stage {
    /// The multiplications that a ciphertext at this stage can still take.
    pub open spec fn level(self) -> int {
        match self {
            Stage::Fresh => 1,
            Stage::Added => 1,
            Stage::Rescaled => 0,
        }
    }
}

/// The mathematical value of a [`Ciphertext`].
pub struct Encrypted {
    /// The first component.
    pub c0: Seq<int>,
    /// The second component, the one that the secret key multiplies.
    pub c1: Seq<int>,
    /// An upper bound on the magnitude of the noise.
    pub noise_bound: int,
    /// The stage of the ciphertext.
    pub stage: Stage,
}

/// The two polynomials, the noise bound and the parameters `p` can make a
/// ciphertext: both polynomials are elements of the ring of `p`, and the
/// bound is one that still decrypts.
pub open spec fn cipher_fits(p: Parameters, c0: RingElement, c1: RingElement, noise_bound: int) -> bool {
    p.valid() && in_ring(c0, p) && in_ring(c1, p) && 0 <= noise_bound && p.decryptable(
        noise_bound,
    )
}

/// A pair of polynomials that hides a plaintext, with a bound on its noise.
#[derive(Debug, PartialEq, Eq)]
pub struct Ciphertext {
    pub(crate) params: ParameterSet,
    pub(crate) c0: Polynomial,
    pub(crate) c1: Polynomial,
    pub(crate) noise_bound: u64,
    pub(crate) stage: Stage,
}

impl View for Ciphertext {
    type V = Encrypted;

    open(crate) spec fn view(&self) -> Encrypted {
        Encrypted {
            c0: self.c0@.coeffs,
            c1: self.c1@.coeffs,
            noise_bound: self.noise_bound as int,
            stage: self.stage,
        }
    }
}

impl Ciphertext {
    /// The invariant of the type: both components belong to the ring of the
    /// parameters, and the noise bound is one that still decrypts.
    pub open(crate) spec fn wf(&self) -> bool {
        &&& self.params.wf()
        &&& self.c0.wf()
        &&& self.c1.wf()
        &&& self.c0@.modulus == self.params@.modulus
        &&& self.c1@.modulus == self.params@.modulus
        &&& self.c0@.dimension() == self.params@.dimension
        &&& self.c1@.dimension() == self.params@.dimension
        &&& self.params@.decryptable(self.noise_bound as int)
    }

    /// The parameter set of the ciphertext.
    pub open(crate) spec fn parameters(&self) -> Parameters {
        self.params@
    }

    /// The parameter set of the ciphertext.
    pub fn params(&self) -> (p: ParameterSet)
        ensures
            p@ == self.parameters(),
    {
        self.params
    }

    /// The upper bound on the magnitude of the noise.
    pub fn noise_bound(&self) -> (v: u64)
        ensures
            v == self@.noise_bound,
    {
        self.noise_bound
    }

    /// The stage of the ciphertext.
    pub fn stage(&self) -> (s: Stage)
        ensures
            s == self@.stage,
    {
        self.stage
    }

    /// The two components.
    pub open(crate) spec fn ring_elements(&self) -> (RingElement, RingElement) {
        (self.c0@, self.c1@)
    }

    /// The two components, to share or to save.
    pub fn components(&self) -> (c: (&Polynomial, &Polynomial))
        ensures
            (c.0@, c.1@) == self.ring_elements(),
            c.0@.coeffs == self@.c0,
            c.1@.coeffs == self@.c1,
    {
        (&self.c0, &self.c1)
    }

    /// The ciphertext of the parameters `params` with the given components,
    /// noise bound and stage, if the components are elements of the ring of
    /// the parameters and the bound is one that decrypts. The bound is
    /// taken on trust: decryption refuses the ciphertext where its phase
    /// shows more noise.
    pub fn from_parts(
        params: ParameterSet,
        c0: Polynomial,
        c1: Polynomial,
        noise_bound: u64,
        stage: Stage,
    ) -> (r: Option<Ciphertext>)
        requires
            params.wf(),
            c0.wf(),
            c1.wf(),
        ensures
            r is Some <==> cipher_fits(params@, c0@, c1@, noise_bound as int),
            r matches Some(ct) ==> ct.wf() && ct.parameters() == params@ && ct.ring_elements() == (
                c0@,
                c1@,
            ) && ct@ == (Encrypted {
                c0: c0@.coeffs,
                c1: c1@.coeffs,
                noise_bound: noise_bound as int,
                stage,
            }),
    {
        let n: usize = params.dimension();
        let q: u64 = params.modulus();
        if c0.len() != n || c1.len() != n || c0.modulus() != q || c1.modulus() != q {
            return None;
        }
        if !params.is_decryptable(noise_bound as u128) {
            return None;
        }
        Some(Ciphertext { params, c0, c1, noise_bound, stage })
    }
}

/// A ciphertext can be rebuilt from what it gives out: its parameters,
/// components and noise bound are such that [`Ciphertext::from_parts`]
/// accepts them, and the ciphertext that comes back, given the same stage,
/// has the same value.
pub proof fn law_ciphertext_rebuilds(ct: Ciphertext)
    requires
        ct.wf(),
    ensures
        cipher_fits(
            ct.parameters(),
            ct.ring_elements().0,
            ct.ring_elements().1,
            ct@.noise_bound,
        ),
        ct@ == (Encrypted {
            c0: ct.ring_elements().0.coeffs,
            c1: ct.ring_elements().1.coeffs,
            noise_bound: ct@.noise_bound,
            stage: ct@.stage,
        }),
{
}

/// The plaintext `m` lifted into the ciphertext space: `delta * m`.
pub open spec fn lifted_message(m: Seq<int>, p: Parameters) -> Seq<int> {
    ring_scale(m, p.delta(), p.modulus)
}

/// How many random words one encryption consumes.
pub open spec fn words_for_encryption(p: Parameters) -> int {
    3 * (p.dimension as int)
}

/// The two components of the encryption of `m` under the public key `pk`
/// with the randomness `words`: for a ternary `u` and noise `e0`, `e1`,
/// `(pk0 * u + e0 + delta * m, pk1 * u + e1)`.
pub open spec fn encryption_of(
    pk: (Seq<int>, Seq<int>),
    m: Seq<int>,
    words: Seq<u64>,
    p: Parameters,
) -> (Seq<int>, Seq<int>) {
    let n = p.dimension as int;
    let q = p.modulus;
    let u = ternary_poly(chunk(words, 0, n), q);
    let e0 = noise_poly(chunk(words, 1, n), p.noise_width(), q);
    let e1 = noise_poly(chunk(words, 2, n), p.noise_width(), q);
    (
        ring_add(ring_add(ring_mul(pk.0, u, q), e0, q), lifted_message(m, p), q),
        ring_add(ring_mul(pk.1, u, q), e1, q),
    )
}

/// Why the plaintext `pt` cannot be encrypted under parameters `p` with
/// `available` random words, if it cannot.
pub open spec fn encryption_failure(p: Parameters, pt: RingElement, available: nat) -> Option<
    EngineError,
> {
    if pt.dimension() != p.dimension {
        Some(EngineError::DimensionMismatch)
    } else if pt.modulus != p.plain_modulus {
        Some(EngineError::LevelMismatch)
    } else if available < words_for_encryption(p) {
        Some(EngineError::InsufficientEntropy)
    } else {
        None
    }
}

/// `c0 + c1 * s`: the lifted plaintext plus the noise.
pub open spec fn phase(s: Seq<int>, c0: Seq<int>, c1: Seq<int>, q: int) -> Seq<int> {
    ring_add(c0, ring_mul(c1, s, q), q)
}

/// How far `w` is from the nearest multiple of `d`.
pub open spec fn rounding_gap(w: int, d: int) -> int {
    if 2 * (w % d) >= d {
        d - w % d
    } else {
        w % d
    }
}

/// The plaintext coefficient that the phase coefficient `w` decrypts to.
pub open spec fn decrypted_coefficient(w: int, p: Parameters) -> int {
    round_div(w, p.delta()) % p.plain_modulus
}

/// The coefficients of the plaintext that `(c0, c1)` decrypts to under `s`.
pub open spec fn decryption_of(s: Seq<int>, c0: Seq<int>, c1: Seq<int>, p: Parameters) -> Seq<
    int,
> {
    Seq::new(p.dimension, |i: int| decrypted_coefficient(phase(s, c0, c1, p.modulus)[i], p))
}

/// Whether some coefficient of the phase lies further from the lifted
/// plaintext than the noise bound and one wrap of the plaintext allow.
pub open spec fn noise_exceeds(s: Seq<int>, ct: Encrypted, p: Parameters) -> bool {
    exists|i: int|
        0 <= i < p.dimension && #[trigger] rounding_gap(
            phase(s, ct.c0, ct.c1, p.modulus)[i],
            p.delta(),
        ) > ct.noise_bound + p.residue()
}

/// Why a ciphertext with value `ct` and parameters `cp` cannot be decrypted
/// with the secret key `s` of parameters `sp`, if it cannot.
pub open spec fn decryption_failure(s: Seq<int>, sp: Parameters, ct: Encrypted, cp: Parameters) -> Option<
    EngineError,
> {
    if sp.dimension != cp.dimension {
        Some(EngineError::DimensionMismatch)
    } else if sp.modulus != cp.modulus || sp.plain_modulus != cp.plain_modulus {
        Some(EngineError::LevelMismatch)
    } else if noise_exceeds(s, ct, cp) {
        Some(EngineError::NoiseOverflow)
    } else {
        None
    }
}

/// Encrypts the plaintext under the public key with randomness from `rng`.
/// Nothing is drawn unless the encryption succeeds.
pub fn encrypt(pk: &PublicKey, pt: &Plaintext, rng: &mut RandomSource) -> (r: Result<
    Ciphertext,
    EngineError,
>)
    requires
        pk.wf(),
        pt.wf(),
        old(rng).wf(),
    ensures
        final(rng).wf(),
        match r {
            Ok(ct) => {
                &&& encryption_failure(pk.parameters(), pt@, old(rng)@.len()) is None
                &&& final(rng)@ == old(rng)@.skip(words_for_encryption(pk.parameters()))
                &&& ct.wf()
                &&& ct.parameters() == pk.parameters()
                &&& (ct@.c0, ct@.c1) == encryption_of(pk@, pt@.coeffs, old(rng)@, pk.parameters())
                &&& ct@.noise_bound == pk.parameters().fresh_noise()
                &&& ct@.stage == Stage::Fresh
            },
            Err(e) => encryption_failure(pk.parameters(), pt@, old(rng)@.len()) == Some(e)
                && final(rng)@ == old(rng)@,
        },
{
    let params: ParameterSet = pk.params;
    let n: usize = params.dimension();
    let q: u64 = params.modulus();
    let t: u64 = params.plain_modulus();
    if pt.poly.len() != n {
        return Err(EngineError::DimensionMismatch);
    }
    if pt.poly.modulus() != t {
        return Err(EngineError::LevelMismatch);
    }
    if rng.remaining() < 3 * n {
        return Err(EngineError::InsufficientEntropy);
    }
    let width: u64 = params.noise_width();
    let ghost stream: Seq<u64> = rng@;
    let ghost dim: int = n as int;
    let u = sample_ternary(rng, n, q)?;
    assert(rng@ =~= stream.skip(dim));
    assert(stream.take(dim) =~= chunk(stream, 0, dim));
    let e0 = sample_noise(rng, n, width, q)?;
    assert(rng@ =~= stream.skip(2 * dim));
    assert(stream.skip(dim).take(dim) =~= chunk(stream, 1, dim));
    let e1 = sample_noise(rng, n, width, q)?;
    assert(rng@ =~= stream.skip(3 * dim));
    assert(stream.skip(2 * dim).take(dim) =~= chunk(stream, 2, dim));
    let lifted = Polynomial::from_coefficients(pt.poly.coefficients(), q).scale(params.delta());
    proof {
        assert forall|i: int| 0 <= i < n implies #[trigger] lifted@.coeffs[i] == lifted_message(
            pt@.coeffs,
            params@,
        )[i] by {
            lemma_small_mod(pt@.coeffs[i] as nat, q as nat);
        }
        assert(lifted@.coeffs =~= lifted_message(pt@.coeffs, params@));
    }
    let c0 = pk.pk0.mul(&u)?.add(&e0)?.add(&lifted)?;
    let c1 = pk.pk1.mul(&u)?.add(&e1)?;
    let noise_bound: u64 = params.fresh_noise();
    Ok(Ciphertext { params, c0, c1, noise_bound, stage: Stage::Fresh })
}

/// Decrypts the ciphertext with the secret key: the phase `c0 + c1 * s` is
/// divided by the scale and rounded, and the result reduced modulo `t`. The
/// ciphertext is refused where its phase shows more noise than its bound.
pub fn decrypt(sk: &SecretKey, ct: &Ciphertext) -> (r: Result<Plaintext, EngineError>)
    requires
        sk.wf(),
        ct.wf(),
    ensures
        match r {
            Ok(pt) => {
                &&& decryption_failure(sk@, sk.parameters(), ct@, ct.parameters()) is None
                &&& pt.wf()
                &&& pt@.modulus == ct.parameters().plain_modulus
                &&& pt@.coeffs == decryption_of(sk@, ct@.c0, ct@.c1, ct.parameters())
            },
            Err(e) => decryption_failure(sk@, sk.parameters(), ct@, ct.parameters()) == Some(e),
        },
{
    let params: ParameterSet = ct.params;
    let n: usize = params.dimension();
    let q: u64 = params.modulus();
    let t: u64 = params.plain_modulus();
    if sk.params.dimension() != n {
        return Err(EngineError::DimensionMismatch);
    }
    if sk.params.modulus() != q || sk.params.plain_modulus() != t {
        return Err(EngineError::LevelMismatch);
    }
    let delta: u64 = params.delta();
    let allowed: u64 = ct.noise_bound + q % t;
    let ph = ct.c0.add(&ct.c1.mul(&sk.s)?)?;
    assert(ph@.coeffs == phase(sk@, ct@.c0, ct@.c1, q as int));
    let mut out: Vec<u64> = Vec::new();
    let mut i: usize = 0;
    while i < n
        invariant
            params.wf(),
            params@ == ct.parameters(),
            sk.parameters().dimension == params@.dimension,
            sk.parameters().modulus == params@.modulus,
            sk.parameters().plain_modulus == params@.plain_modulus,
            n == params@.dimension,
            q == params@.modulus,
            t == params@.plain_modulus,
            delta == params@.delta(),
            delta > 0,
            allowed == ct@.noise_bound + params@.residue(),
            ph.wf(),
            ph@.dimension() == n,
            ph@.coeffs == phase(sk@, ct@.c0, ct@.c1, q as int),
            i <= n,
            out.len() == i,
            forall|j: int|
                0 <= j < i ==> #[trigger] out[j] == decrypted_coefficient(ph@.coeffs[j], params@),
            forall|j: int| 0 <= j < i ==> #[trigger] rounding_gap(ph@.coeffs[j], delta as int) <= allowed,
        decreases n - i,
    {
        let w: u64 = ph.coeff(i);
        let low: u64 = w % delta;
        let up: bool = 2 * (low as u128) >= delta as u128;
        let gap: u64 = if up {
            delta - low
        } else {
            low
        };
        if gap > allowed {
            proof {
                let at: int = i as int;
                assert(rounding_gap(
                    phase(sk@, ct@.c0, ct@.c1, params@.modulus)[at],
                    params@.delta(),
                ) > ct@.noise_bound + params@.residue());
                assert(noise_exceeds(sk@, ct@, params@));
            }
            return Err(EngineError::NoiseOverflow);
        }
        let k: u64 = if up {
            w / delta + 1
        } else {
            w / delta
        };
        out.push(k % t);
        i += 1;
    }
    proof {
        assert(!noise_exceeds(sk@, ct@, params@));
    }
    let pt = Plaintext::from_coefficients(out, t);
    proof {
        assert forall|j: int| 0 <= j < n implies #[trigger] pt@.coeffs[j] == decryption_of(
            sk@,
            ct@.c0,
            ct@.c1,
            params@,
        )[j] by {
            lemma_mod_twice(round_div(ph@.coeffs[j], delta as int), t as int);
        }
        assert(pt@.coeffs =~= decryption_of(sk@, ct@.c0, ct@.c1, params@));
        reveal_with_fuel(crate::params::is_power_of_two, 1);
    }
    Ok(pt)
}

} // verus!
