//! Plaintexts, and the maps between integers and plaintexts.
//!
//! A plaintext holds one integer modulo `t` in its constant coefficient, or
//! a vector of `n` integers modulo `t`, one in each coefficient.

use crate::error::EngineError;
use crate::params::ParameterSet;
use crate::poly::{as_ints, reduced, ring_reduce, Polynomial, RingElement};
use vstd::prelude::*;

verus! {

/// The coefficients of the plaintext that stands for `v`: `v mod t` in front,
/// then zeros.
pub open spec fn encoding(v: int, n: nat, t: int) -> Seq<int> {
    Seq::new(
        n,
        |i: int|
            if i == 0 {
                v % t
            } else {
                0int
            },
    )
}

/// The integer that a plaintext with the coefficients `c` stands for.
pub open spec fn decoding(c: Seq<int>) -> int {
    c[0]
}

/// A polynomial with coefficients modulo the plaintext modulus `t`.
#[derive(Debug, Clone, PartialEq, Eq)]
pub struct Plaintext {
    pub(crate) poly: Polynomial,
}

impl View for Plaintext {
    type V = RingElement;

    open(crate) spec fn view(&self) -> RingElement {
        self.poly@
    }
}

impl Plaintext {
    /// The invariant of the type: a well-formed polynomial of dimension at
    /// least 1.
    pub open spec fn wf(&self) -> bool {
        self@.wf() && self@.dimension() >= 1
    }

    /// The plaintext with the given coefficients, each reduced modulo `t`.
    pub fn from_coefficients(coeffs: Vec<u64>, t: u64) -> (pt: Plaintext)
        requires
            t > 0,
            coeffs.len() >= 1,
        ensures
            pt.wf(),
            pt@.modulus == t,
            pt@.coeffs == ring_reduce(as_ints(coeffs@), t as int),
    {
        Plaintext { poly: Polynomial::from_coefficients(coeffs, t) }
    }

    /// The polynomial of the plaintext.
    pub fn polynomial(&self) -> (p: &Polynomial)
        ensures
            p@ == self@,
    {
        &self.poly
    }
}

/// The plaintext that stands for `value`.
pub fn encode(params: &ParameterSet, value: u64) -> (pt: Plaintext)
    requires
        params.wf(),
    ensures
        pt.wf(),
        pt@.modulus == params@.plain_modulus,
        pt@.coeffs == encoding(value as int, params@.dimension, params@.plain_modulus),
{
    let n: usize = params.dimension();
    let t: u64 = params.plain_modulus();
    let pt = Plaintext { poly: Polynomial::constant(n, value, t) };
    assert(pt@.coeffs =~= encoding(value as int, params@.dimension, params@.plain_modulus));
    assert(pt@.dimension() >= 1) by {
        reveal_with_fuel(crate::params::is_power_of_two, 1);
    }
    pt
}

/// The integer that the plaintext stands for.
pub fn decode(pt: &Plaintext) -> (value: u64)
    requires
        pt.wf(),
    ensures
        value == decoding(pt@.coeffs),
        value < pt@.modulus,
{
    pt.poly.coeff(0)
}

/// The plaintext that stands for a vector of `n` integers: entry `i`,
/// reduced modulo `t`, is the coefficient of `x^i`.
pub fn encode_vector(params: &ParameterSet, values: &Vec<u64>) -> (r: Result<
    Plaintext,
    EngineError,
>)
    requires
        params.wf(),
    ensures
        match r {
            Ok(pt) => values.len() == params@.dimension && pt.wf() && pt@.modulus
                == params@.plain_modulus && pt@.coeffs == ring_reduce(
                as_ints(values@),
                params@.plain_modulus,
            ),
            Err(e) => e == EngineError::DimensionMismatch && values.len() != params@.dimension,
        },
{
    if values.len() != params.dimension() {
        return Err(EngineError::DimensionMismatch);
    }
    let t: u64 = params.plain_modulus();
    proof {
        reveal_with_fuel(crate::params::is_power_of_two, 1);
    }
    let mut copy: Vec<u64> = Vec::new();
    let mut i: usize = 0;
    while i < values.len()
        invariant
            i <= values.len(),
            copy.len() == i,
            forall|j: int| 0 <= j < i ==> #[trigger] copy[j] == values[j],
        decreases values.len() - i,
    {
        copy.push(values[i]);
        i += 1;
    }
    assert(copy@ =~= values@);
    Ok(Plaintext::from_coefficients(copy, t))
}

/// The vector of integers that the plaintext stands for, one for each
/// coefficient.
pub fn decode_vector(pt: &Plaintext) -> (values: Vec<u64>)
    requires
        pt.wf(),
    ensures
        as_ints(values@) == pt@.coeffs,
{
    pt.poly.coefficients()
}

/// Decoding undoes encoding: every integer in `[0, t)` comes back unchanged.
pub proof fn law_decode_inverts_encode(v: int, n: nat, t: int)
    requires
        n >= 1,
        0 <= v < t,
    ensures
        decoding(encoding(v, n, t)) == v,
{
    vstd::arithmetic::div_mod::lemma_small_mod(v as nat, t as nat);
}

/// Decoding undoes encoding for vectors: every vector with entries in
/// `[0, t)` is the coefficient sequence of its own plaintext, which is what
/// decoding returns.
pub proof fn law_decode_inverts_encode_vector(v: Seq<int>, t: int)
    requires
        t > 0,
        reduced(v, t),
    ensures
        ring_reduce(v, t) == v,
{
    assert forall|i: int| 0 <= i < v.len() implies #[trigger] ring_reduce(v, t)[i] == v[i] by {
        vstd::arithmetic::div_mod::lemma_small_mod(v[i] as nat, t as nat);
    }
    assert(ring_reduce(v, t) =~= v);
}

} // verus!
