//! The three distributions of the scheme, each a function of the random
//! words it is given: ternary secrets, uniform ring elements and small noise.

use crate::error::EngineError;
use crate::poly::Polynomial;
use crate::random::RandomSource;
use vstd::prelude::*;

verus! {

/// The ternary value that the word `w` stands for: 0, 1 or -1.
pub open spec fn ternary_value(w: u64) -> int {
    if w % 3 == 2 {
        -1
    } else {
        (w % 3) as int
    }
}

/// Bit `i` of the word `w`.
pub open spec fn bit_at(w: u64, i: int) -> int {
    ((w >> (i as u64)) & 1) as int
}

/// How many of the `len` bits of `w` from bit `from` upwards are set.
pub open spec fn bit_count(w: u64, from: int, len: int) -> int
    decreases len,
{
    if len <= 0 {
        0
    } else {
        bit_count(w, from, len - 1) + bit_at(w, from + len - 1)
    }
}

/// The noise value that the word `w` stands for: the set bits among the
/// lowest `width` bits less those among the `width` bits from bit 32. It
/// follows the centred binomial distribution of variance `width / 2`, and
/// its magnitude is at most `width`.
pub open spec fn noise_value(w: u64, width: int) -> int {
    bit_count(w, 0, width) - bit_count(w, 32, width)
}

/// The ternary values of the given words.
pub open spec fn ternary_ints(words: Seq<u64>) -> Seq<int> {
    Seq::new(words.len(), |i: int| ternary_value(words[i]))
}

/// The noise values of the given words.
pub open spec fn noise_ints(words: Seq<u64>, width: int) -> Seq<int> {
    Seq::new(words.len(), |i: int| noise_value(words[i], width))
}

/// The ternary polynomial of the given words, as residues modulo `q`.
pub open spec fn ternary_poly(words: Seq<u64>, q: int) -> Seq<int> {
    Seq::new(words.len(), |i: int| ternary_value(words[i]) % q)
}

/// Two words read as one number of 128 bits, `high` in front.
pub open spec fn wide_word(high: u64, low: u64) -> int {
    high * 0x1_0000_0000_0000_0000 + low
}

/// The polynomial that the given words spread over `[0, q)`: each pair of
/// words, read as one number of 128 bits, is reduced modulo `q`. For a
/// modulus of at most 62 bits no residue is more likely than another by
/// more than one part in `2^66`.
pub open spec fn uniform_poly(words: Seq<u64>, q: int) -> Seq<int> {
    Seq::new(words.len() / 2, |i: int| wide_word(words[2 * i], words[2 * i + 1]) % q)
}

/// The noise polynomial of the given words, as residues modulo `q`.
pub open spec fn noise_poly(words: Seq<u64>, width: int, q: int) -> Seq<int> {
    Seq::new(words.len(), |i: int| noise_value(words[i], width) % q)
}

/// Every entry of `c` is 0, 1 or `q - 1`, the residue of -1.
pub open spec fn ternary(c: Seq<int>, q: int) -> bool {
    forall|i: int| 0 <= i < c.len() ==> (#[trigger] c[i]) == 0 || c[i] == 1 || c[i] == q - 1
}

/// The residues of ternary samples are 0, 1 and `q - 1`.
pub proof fn lemma_ternary_residues(words: Seq<u64>, q: int)
    requires
        q >= 2,
    ensures
        ternary(ternary_poly(words, q), q),
{
    assert forall|i: int| 0 <= i < words.len() implies (#[trigger] ternary_poly(words, q)[i]) == 0
        || ternary_poly(words, q)[i] == 1 || ternary_poly(words, q)[i] == q - 1 by {
        vstd::arithmetic::div_mod::lemma_small_mod(0, q as nat);
        vstd::arithmetic::div_mod::lemma_small_mod(1, q as nat);
        vstd::arithmetic::div_mod::lemma_mod_add_multiples_vanish(-1, q);
        vstd::arithmetic::div_mod::lemma_small_mod((q - 1) as nat, q as nat);
    }
}

/// A count of set bits stays within the number of bits counted.
pub proof fn lemma_bit_count_bounds(w: u64, from: int, len: int)
    requires
        0 <= from,
        0 <= len,
        from + len <= 64,
    ensures
        0 <= bit_count(w, from, len) <= len,
    decreases len,
{
    if len > 0 {
        lemma_bit_count_bounds(w, from, len - 1);
        let s: u64 = (from + len - 1) as u64;
        assert((w >> s) & 1 <= 1) by (bit_vector);
    }
}

fn count_bits(w: u64, from: u64, len: u64) -> (c: u64)
    requires
        from + len <= 64,
    ensures
        c == bit_count(w, from as int, len as int),
        c <= len,
{
    let mut c: u64 = 0;
    let mut j: u64 = 0;
    while j < len
        invariant
            j <= len,
            from + len <= 64,
            c == bit_count(w, from as int, j as int),
            c <= j,
        decreases len - j,
    {
        let s: u64 = from + j;
        assert((w >> s) & 1 <= 1) by (bit_vector);
        c = c + ((w >> s) & 1);
        j = j + 1;
    }
    c
}

/// The residue modulo `q` of the noise value of the word `w`.
pub fn noise_residue(w: u64, width: u64, q: u64) -> (r: u64)
    requires
        width <= 32,
        q > 0,
    ensures
        r == noise_value(w, width as int) % (q as int),
{
    let plus: u64 = count_bits(w, 0, width);
    let minus: u64 = count_bits(w, 32, width);
    crate::modular::sub(plus, minus, q)
}

/// The residue modulo `q` of the ternary value of the word `w`.
pub fn ternary_residue(w: u64, q: u64) -> (r: u64)
    requires
        q > 0,
    ensures
        r == ternary_value(w) % (q as int),
{
    let v: u64 = w % 3;
    if v == 2 {
        crate::modular::sub(0, 1, q)
    } else {
        v % q
    }
}

/// A polynomial of dimension `n` with coefficients 0, 1 and -1, one word each.
pub fn sample_ternary(rng: &mut RandomSource, n: usize, q: u64) -> (r: Result<
    Polynomial,
    EngineError,
>)
    requires
        old(rng).wf(),
        q > 0,
    ensures
        final(rng).wf(),
        match r {
            Ok(p) => old(rng)@.len() >= n && p.wf() && p@.modulus == q && p@.coeffs
                == ternary_poly(old(rng)@.take(n as int), q as int) && final(rng)@ == old(
                rng,
            )@.skip(n as int),
            Err(e) => e == EngineError::InsufficientEntropy && old(rng)@.len() < n && final(rng)@
                == old(rng)@,
        },
{
    let words: Vec<u64> = match rng.take(n) {
        Ok(words) => words,
        Err(e) => { return Err(e); },
    };
    let mut out: Vec<u64> = Vec::new();
    let mut i: usize = 0;
    while i < n
        invariant
            q > 0,
            i <= n,
            words.len() == n,
            out.len() == i,
            forall|j: int|
                0 <= j < i ==> #[trigger] out[j] == ternary_value(words[j]) % (q as int),
        decreases n - i,
    {
        out.push(ternary_residue(words[i], q));
        i += 1;
    }
    let p = Polynomial::from_coefficients(out, q);
    proof {
        assert forall|j: int| 0 <= j < n implies #[trigger] p@.coeffs[j] == ternary_poly(
            words@,
            q as int,
        )[j] by {
            vstd::arithmetic::div_mod::lemma_mod_twice(ternary_value(words[j]), q as int);
        }
        assert(p@.coeffs =~= ternary_poly(words@, q as int));
    }
    Ok(p)
}

/// The residue modulo `q` of two words read as one number of 128 bits.
pub fn uniform_residue(high: u64, low: u64, q: u64) -> (r: u64)
    requires
        q > 0,
    ensures
        r == wide_word(high, low) % (q as int),
{
    let wide: u128 = (high as u128) * 0x1_0000_0000_0000_0000 + (low as u128);
    (wide % (q as u128)) as u64
}

/// A polynomial of dimension `n` with coefficients spread over `[0, q)`, two
/// words each.
pub fn sample_uniform(rng: &mut RandomSource, n: usize, q: u64) -> (r: Result<
    Polynomial,
    EngineError,
>)
    requires
        old(rng).wf(),
        q > 0,
    ensures
        final(rng).wf(),
        match r {
            Ok(p) => old(rng)@.len() >= 2 * n && p.wf() && p@.modulus == q && p@.dimension() == n
                && p@.coeffs == uniform_poly(old(rng)@.take(2 * n), q as int) && final(rng)@
                == old(rng)@.skip(2 * n),
            Err(e) => e == EngineError::InsufficientEntropy && old(rng)@.len() < 2 * n
                && final(rng)@ == old(rng)@,
        },
{
    if n > usize::MAX / 2 {
        // more words than any source holds
        let held: usize = rng.remaining();
        return Err(EngineError::InsufficientEntropy);
    }
    let words: Vec<u64> = rng.take(2 * n)?;
    let mut out: Vec<u64> = Vec::new();
    let mut i: usize = 0;
    while i < n
        invariant
            q > 0,
            i <= n,
            words.len() == 2 * n,
            out.len() == i,
            forall|j: int|
                0 <= j < i ==> #[trigger] out[j] == wide_word(words[2 * j], words[2 * j + 1]) % (
                q as int),
        decreases n - i,
    {
        out.push(uniform_residue(words[2 * i], words[2 * i + 1], q));
        i += 1;
    }
    let p = Polynomial::from_coefficients(out, q);
    proof {
        assert forall|j: int| 0 <= j < n implies #[trigger] p@.coeffs[j] == uniform_poly(
            words@,
            q as int,
        )[j] by {
            vstd::arithmetic::div_mod::lemma_mod_twice(
                wide_word(words[2 * j], words[2 * j + 1]),
                q as int,
            );
        }
        assert(p@.coeffs =~= uniform_poly(words@, q as int));
    }
    Ok(p)
}

/// A polynomial of dimension `n` with noise coefficients of magnitude at
/// most `width`, one word each.
pub fn sample_noise(rng: &mut RandomSource, n: usize, width: u64, q: u64) -> (r: Result<
    Polynomial,
    EngineError,
>)
    requires
        old(rng).wf(),
        q > 0,
        width <= 32,
    ensures
        final(rng).wf(),
        match r {
            Ok(p) => old(rng)@.len() >= n && p.wf() && p@.modulus == q && p@.coeffs
                == noise_poly(old(rng)@.take(n as int), width as int, q as int) && final(rng)@
                == old(rng)@.skip(n as int),
            Err(e) => e == EngineError::InsufficientEntropy && old(rng)@.len() < n && final(rng)@
                == old(rng)@,
        },
{
    let words: Vec<u64> = match rng.take(n) {
        Ok(words) => words,
        Err(e) => { return Err(e); },
    };
    let mut out: Vec<u64> = Vec::new();
    let mut i: usize = 0;
    while i < n
        invariant
            q > 0,
            width <= 32,
            i <= n,
            words.len() == n,
            out.len() == i,
            forall|j: int|
                0 <= j < i ==> #[trigger] out[j] == noise_value(words[j], width as int) % (
                q as int),
        decreases n - i,
    {
        out.push(noise_residue(words[i], width, q));
        i += 1;
    }
    let p = Polynomial::from_coefficients(out, q);
    proof {
        assert forall|j: int| 0 <= j < n implies #[trigger] p@.coeffs[j] == noise_poly(
            words@,
            width as int,
            q as int,
        )[j] by {
            vstd::arithmetic::div_mod::lemma_mod_twice(
                noise_value(words[j], width as int),
                q as int,
            );
        }
        assert(p@.coeffs =~= noise_poly(words@, width as int, q as int));
    }
    Ok(p)
}

} // verus!
