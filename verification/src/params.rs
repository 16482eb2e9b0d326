//! The parameter set of the scheme and the noise bounds that follow from it.

use crate::poly::round_div;
use vstd::arithmetic::div_mod::*;
use vstd::prelude::*;

verus! {

/// The largest ring dimension that the engine accepts.
pub const MAX_DIMENSION: usize = 65536;

/// The largest ciphertext modulus that the engine accepts, `2^62`.
pub const MAX_MODULUS: u64 = 0x4000_0000_0000_0000;

/// The base in which relinearisation splits a coefficient into digits.
pub const RELIN_BASE: u64 = 256;

/// The widest noise that one draw can give, and so the largest noise width.
pub const MAX_NOISE_WIDTH: u64 = 32;

/// `n` is a power of two.
pub open spec fn is_power_of_two(n: nat) -> bool
    decreases n,
{
    n == 1 || (n > 1 && n % 2 == 0 && is_power_of_two(n / 2))
}

/// The largest magnitude of a noise sample for a standard deviation given in
/// thousandths: twice the variance, rounded, which is the width of the
/// centred binomial distribution of that variance.
pub open spec fn noise_width_of(sigma_milli: int) -> int {
    round_div(2 * sigma_milli * sigma_milli, 1_000_000)
}

/// How many digits in base [`RELIN_BASE`] the number `x` has, at least one.
pub open spec fn digit_count(x: nat) -> nat
    decreases x,
{
    if x < 256 {
        1
    } else {
        1 + digit_count(x / 256)
    }
}

/// The mathematical value of a [`ParameterSet`].
pub struct Parameters {
    /// The ring dimension `n`.
    pub dimension: nat,
    /// The ciphertext modulus `q`.
    pub modulus: int,
    /// The plaintext modulus `t`.
    pub plain_modulus: int,
    /// The standard deviation of the noise, in thousandths.
    pub sigma_milli: int,
}

impl Parameters {
    /// The scale `floor(q / t)` that lifts a plaintext into the ciphertext space.
    pub open spec fn delta(self) -> int {
        self.modulus / self.plain_modulus
    }

    /// What `q` leaves over `t`: the error of one wrap of the plaintext.
    pub open spec fn residue(self) -> int {
        self.modulus % self.plain_modulus
    }

    /// The largest magnitude of one noise sample.
    pub open spec fn noise_width(self) -> int {
        noise_width_of(self.sigma_milli)
    }

    /// The noise bound of a fresh ciphertext: one error term, and two
    /// products of an error with a ternary polynomial.
    pub open spec fn fresh_noise(self) -> int {
        self.noise_width() * (2 * self.dimension + 1)
    }

    /// Whether a ciphertext whose noise is at most `v` in magnitude still
    /// decrypts: the noise and one wrap of the plaintext stay under half the
    /// scale.
    pub open spec fn decryptable(self, v: int) -> bool {
        2 * (v + self.residue()) < self.delta()
    }

    /// The number of digits of relinearisation, that of `q - 1`.
    pub open spec fn relin_digits(self) -> nat {
        digit_count((self.modulus - 1) as nat)
    }

    /// The noise bound of the sum of two ciphertexts with bounds `v1`, `v2`.
    pub open spec fn sum_noise(self, v1: int, v2: int) -> int {
        v1 + v2 + self.residue()
    }

    /// The noise bound of the product of two ciphertexts with bounds `v1`
    /// and `v2`: the cross terms of the tensor product, the rounding of the
    /// rescaling, and what relinearisation adds.
    pub open spec fn product_noise(self, v1: int, v2: int) -> int {
        let n = self.dimension as int;
        let t = self.plain_modulus;
        n * t * ((n + 7) / 2) * (v1 + v2 + 2 * t) + n * v1 + n * n + 1 + self.relin_digits() * n
            * 256 * self.noise_width()
    }

    /// Whether the integer tensor product of two ciphertexts fits the wide
    /// machine integers: `n * q^2 <= 2^126`.
    pub open spec fn product_fits(self) -> bool {
        self.dimension * (self.modulus * self.modulus) <= 0x4000_0000_0000_0000_0000_0000_0000_0000
    }

    /// The invariant of a parameter set.
    pub open spec fn valid(self) -> bool {
        &&& is_power_of_two(self.dimension)
        &&& self.dimension <= MAX_DIMENSION
        &&& 1 <= self.plain_modulus < self.modulus <= MAX_MODULUS
        &&& 0 <= self.sigma_milli <= u32::MAX
        &&& 1 <= self.noise_width() <= MAX_NOISE_WIDTH
        &&& self.decryptable(self.fresh_noise())
    }

    /// Whether two fresh ciphertexts can be multiplied once and still decrypt.
    pub open spec fn supports_multiplication(self) -> bool {
        self.product_fits() && self.decryptable(
            self.product_noise(self.fresh_noise(), self.fresh_noise()),
        )
    }
}

/// Ring dimension, moduli and noise of one instance of the scheme.
#[derive(Clone, Copy, Debug, PartialEq, Eq, Structural)]
pub struct ParameterSet {
    pub(crate) n: usize,
    pub(crate) q: u64,
    pub(crate) t: u64,
    pub(crate) sigma_milli: u32,
}

impl View for ParameterSet {
    type V = Parameters;

    open(crate) spec fn view(&self) -> Parameters {
        Parameters {
            dimension: self.n as nat,
            modulus: self.q as int,
            plain_modulus: self.t as int,
            sigma_milli: self.sigma_milli as int,
        }
    }
}

/// Whether `n` is a power of two.
pub fn check_power_of_two(n: usize) -> (b: bool)
    ensures
        b == is_power_of_two(n as nat),
{
    if n == 0 {
        return false;
    }
    let mut m: usize = n;
    while m > 1 && m % 2 == 0
        invariant
            m >= 1,
            is_power_of_two(m as nat) == is_power_of_two(n as nat),
        decreases m,
    {
        m = m / 2;
    }
    m == 1
}

/// A bound on what is left of a 64-bit number once `d - 1` digits are gone.
spec fn digit_cap(d: int) -> int {
    if d <= 1 {
        0x1_0000_0000_0000_0000
    } else if d == 2 {
        0x100_0000_0000_0000
    } else if d == 3 {
        0x1_0000_0000_0000
    } else if d == 4 {
        0x100_0000_0000
    } else if d == 5 {
        0x1_0000_0000
    } else if d == 6 {
        0x100_0000
    } else if d == 7 {
        0x1_0000
    } else {
        0x100
    }
}

/// The number of base-256 digits of `x`.
pub fn count_digits(x: u64) -> (d: usize)
    ensures
        d == digit_count(x as nat),
        1 <= d <= 8,
{
    let mut rest: u64 = x;
    let mut d: usize = 1;
    while rest >= RELIN_BASE
        invariant
            1 <= d <= 8,
            d + digit_count(rest as nat) == 1 + digit_count(x as nat),
            rest < digit_cap(d as int),
        decreases rest,
    {
        rest = rest / RELIN_BASE;
        d = d + 1;
    }
    d
}

impl ParameterSet {
    /// The invariant of the type.
    pub open spec fn wf(&self) -> bool {
        self@.valid()
    }

    /// The parameter set with ring dimension `n`, ciphertext modulus `q`,
    /// plaintext modulus `t` and noise of standard deviation
    /// `sigma_milli / 1000`, if these are valid together.
    ///
    /// Each noise sample is drawn from one 64-bit word, which holds a noise
    /// width from 1 to [`MAX_NOISE_WIDTH`]. The width is twice the variance,
    /// rounded, so the standard deviations accepted are those from 0.5 up
    /// to 4.031, `sigma_milli` from 500 to 4031; any other is refused.
    pub fn new(n: usize, q: u64, t: u64, sigma_milli: u32) -> (r: Option<ParameterSet>)
        ensures
            r is Some <==> (Parameters {
                dimension: n as nat,
                modulus: q as int,
                plain_modulus: t as int,
                sigma_milli: sigma_milli as int,
            }).valid(),
            r matches Some(p) ==> p.wf() && p@ == (Parameters {
                dimension: n as nat,
                modulus: q as int,
                plain_modulus: t as int,
                sigma_milli: sigma_milli as int,
            }),
    {
        if !check_power_of_two(n) || n > MAX_DIMENSION {
            return None;
        }
        if t < 1 || t >= q || q > MAX_MODULUS {
            return None;
        }
        let p = ParameterSet { n, q, t, sigma_milli };
        let width: u64 = p.noise_width();
        if width < 1 || width > MAX_NOISE_WIDTH {
            return None;
        }
        if !p.is_decryptable(p.fresh_noise() as u128) {
            return None;
        }
        Some(p)
    }

    /// The noise bound of a fresh ciphertext.
    pub fn fresh_noise(&self) -> (v: u64)
        requires
            self@.dimension <= MAX_DIMENSION,
            0 <= self@.noise_width() <= MAX_NOISE_WIDTH,
        ensures
            v == self@.fresh_noise(),
    {
        let width: u64 = self.noise_width();
        assert(width * (2 * self.n + 1) <= 32 * 131073) by (nonlinear_arith)
            requires
                width <= 32,
                self.n <= 65536,
        ;
        width * (2 * (self.n as u64) + 1)
    }

    /// The ring dimension `n`.
    pub fn dimension(&self) -> (n: usize)
        ensures
            n == self@.dimension,
    {
        self.n
    }

    /// The ciphertext modulus `q`.
    pub fn modulus(&self) -> (q: u64)
        ensures
            q == self@.modulus,
    {
        self.q
    }

    /// The plaintext modulus `t`.
    pub fn plain_modulus(&self) -> (t: u64)
        ensures
            t == self@.plain_modulus,
    {
        self.t
    }

    /// The standard deviation of the noise, in thousandths.
    pub fn sigma_milli(&self) -> (s: u32)
        ensures
            s == self@.sigma_milli,
    {
        self.sigma_milli
    }

    /// The scale `floor(q / t)`.
    pub fn delta(&self) -> (d: u64)
        requires
            self@.plain_modulus > 0,
        ensures
            d == self@.delta(),
    {
        self.q / self.t
    }

    /// The largest magnitude of one noise sample, capped at `2^40` where the
    /// standard deviation is far out of range.
    pub fn noise_width(&self) -> (w: u64)
        ensures
            self@.noise_width() < 0x100_0000_0000 ==> w == self@.noise_width(),
            self@.noise_width() >= 0x100_0000_0000 ==> w == 0x100_0000_0000,
    {
        let s: u128 = self.sigma_milli as u128;
        assert(2 * s * s <= 2 * 0xffff_ffff * 0xffff_ffff) by (nonlinear_arith)
            requires
                s <= 0xffff_ffff,
        ;
        let twice: u128 = 2 * s * s;
        let quotient: u128 = twice / 1_000_000;
        let remainder: u128 = twice % 1_000_000;
        let rounded: u128 = if 2 * remainder >= 1_000_000 {
            quotient + 1
        } else {
            quotient
        };
        if rounded >= 0x100_0000_0000 {
            0x100_0000_0000
        } else {
            rounded as u64
        }
    }

    /// Whether a ciphertext with noise bound `v` still decrypts.
    pub fn is_decryptable(&self, v: u128) -> (b: bool)
        requires
            self@.plain_modulus > 0,
        ensures
            b == self@.decryptable(v as int),
    {
        let rho: u128 = (self.q % self.t) as u128;
        let delta: u128 = (self.q / self.t) as u128;
        if v >= delta {
            false
        } else {
            2 * (v + rho) < delta
        }
    }

    /// Whether two fresh ciphertexts can be multiplied once and still decrypt.
    pub fn supports_multiplication(&self) -> (b: bool)
        requires
            self.wf(),
        ensures
            b == self@.supports_multiplication(),
    {
        let fresh: u64 = self.fresh_noise();
        check_product_fits(self) && self.is_decryptable(product_noise_bound(self, fresh, fresh))
    }
}

/// Above this every noise bound is beyond decryption, `2^62`.
pub const NOISE_CAP: u128 = 0x4000_0000_0000_0000;

/// `x`, or the cap where `x` is above it.
pub open spec fn capped(x: int) -> int {
    if x >= NOISE_CAP {
        NOISE_CAP as int
    } else {
        x
    }
}

fn capped_mul(x: u128, y: u128) -> (r: u128)
    requires
        x <= NOISE_CAP,
        y <= 0x3_0000_0000_0000_0000,
    ensures
        r == capped(x * y),
{
    assert(x * y <= 0x4000_0000_0000_0000 * 0x3_0000_0000_0000_0000) by (nonlinear_arith)
        requires
            x <= 0x4000_0000_0000_0000,
            y <= 0x3_0000_0000_0000_0000,
    ;
    let product: u128 = x * y;
    if product >= NOISE_CAP {
        NOISE_CAP
    } else {
        product
    }
}

fn capped_add(x: u128, y: u128) -> (r: u128)
    requires
        x <= NOISE_CAP,
        y <= NOISE_CAP,
    ensures
        r == capped(x + y),
{
    let sum: u128 = x + y;
    if sum >= NOISE_CAP {
        NOISE_CAP
    } else {
        sum
    }
}

/// Capping a factor first does not change the capped product.
proof fn lemma_capped_mul(x: int, y: int)
    requires
        0 <= x,
        0 <= y,
    ensures
        capped(capped(x) * y) == capped(x * y),
{
    if x >= NOISE_CAP {
        if y >= 1 {
            assert(x * y >= x) by (nonlinear_arith)
                requires
                    x >= 0,
                    y >= 1,
            ;
            assert(0x4000_0000_0000_0000 * y >= 0x4000_0000_0000_0000) by (nonlinear_arith)
                requires
                    y >= 1,
            ;
        } else {
            assert(x * y == 0) by (nonlinear_arith)
                requires
                    y == 0,
            ;
        }
    }
}

/// The noise bound of a product, capped at [`NOISE_CAP`].
pub fn product_noise_bound(params: &ParameterSet, v1: u64, v2: u64) -> (r: u128)
    requires
        params.wf(),
    ensures
        r == capped(params@.product_noise(v1 as int, v2 as int)),
{
    let n: u128 = params.dimension() as u128;
    let t: u128 = params.plain_modulus() as u128;
    let half: u128 = (n + 7) / 2;
    let spread: u128 = v1 as u128 + v2 as u128 + 2 * t;
    let width: u128 = params.noise_width() as u128;
    let digits: u128 = count_digits(params.modulus() - 1) as u128;
    let a1: u128 = capped_mul(n, t);
    let a2: u128 = capped_mul(a1, half);
    let a3: u128 = capped_mul(a2, spread);
    let b: u128 = capped_mul(n, v1 as u128);
    assert(n * n <= 65536 * 65536) by (nonlinear_arith)
        requires
            n <= 65536,
    ;
    let c: u128 = n * n + 1;
    let d1: u128 = capped_mul(digits, n);
    let d2: u128 = capped_mul(d1, 256);
    let d3: u128 = capped_mul(d2, width);
    proof {
        let ni: int = n as int;
        let ti: int = t as int;
        let hi: int = half as int;
        let si: int = spread as int;
        assert(ni * ti >= 0 && ni * ti * hi >= 0 && ni * ti * hi * si >= 0) by (nonlinear_arith)
            requires
                ni >= 0,
                ti >= 0,
                hi >= 0,
                si >= 0,
        ;
        lemma_capped_mul(ni * ti, hi);
        lemma_capped_mul(ni * ti * hi, si);
        let di: int = digits as int;
        let wi: int = width as int;
        assert(di * ni >= 0 && di * ni * 256 >= 0 && di * ni * 256 * wi >= 0 && ni * (v1 as int)
            >= 0) by (nonlinear_arith)
            requires
                di >= 0,
                ni >= 0,
                wi >= 0,
                v1 >= 0,
        ;
        lemma_capped_mul(di * ni, 256);
        lemma_capped_mul(di * ni * 256, wi);
    }
    capped_add(capped_add(capped_add(a3, b), c), d3)
}

/// Whether the tensor product in the ring of `params` fits the wide integers.
pub fn check_product_fits(params: &ParameterSet) -> (b: bool)
    requires
        params.wf(),
    ensures
        b == params@.product_fits(),
{
    let n: u128 = params.dimension() as u128;
    let q: u128 = params.modulus() as u128;
    assert(q * q <= 0x4000_0000_0000_0000 * 0x4000_0000_0000_0000) by (nonlinear_arith)
        requires
            q <= 0x4000_0000_0000_0000,
    ;
    let square: u128 = q * q;
    let limit: u128 = 0x4000_0000_0000_0000_0000_0000_0000_0000;
    proof {
        reveal_with_fuel(is_power_of_two, 1);
        let room: int = (limit / n) as int;
        lemma_fundamental_div_mod(limit as int, n as int);
        if square <= room {
            assert(n * square <= n * room) by (nonlinear_arith)
                requires
                    square <= room,
                    n >= 0,
            ;
        } else {
            assert(n * square >= n * (room + 1)) by (nonlinear_arith)
                requires
                    square >= room + 1,
                    n >= 0,
            ;
            assert(n * (room + 1) == n * room + n) by (nonlinear_arith);
        }
    }
    square <= limit / n
}

} // verus!
