//! A small leveled homomorphic-encryption engine over the ring
//! `Z_q[x]/(x^n + 1)`, with every function verified against its contract.
//!
//! The engine, from the bottom up:
//!
//! - [`modular`]: arithmetic modulo `q` on machine words;
//! - [`poly`]: the elements of the ring and their arithmetic;
//! - [`params`]: the parameter set and the noise bounds that follow from it;
//! - [`random`] and [`sampling`]: the stream of random words and the three
//!   distributions drawn from it;
//! - [`keys`]: key generation;
//! - [`encoder`]: plaintexts and the maps between integers and plaintexts;
//! - [`cipher`]: ciphertexts, encryption and decryption;
//! - [`evaluator`]: addition and multiplication of ciphertexts.
//!
//! What holds of these together is proved in [`ring_laws`] (the ring is a
//! commutative ring), [`correctness`] (decryption inverts encryption, and the
//! sum of ciphertexts decrypts to the sum of plaintexts) and
//! [`product_laws`] (the product of ciphertexts decrypts to the product of
//! plaintexts); [`sums`] holds the finite sums that these rest on.
//!
//! [`processor`] is the item counter of the command-line tool, and
//! [`error`] the failures that all of them report.

pub mod cipher;
pub mod correctness;
pub mod encoder;
pub mod error;
pub mod evaluator;
pub mod keys;
pub mod modular;
pub mod params;
pub mod poly;
pub mod processor;
pub mod product_laws;
pub mod random;
pub mod ring_laws;
pub mod sampling;
pub mod sums;
