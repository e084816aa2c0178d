//! Reed-Solomon erasure coding over GF(2^32).
//!
//! A byte string is cut into stripes of `k` 32-bit words. Each stripe is read as the
//! values of a polynomial of degree below `k` at the points `0..k`, and that polynomial
//! is evaluated at the points `0..n` to give one word for each of `n` shards. Any `k`
//! shards determine the polynomial again, and with it the bytes.
//!
//! The layers, from the bottom:
//! - `bits`, `division`: bit patterns as polynomials over GF(2), their product and
//!   their division with remainder;
//! - `polynomial`, `notation`: the type `BinaryPolynomial` with these operations, and
//!   how it is written out;
//! - `field`, `gf232`: the field GF(2^32), its laws, and the type `GF232`;
//! - `coefficients`, `polygf232`: polynomials over the field and the type `PolyGF232`;
//! - `evaluation`, `roots`, `interpolation`: values of such polynomials, their zeros,
//!   and the polynomial through given points;
//! - `framing`, `codec`: the layout of bytes, and `encode` and `decode`;
//! - `laws`: that `decode` gives back what `encode` was given;
//! - `search`: the search for a modulus of the field.
pub mod bits;
pub mod division;
pub mod field;
pub mod polynomial;
pub mod notation;
pub mod gf232;
pub mod coefficients;
pub mod polygf232;
pub mod evaluation;
pub mod roots;
pub mod interpolation;
pub mod framing;
pub mod codec;
pub mod laws;
pub mod search;

pub use codec::decode;
pub use codec::encode;
