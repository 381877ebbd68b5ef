//! Number-theoretic transforms over the Baby Bear field `P = 2^31 - 2^27 + 1`.
//!
//! [`dft::roots_of_unity_table`] builds the table of twiddle factors for a
//! power-of-two length, [`dft::forward_fft`] transforms a buffer in place with
//! it, and [`dft::backward_fft`] transforms back with the inverse root alone,
//! which [`dft::inverse_root`] supplies. The backward transform does not
//! normalise: a round trip multiplies every entry by the length.
//!
//! The contracts are stated against the discrete Fourier transform as a sum
//! ([`dft::model::dft`]) and proved; [`dft::laws`] holds what follows for the
//! transforms taken together. Buffers hold canonical representatives, `i64`
//! values in `[0, P)`. The field backend supplies the canonical roots of
//! unity and their inverses ([`backend`]); all other arithmetic is the
//! library's own ([`field`]).
//!
//! [`air::PoseidonAir`] holds the parameters of a Poseidon permutation for
//! its arithmetization.

pub mod air;
pub mod backend;
pub mod congruence;
pub mod dft;
pub mod field;
pub mod sums;
