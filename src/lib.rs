//! A number-theoretic transform over a prime field: bit-reversal permutation,
//! twiddle tables and the in-place radix-2 transform.
pub mod bitrev;
pub mod fft;
pub mod field;
pub mod poly;
