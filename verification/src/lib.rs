//! Signal-processing building blocks: the radix-2 FFT, index helpers shared by
//! the denoisers, and the enumerations that name noise classes, wavelet bases
//! and diagnostic verdicts.

pub mod denoise;
pub mod dft;
pub mod dyadic;
pub mod error;
pub mod fft;
pub mod filter;
pub mod mcsa;
