# scirust_signal

Signal-processing building blocks whose discrete logic is proved with Verus.

- `src/` is the verified library: the radix-2 FFT (stated over an abstract
  complex-like scalar, `fft::FftScalar`, and shown in `dft` to be the
  discrete Fourier transform whenever that scalar's arithmetic is an exact
  commutative ring with roots of unity), power-of-two sizing and reflection
  padding, mirrored windows, wavelet-depth and cycle-spinning bookkeeping,
  the sorted sliding window behind the streaming rank filters (with its
  agreement with the batch window on the interior), the vector median's
  choice of window position, the total-order keys of doubles, and the
  taxonomy enums.
- `tests/` exercises the library with a concrete `f64` complex type and with
  exact arithmetic modulo 17.
- `app/` holds part of the floating-point side built on the verified
  pieces: the `f64` complex type and length-checked transforms, FIR/IIR
  filter design, linear, rank, non-local-means, collaborative, wavelet
  (including block) and variational denoisers, Kalman and adaptive line
  enhancers, streaming filters, envelope analysis and crossing measures,
  the multichannel vector median and spatial Wiener filter, and the
  serde/thiserror companions of the library's types. The STFT, detection,
  variance-stabilization, cascade and automatic-selection denoisers are not
  part of this crate.
