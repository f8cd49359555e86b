//! The named inner denoisers of the variance-stabilization benchmark.

use vstd::prelude::*;

verus! {

/// A named inner Gaussian denoiser applied in the (variance-stabilized) domain.
#[derive(Debug, Clone, Copy, PartialEq, Eq, Structural)]
pub enum InnerDenoiser {
    /// Linear Gaussian smoother.
    GaussianSmooth,
    /// Wiener filter calibrated with a single global noise level.
    WienerGlobal,
    /// Soft-threshold wavelet shrinkage.
    WaveletSoft,
    /// Short-time Wiener with automatic noise-floor tracking.
    StftWienerAuto,
}

impl InnerDenoiser {
    /// The stable table key of each denoiser.
    pub open spec fn name_spec(self) -> Seq<char> {
        match self {
            InnerDenoiser::GaussianSmooth => "gaussian_smooth"@,
            InnerDenoiser::WienerGlobal => "wiener_global"@,
            InnerDenoiser::WaveletSoft => "wavelet_soft"@,
            InnerDenoiser::StftWienerAuto => "stft_wiener_auto"@,
        }
    }

    /// Human-readable name (stable; used as a table key).
    pub fn name(self) -> (r: &'static str)
        ensures
            r@ == self.name_spec(),
    {
        match self {
            InnerDenoiser::GaussianSmooth => "gaussian_smooth",
            InnerDenoiser::WienerGlobal => "wiener_global",
            InnerDenoiser::WaveletSoft => "wavelet_soft",
            InnerDenoiser::StftWienerAuto => "stft_wiener_auto",
        }
    }
}

/// The kind of a benchmark noise model, without its strength parameter:
/// multiplicative (`y = x (1 + a z)`), Poisson-like (`y = x + sqrt(x) z`) or
/// additive Gaussian (`y = x + s z`).
#[derive(Debug, Clone, Copy, PartialEq, Eq, Structural)]
pub enum NoiseModelKind {
    /// Multiplicative noise, standard deviation proportional to the level.
    Multiplicative,
    /// Poisson-like noise, standard deviation the square root of the level.
    PoissonLike,
    /// Additive homoscedastic Gaussian noise.
    AdditiveGaussian,
}

impl NoiseModelKind {
    /// The stable table key of each noise model.
    pub open spec fn name_spec(self) -> Seq<char> {
        match self {
            NoiseModelKind::Multiplicative => "multiplicative"@,
            NoiseModelKind::PoissonLike => "poisson_like"@,
            NoiseModelKind::AdditiveGaussian => "additive_gaussian"@,
        }
    }

    /// Stable name (table key).
    pub fn name(self) -> (r: &'static str)
        ensures
            r@ == self.name_spec(),
    {
        match self {
            NoiseModelKind::Multiplicative => "multiplicative",
            NoiseModelKind::PoissonLike => "poisson_like",
            NoiseModelKind::AdditiveGaussian => "additive_gaussian",
        }
    }
}

} // verus!
