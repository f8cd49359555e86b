use scirust_signal::fft::{bit_reverse, fft, fft_portable, fft_real, ifft, ifft_portable, FftScalar};
use scirust_signal::filter::prod;

#[derive(Clone, Copy, Debug, PartialEq)]
struct Complex {
    re: f64,
    im: f64,
}

impl Complex {
    fn new(re: f64, im: f64) -> Self {
        Complex { re, im }
    }
    fn mag(&self) -> f64 {
        (self.re * self.re + self.im * self.im).sqrt()
    }
}

impl FftScalar for Complex {
    type Real = f64;
    fn plus(self, o: Self) -> Self {
        Complex::new(self.re + o.re, self.im + o.im)
    }
    fn minus(self, o: Self) -> Self {
        Complex::new(self.re - o.re, self.im - o.im)
    }
    fn times(self, o: Self) -> Self {
        Complex::new(self.re * o.re - self.im * o.im, self.re * o.im + self.im * o.re)
    }
    fn conj(self) -> Self {
        Complex::new(self.re, -self.im)
    }
    fn scale_inv(self, n: usize) -> Self {
        let s = 1.0 / n as f64;
        Complex::new(self.re * s, self.im * s)
    }
    fn one() -> Self {
        Complex::new(1.0, 0.0)
    }
    fn root(len: usize) -> Self {
        let ang = -2.0 * std::f64::consts::PI / len as f64;
        Complex::new(ang.cos(), ang.sin())
    }
    fn root_portable(len: usize) -> Self {
        Self::root(len)
    }
    fn from_real(x: f64) -> Self {
        Complex::new(x, 0.0)
    }
    // The values the operations above return, as functions of their arguments.
    fn plus_spec(self, o: Self) -> Self {
        self.plus(o)
    }
    fn minus_spec(self, o: Self) -> Self {
        self.minus(o)
    }
    fn times_spec(self, o: Self) -> Self {
        self.times(o)
    }
    fn conj_spec(self) -> Self {
        self.conj()
    }
    fn scale_inv_spec(self, n: usize) -> Self {
        self.scale_inv(n)
    }
    fn one_spec() -> Self {
        Self::one()
    }
    fn root_spec(len: usize) -> Self {
        Self::root(len)
    }
    fn root_portable_spec(len: usize) -> Self {
        Self::root_portable(len)
    }
    fn from_real_spec(x: f64) -> Self {
        Self::from_real(x)
    }
}

const EPS: f64 = 1e-10;

#[test]
fn test_fft_dc() {
    let mut buf = vec![Complex::new(1.0, 0.0); 8];
    fft(&mut buf);
    // All energy should be in bin 0
    assert!((buf[0].re - 8.0).abs() < EPS);
    for (i, c) in buf.iter().enumerate().take(8).skip(1) {
        assert!(c.mag() < EPS, "bin {} has magnitude {}", i, c.mag());
    }
}

#[test]
fn test_fft_roundtrip() {
    let signal: Vec<Complex> = (0..16)
        .map(|i| Complex::new((i as f64).sin(), 0.0))
        .collect();
    let mut freq = signal.clone();
    fft(&mut freq);
    ifft(&mut freq);
    for (i, (a, b)) in signal.iter().zip(freq.iter()).enumerate() {
        assert!((a.re - b.re).abs() < EPS, "mismatch at {}: {} vs {}", i, a.re, b.re);
        assert!((a.im - b.im).abs() < EPS, "mismatch at {}: {} vs {}", i, a.im, b.im);
    }
}

#[test]
fn test_fft_sine() {
    // 32-point FFT of sin(2*pi*4*t) — should have energy only at bin 4
    let n = 32;
    let signal: Vec<f64> = (0..n)
        .map(|i| (2.0 * std::f64::consts::PI * 4.0 * i as f64 / n as f64).sin())
        .collect();
    let spec: Vec<Complex> = fft_real(&signal);
    assert_eq!(spec.len(), n / 2 + 1);
    let mag4 = spec[4].mag();
    let mag5 = spec[5].mag();
    assert!(mag4 > 10.0, "bin 4 magnitude too low: {}", mag4);
    assert!(mag5 < 1.0, "bin 5 has unexpected energy: {}", mag5);
    assert!(spec[0].mag() < 1.0);
}

#[test]
fn bit_reverse_permutes_and_undoes_itself() {
    let mut v: Vec<u32> = (0..8).collect();
    bit_reverse(&mut v, 8);
    assert_eq!(v, vec![0, 4, 2, 6, 1, 5, 3, 7]);
    bit_reverse(&mut v, 8);
    assert_eq!(v, (0..8).collect::<Vec<u32>>());
    // only the first n items take part
    let mut w: Vec<u32> = (0..6).collect();
    bit_reverse(&mut w, 4);
    assert_eq!(w, vec![0, 2, 1, 3, 4, 5]);
    let mut one = vec![9u32];
    bit_reverse(&mut one, 1);
    assert_eq!(one, vec![9]);
}

#[test]
fn single_sample_is_its_own_transform() {
    let x = Complex::new(2.5, -1.0);
    let mut buf = vec![x];
    fft(&mut buf);
    assert_eq!(buf, vec![x]);
    ifft(&mut buf);
    assert_eq!(buf, vec![x]);
}

#[test]
fn fft_of_an_impulse_is_flat() {
    let mut buf = vec![Complex::new(0.0, 0.0); 16];
    buf[0] = Complex::new(1.0, 0.0);
    fft(&mut buf);
    for c in &buf {
        assert!((c.re - 1.0).abs() < EPS && c.im.abs() < EPS);
    }
}

#[test]
fn fft_two_point_is_sum_and_difference() {
    let mut buf = vec![Complex::new(3.0, 1.0), Complex::new(1.0, -2.0)];
    fft(&mut buf);
    assert_eq!(buf, vec![Complex::new(4.0, -1.0), Complex::new(2.0, 3.0)]);
}

#[test]
fn portable_transform_matches_standard_with_equal_twiddles() {
    let signal: Vec<Complex> = (0..32)
        .map(|i| Complex::new((i as f64 * 0.3).sin(), (i as f64 * 0.7).cos()))
        .collect();
    let mut a = signal.clone();
    fft(&mut a);
    let mut b = signal.clone();
    fft_portable(&mut b);
    assert_eq!(a, b);
    ifft_portable(&mut b);
    for (x, y) in signal.iter().zip(b.iter()) {
        assert!((x.re - y.re).abs() < EPS && (x.im - y.im).abs() < EPS);
    }
}

#[test]
fn fft_real_returns_the_half_spectrum() {
    let signal = [1.0, 2.0, 3.0, 4.0];
    let spec: Vec<Complex> = fft_real(&signal);
    assert_eq!(spec.len(), 3);
    assert!((spec[0].re - 10.0).abs() < EPS);
    assert!((spec[1].re + 2.0).abs() < EPS && (spec[1].im - 2.0).abs() < EPS);
    assert!((spec[2].re + 2.0).abs() < EPS && spec[2].im.abs() < EPS);
    let one: Vec<Complex> = fft_real(&[5.0]);
    assert_eq!(one, vec![Complex::new(5.0, 0.0)]);
}

#[test]
fn prod_multiplies_left_to_right_from_one() {
    let vs = [Complex::new(0.0, 1.0), Complex::new(0.0, 1.0), Complex::new(2.0, 0.0)];
    assert_eq!(prod(&vs), Complex::new(-2.0, 0.0));
    let empty: [Complex; 0] = [];
    assert_eq!(prod(&empty), Complex::new(1.0, 0.0));
}
