use scirust_signal::fft::{fft, ifft, FftScalar};

/// Exact arithmetic modulo the prime 17, whose multiplicative group is cyclic of
/// order 16 with generator 3: a commutative ring whose twiddle factors are
/// roots of unity, so the transforms must equal the DFT sums exactly.
#[derive(Clone, Copy, Debug, PartialEq)]
struct Mod17(u64);

const P: u64 = 17;

fn pow_mod(b: u64, e: u64) -> u64 {
    let mut r = 1u64;
    for _ in 0..e {
        r = r * b % P;
    }
    r
}

impl FftScalar for Mod17 {
    type Real = u64;
    fn plus(self, o: Self) -> Self {
        Mod17((self.0 + o.0) % P)
    }
    fn minus(self, o: Self) -> Self {
        Mod17((self.0 + P - o.0) % P)
    }
    fn times(self, o: Self) -> Self {
        Mod17(self.0 * o.0 % P)
    }
    fn conj(self) -> Self {
        self
    }
    fn scale_inv(self, n: usize) -> Self {
        // n^(p - 2) is the inverse of n modulo p.
        Mod17(self.0 * pow_mod(n as u64 % P, P - 2) % P)
    }
    fn one() -> Self {
        Mod17(1)
    }
    fn root(len: usize) -> Self {
        Mod17(pow_mod(3, 16 / len as u64))
    }
    fn root_portable(len: usize) -> Self {
        Self::root(len)
    }
    fn from_real(x: u64) -> Self {
        Mod17(x % P)
    }
    fn plus_spec(self, o: Self) -> Self {
        self.plus(o)
    }
    fn minus_spec(self, o: Self) -> Self {
        self.minus(o)
    }
    fn times_spec(self, o: Self) -> Self {
        self.times(o)
    }
    fn conj_spec(self) -> Self {
        self.conj()
    }
    fn scale_inv_spec(self, n: usize) -> Self {
        self.scale_inv(n)
    }
    fn one_spec() -> Self {
        Self::one()
    }
    fn root_spec(len: usize) -> Self {
        Self::root(len)
    }
    fn root_portable_spec(len: usize) -> Self {
        Self::root_portable(len)
    }
    fn from_real_spec(x: u64) -> Self {
        Self::from_real(x)
    }
}

/// `sum_j x[j] w^(j k)` computed directly.
fn dft_sum(x: &[Mod17], k: usize) -> Mod17 {
    let w = Mod17::root(x.len()).0;
    let mut acc = 0u64;
    for (j, v) in x.iter().enumerate() {
        acc = (acc + v.0 * pow_mod(w, (j * k) as u64)) % P;
    }
    Mod17(acc)
}

#[test]
fn fft_equals_the_dft_sum_over_exact_arithmetic() {
    for &n in &[1usize, 2, 4, 8, 16] {
        let x: Vec<Mod17> = (0..n).map(|i| Mod17((i as u64 * 7 + 3) % P)).collect();
        let mut buf = x.clone();
        fft(&mut buf);
        for k in 0..n {
            assert_eq!(buf[k], dft_sum(&x, k), "n = {}, k = {}", n, k);
        }
    }
}

#[test]
fn ifft_is_the_conjugated_dft_divided_by_n() {
    let y: Vec<Mod17> = (0..8).map(|i| Mod17((i as u64 * 5 + 1) % P)).collect();
    let mut buf = y.clone();
    ifft(&mut buf);
    for k in 0..8 {
        assert_eq!(buf[k], dft_sum(&y, k).scale_inv(8));
    }
}
