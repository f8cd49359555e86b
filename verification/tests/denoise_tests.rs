use scirust_signal::denoise::collab::prev_pow2;
use scirust_signal::denoise::compand::SoftClipKind;
use scirust_signal::denoise::detect::NoiseType;
use scirust_signal::denoise::multichannel::{first_min_position, GateRng};
use scirust_signal::denoise::nlm::mirror_extend;
use scirust_signal::denoise::rank::mirror_window;
use scirust_signal::denoise::streaming::{
    bits_from_key, lower_bound, middle_keys, sort_keys, sorted_insert, sorted_remove,
    total_order_key, SortedWindow,
};
use scirust_signal::denoise::transform::{
    cycle_shifts, dwt_level_count, rotate_left, ThresholdMode, Wavelet,
};
use scirust_signal::denoise::vst_bench::{InnerDenoiser, NoiseModelKind};
use scirust_signal::denoise::{mirror_index, next_pow2, pad_reflect_pow2, DenoiserFamily};
use scirust_signal::error::SignalError;
use scirust_signal::mcsa::{BarSeverity, MotorFault};

#[test]
fn next_pow2_values() {
    assert_eq!(next_pow2(0), 1);
    assert_eq!(next_pow2(1), 1);
    assert_eq!(next_pow2(2), 2);
    assert_eq!(next_pow2(3), 4);
    assert_eq!(next_pow2(1000), 1024);
    assert_eq!(next_pow2(1024), 1024);
    assert_eq!(next_pow2(2072), 4096);
}

#[test]
fn prev_pow2_values() {
    assert_eq!(prev_pow2(0), 0);
    assert_eq!(prev_pow2(1), 1);
    assert_eq!(prev_pow2(5), 4);
    assert_eq!(prev_pow2(8), 8);
    assert_eq!(prev_pow2(17), 16);
}

#[test]
fn mirror_index_reflects_both_borders() {
    // 0 1 2 3 4 | 4 3 2 1 0 | 0 1 ...
    assert_eq!(mirror_index(-1, 5), 0);
    assert_eq!(mirror_index(-3, 5), 2);
    assert_eq!(mirror_index(5, 5), 4);
    assert_eq!(mirror_index(7, 5), 2);
    assert_eq!(mirror_index(10, 5), 0);
    assert_eq!(mirror_index(3, 5), 3);
    assert_eq!(mirror_index(-11, 5), 0);
    assert_eq!(mirror_index(42, 1), 0);
    assert_eq!(mirror_index(-7, 0), 0);
    for i in -40isize..40 {
        assert!(mirror_index(i, 6) < 6);
    }
}

#[test]
fn pad_reflect_pow2_pads_by_reflection() {
    assert_eq!(pad_reflect_pow2(&[1, 2, 3]), vec![1, 2, 3, 3]);
    assert_eq!(pad_reflect_pow2(&[1, 2, 3, 4, 5]), vec![1, 2, 3, 4, 5, 5, 4, 3]);
    assert_eq!(pad_reflect_pow2(&[1.5, 2.5, 3.5, 4.5]), vec![1.5, 2.5, 3.5, 4.5]);
    assert_eq!(pad_reflect_pow2(&[7]), vec![7]);
}

#[test]
fn mirror_extend_places_patches_contiguously() {
    assert_eq!(mirror_extend(&[1, 2, 3], 2), vec![2, 1, 1, 2, 3, 3, 2]);
    assert_eq!(mirror_extend(&[1, 2, 3], 0), vec![1, 2, 3]);
    let empty: [u8; 0] = [];
    assert!(mirror_extend(&empty, 0).is_empty());
    // patch_half larger than the signal folds several times
    assert_eq!(mirror_extend(&[1, 2], 3), vec![2, 2, 1, 1, 2, 2, 1, 1]);
}

#[test]
fn wavelet_vanishing_moments_follow_tap_count() {
    assert_eq!(Wavelet::Haar.vanishing_moments(), 1);
    assert_eq!(Wavelet::Db4.vanishing_moments(), 2);
    assert_eq!(Wavelet::Db6.vanishing_moments(), 3);
    assert_eq!(Wavelet::Db8.vanishing_moments(), 4);
}

#[test]
fn inner_denoiser_names_are_stable() {
    assert_eq!(InnerDenoiser::GaussianSmooth.name(), "gaussian_smooth");
    assert_eq!(InnerDenoiser::WienerGlobal.name(), "wiener_global");
    assert_eq!(InnerDenoiser::WaveletSoft.name(), "wavelet_soft");
    assert_eq!(InnerDenoiser::StftWienerAuto.name(), "stft_wiener_auto");
}

#[test]
fn gate_rng_is_the_mmix_lcg() {
    let mut r = GateRng::new(0);
    assert_eq!(r.next_u64(), 1442695040888963407);
    assert_eq!(r.0, 1442695040888963407);
    let mut r = GateRng::new(1);
    assert_eq!(r.next_u64(), 7806831264735756412);
    // deterministic: two generators from one seed agree
    let mut a = GateRng::new(77);
    let mut b = GateRng::new(77);
    for _ in 0..100 {
        assert_eq!(a.next_u64(), b.next_u64());
    }
}

#[test]
fn cycle_shifts_are_distinct_and_evenly_spaced() {
    assert_eq!(cycle_shifts(5, 5), vec![0, 1, 2, 3, 4]);
    assert_eq!(cycle_shifts(4, 8), vec![0, 1, 2, 3]);
    assert_eq!(cycle_shifts(4, 15), vec![0, 1, 2, 3]);
    assert_eq!(cycle_shifts(16, 4), vec![0, 4, 8, 12]);
    assert_eq!(cycle_shifts(100, 1), vec![0]);
    assert_eq!(cycle_shifts(0, 3), vec![0]);
}

#[test]
fn cycle_shift_bookkeeping_roundtrips() {
    // rotate left by each shift, then read back at (j - s) mod n: the identity.
    let x = [1.0, -2.0, 3.5, 0.25, -1.75];
    let n = x.len();
    let shifts = cycle_shifts(n, 5);
    assert_eq!(shifts.len(), 5);
    for &s in &shifts {
        let rotated = rotate_left(&x, s);
        for j in 0..n {
            assert_eq!(rotated[(j + n - s) % n], x[j]);
        }
    }
    assert_eq!(rotate_left(&[1, 2, 3, 4], 1), vec![2, 3, 4, 1]);
    assert_eq!(rotate_left(&[1, 2, 3, 4], 4), vec![1, 2, 3, 4]);
    assert_eq!(rotate_left(&[1, 2, 3, 4], 0), vec![1, 2, 3, 4]);
}

#[test]
fn dwt_level_count_follows_the_request_and_the_filter_length() {
    // auto depth: log2(n) - 2, at least 1
    assert_eq!(dwt_level_count(256, 0, 4), 6);
    assert_eq!(dwt_level_count(256, 0, 2), 6);
    assert_eq!(dwt_level_count(4, 0, 2), 1);
    // explicit depth is capped by log2(n)
    assert_eq!(dwt_level_count(16, 10, 2), 4);
    assert_eq!(dwt_level_count(16, 3, 2), 3);
    // stops when the approximation gets shorter than the filter
    assert_eq!(dwt_level_count(16, 0, 8), 2);
    assert_eq!(dwt_level_count(16, 4, 8), 2);
    assert_eq!(dwt_level_count(4, 0, 8), 0);
    assert_eq!(dwt_level_count(1, 0, 2), 0);
}

#[test]
fn sorted_insert_and_remove_keep_order() {
    let mut v: Vec<i64> = Vec::new();
    for x in [5, 1, 4, 1, 9, -3] {
        sorted_insert(&mut v, x);
    }
    assert_eq!(v, vec![-3, 1, 1, 4, 5, 9]);
    assert_eq!(lower_bound(&v, 1), 1);
    assert_eq!(lower_bound(&v, 2), 3);
    assert_eq!(lower_bound(&v, 100), 6);
    sorted_remove(&mut v, 1);
    assert_eq!(v, vec![-3, 1, 4, 5, 9]);
    sorted_remove(&mut v, 7);
    assert_eq!(v, vec![-3, 1, 4, 5, 9]);
    // removing right after inserting restores the window
    let before = v.clone();
    sorted_insert(&mut v, 4);
    sorted_remove(&mut v, 4);
    assert_eq!(v, before);
}

#[test]
fn total_order_keys_sort_doubles_like_total_cmp() {
    let xs = [
        f64::NEG_INFINITY,
        -2.5,
        -0.0,
        0.0,
        1.0e-300,
        3.0,
        f64::INFINITY,
        f64::NAN,
    ];
    for w in xs.windows(2) {
        assert!(total_order_key(w[0].to_bits()) < total_order_key(w[1].to_bits()));
        assert_eq!(w[0].total_cmp(&w[1]), std::cmp::Ordering::Less);
    }
    for &x in &xs {
        let k = total_order_key(x.to_bits());
        assert_eq!(bits_from_key(k), x.to_bits());
    }
    for k in [i64::MIN, -1, 0, 1, i64::MAX] {
        assert_eq!(total_order_key(bits_from_key(k)), k);
    }
}

#[test]
fn sorted_window_keeps_the_last_samples_sorted() {
    let mut w = SortedWindow::new(1); // width 3
    assert_eq!(w.delay(), 1);
    assert_eq!(w.len(), 0);
    w.push(30);
    w.push(10);
    assert_eq!(w.sorted_keys(), &vec![10, 30]);
    w.push(20);
    assert_eq!(w.sorted_keys(), &vec![10, 20, 30]);
    assert_eq!(w.key_at(0), 30);
    w.push(5); // 30 leaves
    assert_eq!(w.len(), 3);
    assert_eq!(w.sorted_keys(), &vec![5, 10, 20]);
    assert_eq!(w.key_at(0), 10);
    assert_eq!(w.key_at(2), 5);
    w.reset();
    assert_eq!(w.len(), 0);
    assert!(w.sorted_keys().is_empty());
    assert_eq!(w.delay(), 1);
}

#[test]
fn enumerations_compare_by_variant() {
    assert_ne!(NoiseType::Gaussian, NoiseType::Colored);
    assert_eq!(DenoiserFamily::Rank, DenoiserFamily::Rank);
    assert_ne!(ThresholdMode::Hard, ThresholdMode::Soft);
    assert_ne!(SoftClipKind::Tanh, SoftClipKind::Atan);
    assert_ne!(BarSeverity::Healthy, BarSeverity::Severe);
    assert_eq!(MotorFault::BrokenBar, MotorFault::BrokenBar);
    let e = SignalError::InvalidInput("window must be > 0".to_string());
    assert_eq!(e.clone(), e);
}

#[test]
fn sort_keys_orders_a_permutation() {
    let keys = vec![5i64, -3, 9, 0, -3, 7, 1];
    let sorted = sort_keys(&keys);
    assert_eq!(sorted, vec![-3, -3, 0, 1, 5, 7, 9]);
    assert_eq!(sort_keys(&[]), Vec::<i64>::new());
    assert_eq!(sort_keys(&[42]), vec![42]);
    let desc: Vec<i64> = (0..50).rev().collect();
    let asc: Vec<i64> = (0..50).collect();
    assert_eq!(sort_keys(&desc), asc);
}

#[test]
fn middle_keys_pick_the_centre_of_a_sorted_window() {
    assert_eq!(middle_keys(&[]), None);
    assert_eq!(middle_keys(&[4]), Some((4, 4)));
    assert_eq!(middle_keys(&[1, 2, 3]), Some((2, 2)));
    assert_eq!(middle_keys(&[1, 2, 3, 4]), Some((2, 3)));
}

#[test]
fn mirror_window_reflects_at_the_borders() {
    let x = [10i32, 20, 30, 40];
    assert_eq!(mirror_window(&x, 0, 2), vec![20, 10, 10, 20, 30]);
    assert_eq!(mirror_window(&x, 3, 2), vec![20, 30, 40, 40, 30]);
    assert_eq!(mirror_window(&x, 1, 0), vec![20]);
    assert_eq!(mirror_window(&x, 1, 1), vec![10, 20, 30]);
}

#[test]
fn padding_a_power_of_two_length_changes_nothing() {
    let x = vec![1u8, 2, 3, 4, 5, 6, 7, 8];
    assert_eq!(pad_reflect_pow2(&x), x);
    let y = vec![9i64];
    assert_eq!(pad_reflect_pow2(&y), y);
}

#[test]
fn two_insertion_orders_give_the_same_sorted_window() {
    let mut a: Vec<i64> = Vec::new();
    let mut b: Vec<i64> = Vec::new();
    for &k in &[3i64, -1, 8, 3, 0] {
        sorted_insert(&mut a, k);
    }
    for &k in &[0i64, 8, 3, -1, 3] {
        sorted_insert(&mut b, k);
    }
    assert_eq!(a, b);
    assert_eq!(a, vec![-1, 0, 3, 3, 8]);
}

#[test]
fn noise_model_names_are_stable() {
    assert_eq!(NoiseModelKind::Multiplicative.name(), "multiplicative");
    assert_eq!(NoiseModelKind::PoissonLike.name(), "poisson_like");
    assert_eq!(NoiseModelKind::AdditiveGaussian.name(), "additive_gaussian");
}

#[test]
fn streaming_window_matches_the_batch_window_on_the_interior() {
    let keys: Vec<i64> = vec![7, -2, 5, 5, 11, 0, -9, 3, 8, 1, 4];
    let h = 2usize;
    let mut w = SortedWindow::new(h);
    for (t, &k) in keys.iter().enumerate() {
        w.push(k);
        if t >= 2 * h {
            let c = t - h;
            let batch = sort_keys(&mirror_window(&keys, c, h));
            assert_eq!(w.sorted_keys(), &batch);
            assert_eq!(middle_keys(w.sorted_keys()), middle_keys(&batch));
        }
    }
}

#[test]
fn first_min_position_takes_the_earliest_smallest_present_key() {
    assert_eq!(first_min_position(&[]), None);
    assert_eq!(first_min_position(&[None, None]), None);
    assert_eq!(first_min_position(&[Some(5), Some(3), Some(3), Some(4)]), Some(1));
    assert_eq!(first_min_position(&[None, Some(9), None, Some(-2)]), Some(3));
    assert_eq!(first_min_position(&[Some(7)]), Some(0));
}
