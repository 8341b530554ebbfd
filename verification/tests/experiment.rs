use linc::experiment::{bias_histogram, corr_fixed_point, empirical_bias_distribution};
use linc::present::PresentCipherKey;
use rand::{RngExt, SeedableRng};

#[test]
fn test_corr_fixed_point() {
    // All trials match: correlation 1, scaled by 100000.
    assert_eq!(corr_fixed_point(100, 100), 100000);
    // No trial matches: correlation -1.
    assert_eq!(corr_fixed_point(0, 100), -100000);
    // Exactly half: correlation 0.
    assert_eq!(corr_fixed_point(50, 100), 0);
    // Three quarters: correlation one half.
    assert_eq!(corr_fixed_point(75, 100), 50000);
    // Rounding to the nearest integer, half away from zero.
    assert_eq!(corr_fixed_point(1, 3), -33333);
    assert_eq!(corr_fixed_point(2, 3), 33333);
    assert_eq!(corr_fixed_point(1, 8), -75000);
}

#[test]
fn test_bias_histogram() {
    let corrs: Vec<i64> = vec![5, -3, 5, 7, -3, 5];
    let h = bias_histogram(&corrs);
    assert_eq!(h, vec![(7, 1), (-3, 2), (5, 3)]);
    let empty: Vec<i64> = Vec::new();
    assert_eq!(bias_histogram(&empty), vec![]);
    // Equal occurrence counts are ordered by correlation value.
    let ties: Vec<i64> = vec![9, -1, 4];
    assert_eq!(bias_histogram(&ties), vec![(-1, 1), (4, 1), (9, 1)]);
}

#[test]
fn test_empirical_matches_analytic() {
    // For one round, the empirical correlation of a mask pair predicted
    // by the linear approximation table converges toward the analytic
    // value (magnitude 1/4, i.e. 25000 at this fixed-point scale), while
    // an unbiased pair stays near zero.
    let mut rng = rand::rngs::StdRng::seed_from_u64(0x1234_5678);
    let mut pts: Vec<u64> = Vec::new();
    for _ in 0..4000 {
        pts.push(rng.random::<u64>());
    }
    let keys = vec![PresentCipherKey::new(0x0, 0x0)];

    // Input bit 1 feeds sbox group 0 with mask 2; output mask 2 of that
    // group has Walsh coefficient 4 and lands on global bit 16 after the
    // permutation.
    let biased_pair = vec![(1u64 << 1, 1u64 << 16)];
    let h = empirical_bias_distribution(&biased_pair, &keys, &pts, 1);
    assert_eq!(h.len(), 1);
    let (corr, count) = h[0];
    assert_eq!(count, 1);
    assert!(corr.abs() >= 15000 && corr.abs() <= 35000, "corr = {}", corr);

    // Input mask 1 has no single-bit bias through the PRESENT sbox.
    let unbiased_pair = vec![(1u64 << 0, 1u64 << 0)];
    let h0 = empirical_bias_distribution(&unbiased_pair, &keys, &pts, 1);
    assert_eq!(h0.len(), 1);
    let (corr0, _) = h0[0];
    assert!(corr0.abs() < 10000, "corr0 = {}", corr0);
}
