use linc::analysis::{all_combinations, number_one_bit_trails, walsh_transform, BitPerm, Sbox};
use linc::matrix::TrailMatrix;
use linc::present::{PresentPermutation, PresentSbox};
use linc::sbox::{present_sbox, SboxT};
use linc::state::{inv_permute_block, permute_block};
use linc::walsh::biased_one_bit;

#[test]
fn test_lat_known_values() {
    let lat = present_sbox().walsh_transform();
    assert_eq!(lat.dim(), 16);
    // The all-zero mask pair counts the whole domain.
    assert_eq!(lat.at(0, 0), 16);
    // Mixed zero/nonzero mask pairs balance to zero for a bijection.
    for m in 1..16 {
        assert_eq!(lat.at(0, m), 0);
        assert_eq!(lat.at(m, 0), 0);
    }
    // Spot values of the PRESENT linear approximation table.
    assert_eq!(lat.at(1, 5), -8);
    assert_eq!(lat.at(1, 15), 8);
    assert_eq!(lat.at(5, 4), -4);
    assert_eq!(lat.at(15, 15), 0);
    // The bias view halves the raw Walsh coefficients.
    assert_eq!(lat.bias_at(2, 2), 2);
    assert_eq!(lat.bias_at(1, 5), -4);
}

#[test]
fn test_generic_walsh_transform_matches_method() {
    let generic = walsh_transform::<u64, PresentSbox>();
    let direct = present_sbox().walsh_transform();
    assert_eq!(generic.dim(), 16);
    for a in 0..16 {
        for b in 0..16 {
            assert_eq!(generic.at(a, b), direct.at(a, b));
        }
    }
}

#[test]
fn test_biased_one_bit() {
    let lat = present_sbox().walsh_transform();
    let masks = biased_one_bit(&lat);
    let expected: Vec<(usize, usize, i32)> = vec![
        (2, 2, 4),
        (2, 4, -4),
        (2, 8, 4),
        (4, 2, -4),
        (4, 4, -4),
        (4, 8, -4),
        (8, 2, 4),
        (8, 8, -4),
    ];
    assert_eq!(masks.len(), expected.len());
    for e in expected.iter() {
        assert!(masks.contains(e));
    }
}

#[test]
fn test_number_one_bit_trails() {
    let expected: Vec<u64> = vec![1, 1, 1, 3, 9, 27, 72, 192, 512];
    for rounds in 1..=9 {
        let n = number_one_bit_trails::<u64, PresentSbox, PresentPermutation>(rounds).unwrap();
        assert_eq!(n, expected[rounds - 1]);
    }
}

#[test]
fn test_all_combinations() {
    let c1 = all_combinations::<u64, PresentSbox, PresentPermutation>(1).unwrap();
    assert_eq!(c1.len(), 128);
    let c4 = all_combinations::<u64, PresentSbox, PresentPermutation>(4).unwrap();
    assert_eq!(c4.len(), 576);
}

#[test]
fn test_sbox_bijection() {
    // The multiset of sbox outputs is the whole nibble domain, each value
    // exactly once.
    let s = present_sbox();
    let mut seen = [false; 16];
    for i in 0..16u8 {
        let v = (s.look_up_byte(i) & 0xf) as usize;
        assert!(!seen[v]);
        seen[v] = true;
    }
    assert!(seen.iter().all(|&x| x));
    // The permutation table reaches every bit position exactly once.
    let p = PresentPermutation::new();
    let mut hit = [false; 64];
    for i in 0..64 {
        let d = p.at(i);
        assert!(!hit[d]);
        hit[d] = true;
    }
    assert!(hit.iter().all(|&x| x));
}

#[test]
fn test_sbox_inverse_roundtrip() {
    let s = present_sbox();
    let inv = s.inverse();
    // The double inverse gives the original table back.
    let double = inv.inverse();
    for i in 0..=255u8 {
        assert_eq!(s.look_up_byte(i), double.look_up_byte(i));
    }
    // Inverse lookup undoes the forward lookup block-wise.
    for &x in &[0x0u64, 0xffff_ffff_ffff_ffff, 0x0123_4567_89ab_cdef, 0xfedc_ba98_7654_3210] {
        assert_eq!(inv.look_up_state(s.look_up_state(x)), x);
    }
}

#[test]
fn test_permutation_roundtrip() {
    // The inverse permutation undoes the forward one for every single bit
    // position and for boundary blocks.
    for i in 0..64 {
        let x = 1u64 << i;
        assert_eq!(inv_permute_block(permute_block(x)), x);
    }
    for &x in &[0x0u64, 0xffff_ffff_ffff_ffff, 0x0123_4567_89ab_cdef] {
        assert_eq!(inv_permute_block(permute_block(x)), x);
        assert_eq!(permute_block(inv_permute_block(x)), x);
    }
    // The known fixed points of the PRESENT permutation.
    assert_eq!(permute_block(1), 1);
    assert_eq!(permute_block(1u64 << 63), 1u64 << 63);
}

#[test]
fn test_sbox_new_rejects_non_bijections() {
    assert!(SboxT::new([0xc, 0x5, 0x6, 0xb, 0x9, 0x0, 0xa, 0xd, 0x3, 0xe, 0xf, 0x8, 0x4, 0x7, 0x1,
        0x2]).is_some());
    // A repeated entry is rejected.
    assert!(SboxT::new([0xc, 0xc, 0x6, 0xb, 0x9, 0x0, 0xa, 0xd, 0x3, 0xe, 0xf, 0x8, 0x4, 0x7, 0x1,
        0x2]).is_none());
    // An entry outside the nibble domain is rejected.
    assert!(SboxT::new([0xc, 0x5, 0x6, 0xb, 0x9, 0x0, 0xa, 0xd, 0x3, 0xe, 0xf, 0x8, 0x4, 0x7, 0x1,
        0x10]).is_none());
}

#[test]
fn test_trail_matrix_pow_composition() {
    // Exponent composition: raising to a + b equals the product of the
    // powers, checked for small round counts.
    let mut m = TrailMatrix::zero(4);
    m.set(0, 1, 1);
    m.set(1, 2, 2);
    m.set(2, 0, 1);
    m.set(2, 3, 3);
    m.set(3, 3, 1);
    for a in 0..=5usize {
        for b in 0..=5usize {
            let pa = m.pow(a).unwrap();
            let pb = m.pow(b).unwrap();
            let prod = pa.mul(&pb).unwrap();
            let pab = m.pow(a + b).unwrap();
            for i in 0..4 {
                for j in 0..4 {
                    assert_eq!(prod.get(i, j), pab.get(i, j));
                }
            }
        }
    }
}

#[test]
fn test_trail_matrix_overflow_is_surfaced() {
    // A matrix whose powers grow without bound reports overflow instead
    // of wrapping.
    let mut m = TrailMatrix::zero(2);
    m.set(0, 0, u64::MAX);
    m.set(0, 1, 1);
    m.set(1, 0, 1);
    m.set(1, 1, 1);
    assert!(m.pow(1).is_some());
    assert!(m.pow(2).is_none());
    assert!(m.mul(&m).is_none());
}
