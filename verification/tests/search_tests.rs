use cube3d_sponge::cube_search::{collect_equations, sample_out_bits, select_targets};
use cube3d_sponge::degree::{bidx, chi3_deg, propagate};
use cube3d_sponge::stats::{deviation, worst_deviation};
use cube3d_sponge::diffusion::{avalanche_counts, linearity_residuals, ones_count};
use cube3d_sponge::gf2::rref;
use cube3d_sponge::key_recovery::recovered_bits;
use cube3d_sponge::rng::{random_key, random_nonce, xorshift};
use cube3d_sponge::zero_sum::{constancy_violations, degree_profile, zero_sum_bits, zero_sums_hold};
use cube3d_sponge::{is_rate, keystream, pi_map, rate_cells};

#[test]
fn rref_reduces_a_small_system_to_its_echelon_form() {
    let mut rows: Vec<(u128, u8)> = vec![(2, 1), (3, 0), (1, 1)];
    let rank = rref(&mut rows);
    assert_eq!(rank, 2);
    assert_eq!(rows, vec![(1, 1), (2, 1), (0, 0)]);
}

#[test]
fn rref_keeps_right_hand_sides_as_bits() {
    let mut rows: Vec<(u128, u8)> = vec![(1, 1)];
    assert_eq!(rref(&mut rows), 1);
    assert_eq!(rows, vec![(1, 1)]);
}

#[test]
fn recovered_bits_checks_single_bit_rows() {
    // key bits 0 and 1 set
    let mut secret = [0u8; 16];
    secret[0] = 0b11;
    let rows: Vec<(u128, u8)> = vec![(1, 1), (2, 0), (3, 1), (0, 0), (1 << 127, 0)];
    // (1,1) right, (2,0) wrong, (3,1) two bits, (0,0) none, bit 127 clear -> right
    assert_eq!(recovered_bits(&rows, &secret), (2, 1));
    assert_eq!(recovered_bits(&[], &secret), (0, 0));
}

#[test]
fn sampled_out_bits_follow_the_generator() {
    let mut a: u64 = 7;
    let v = sample_out_bits(3, 10, &mut a);
    let mut b: u64 = 7;
    let expect: Vec<usize> = (0..3).map(|_| (xorshift(&mut b) % 10) as usize).collect();
    assert_eq!(v, expect);
    assert_eq!(a, b);
}

#[test]
fn target_scan_keeps_only_bits_with_two_nonce_bits() {
    let rate = rate_cells();
    let scan: Vec<usize> = vec![0, 8, 128, 129, 200, 700];
    let mut rng: u64 = 99;
    let (targets, with_key, ksum, nsum, ncount) = select_targets(&scan, 1, &rate, 6, 32, &mut rng);
    assert!(with_key <= scan.len());
    assert!(ncount <= with_key);
    assert!(ksum >= with_key);
    assert!(targets.len() <= ncount);
    let mut nonce_total = 0usize;
    for (o, ki, ni) in targets.iter() {
        assert!(scan.contains(o));
        assert!(!ki.is_empty() && ki.iter().all(|&j| j < 128));
        assert!(ni.len() >= 2 && ni.iter().all(|&b| b < 512));
        assert!(ki.windows(2).all(|w| w[0] < w[1]));
        nonce_total += ni.len();
    }
    assert!(nonce_total <= nsum);
    // zero rounds: output bit 0 reads key bit 0 only, output bit 128 nonce bit 0 only
    let mut rng2: u64 = 5;
    let (t0, wk0, ks0, ns0, nc0) = select_targets(&[0, 128], 0, &rate, 6, 32, &mut rng2);
    assert!(t0.is_empty());
    assert_eq!((wk0, ks0, ns0, nc0), (1, 1, 0, 1));
}

#[test]
fn target_scan_stops_measuring_at_the_cap() {
    let rate = rate_cells();
    let scan: Vec<usize> = vec![0, 8, 16];
    let mut rng: u64 = 3;
    let (targets, with_key, _ksum, nsum, ncount) = select_targets(&scan, 1, &rate, 6, 0, &mut rng);
    assert!(targets.is_empty());
    assert_eq!((nsum, ncount), (0, 0));
    assert!(with_key <= 3);
}

#[test]
fn equation_search_respects_its_budget() {
    let rate = rate_cells();
    let mut secret = [0u8; 16];
    secret[0] = 0x5a;
    let mut rng: u64 = 11;
    let targets: Vec<(usize, Vec<usize>, Vec<usize>)> = vec![];
    let (eqs, tried, found) = collect_equations(&targets, 1, &rate, &secret, 2, 6, 400, &mut rng);
    assert!(eqs.is_empty());
    assert_eq!((tried, found), (0, 0));
    assert_eq!(rng, 11);

    // a budget of zero stops before the first cube
    let targets = vec![(0usize, vec![0usize, 1], vec![0usize, 1, 2, 3])];
    let (eqs, tried, found) = collect_equations(&targets, 1, &rate, &secret, 2, 6, 0, &mut rng);
    assert!(eqs.is_empty());
    assert_eq!((tried, found), (0, 0));
    assert_eq!(rng, 11);
}

#[test]
fn equation_search_on_one_round_targets() {
    let rate = rate_cells();
    let mut rng: u64 = 2024;
    let scan: Vec<usize> = vec![0, 9, 18, 27];
    let (targets, _, _, _, _) = select_targets(&scan, 1, &rate, 6, 32, &mut rng);
    let secret = random_key(&mut rng);
    let (eqs, tried, found) = collect_equations(&targets, 1, &rate, &secret, 2, 4, 10, &mut rng);
    assert!(tried <= 10);
    assert_eq!(found, eqs.len());
    assert!(found <= tried);
    assert!(eqs.iter().all(|&(m, rhs)| m != 0 && rhs <= 1));
}

#[test]
fn zero_sum_bits_and_profile_on_a_small_rate() {
    let mut dv = vec![5u32; 4096];
    dv[bidx(0, 3)] = 0;
    dv[bidx(1, 0)] = 2;
    let rate = vec![0usize, 1];
    assert_eq!(zero_sum_bits(&dv, &rate, 3), vec![3, 8]);
    assert_eq!(zero_sum_bits(&dv, &rate, 1), vec![3]);
    assert_eq!(zero_sum_bits(&dv, &rate, 0), Vec::<usize>::new());
    assert_eq!(zero_sum_bits(&dv, &rate, 6).len(), 16);
    // 16 output bits: one 0, one 2, fourteen 5; sorted index 8 is 5
    assert_eq!(degree_profile(&dv, &rate), (5, 5, 1));
    // make the lower half small: bits 0..9 get degree 1, so index 8 is 1
    for b in 0..9 {
        dv[bidx(0, 0) + b] = 1;
    }
    assert_eq!(degree_profile(&dv, &rate), (5, 1, 0));
}

#[test]
fn degree_profile_of_one_round_propagation() {
    let rate = rate_cells();
    let all: Vec<usize> = (0..512).collect();
    let d = propagate(&all, 1, &rate, 512);
    let (mx, med, zeros) = degree_profile(&d, &rate);
    let mut degs: Vec<u32> = (0..rate.len() * 8).map(|o| d[bidx(rate[o / 8], o % 8)]).collect();
    degs.sort();
    assert_eq!(mx, *degs.last().unwrap());
    assert_eq!(med, degs[degs.len() / 2]);
    assert_eq!(zeros, degs.iter().filter(|&&x| x == 0).count());
}

#[test]
fn zero_sums_at_zero_rounds() {
    let rate = rate_cells();
    let mut rng: u64 = 77;
    let key = random_key(&mut rng);
    let base = random_nonce(&mut rng);
    // zero rounds: output bit 128 is nonce bit 0, which the cube flips
    assert!(!zero_sums_hold(&key, &base, &[0], 0, &rate, &[128]));
    assert!(zero_sums_hold(&key, &base, &[0], 0, &rate, &[129, 0, 300]));
    assert!(zero_sums_hold(&key, &base, &[0], 0, &rate, &[]));
}

#[test]
fn proven_zero_sums_hold_after_one_round() {
    let rate = rate_cells();
    let cube: Vec<usize> = (0..8).collect();
    let dv = propagate(&cube, 1, &rate, 8);
    let zs = zero_sum_bits(&dv, &rate, 8);
    assert!(!zs.is_empty());
    let mut rng: u64 = 123;
    let key = random_key(&mut rng);
    let base = random_nonce(&mut rng);
    let sample: Vec<usize> = zs.iter().cloned().take(12).collect();
    assert!(zero_sums_hold(&key, &base, &cube, 1, &rate, &sample));
}

#[test]
fn constancy_check_at_zero_rounds() {
    let rate = rate_cells();
    let mut rng: u64 = 31;
    // key bits ignore the nonce; nonce bit 0 moves with it
    assert_eq!(constancy_violations(&[0, 5, 127], 0, &rate, 40, &mut rng), 0);
    assert_eq!(constancy_violations(&[128], 0, &rate, 40, &mut rng), 1);
    let before = rng;
    assert_eq!(constancy_violations(&[], 0, &rate, 40, &mut rng), 0);
    assert_eq!(rng, before);
}

#[test]
fn avalanche_at_round_zero_is_one_bit() {
    let mut rng: u64 = 17;
    let t = avalanche_counts(1, 0, &mut rng);
    assert_eq!(t.len(), 1);
    let (tot, rat, rat_den, cap, cap_den, planes) = t[0];
    assert_eq!(tot, 1);
    assert_eq!(rat + cap, 1);
    assert_eq!((rat_den, cap_den), (8 * 296, 8 * 216));
    assert_eq!(planes, 1);
}

#[test]
fn avalanche_tallies_add_up_over_trials() {
    let mut rng: u64 = 17;
    let t = avalanche_counts(3, 2, &mut rng);
    assert_eq!(t.len(), 3);
    assert_eq!(t[0].0, 3);
    assert_eq!(t[0].2, 3 * 8 * 296);
    for &(tot, rat, _, cap, _, planes) in t.iter() {
        assert_eq!(tot, rat + cap);
        assert!(planes <= 3 * 8);
    }
    assert!(t[2].0 > t[0].0);
}

#[test]
fn zero_round_permutation_is_affine() {
    let mut rng: u64 = 8;
    assert_eq!(linearity_residuals(0, 5, &mut rng), (0, 0));
    assert_eq!(linearity_residuals(3, 0, &mut rng), (u32::MAX, 0));
    let (min_w, sum_w) = linearity_residuals(2, 4, &mut rng);
    assert!(min_w > 0);
    assert!(sum_w >= 4 * min_w as u64);
}

#[test]
fn ones_in_bytes() {
    assert_eq!(ones_count(&[0xff, 0x01, 0x00, 0x80]), 10);
    assert_eq!(ones_count(&[]), 0);
}

#[test]
fn trailing_zero_key_byte_does_not_change_the_keystream() {
    let nonce = b"nonce";
    assert_eq!(keystream(b"key", nonce, 64), keystream(b"key\0", nonce, 64));
    let long_key = vec![7u8; 300];
    let mut padded = long_key.clone();
    padded.push(0);
    assert_eq!(keystream(&long_key, nonce, 40), keystream(&padded, nonce, 40));
    // a key that fills whole chunks is told apart from one with an extra zero chunk
    let full = vec![1u8; 296];
    let mut extra = full.clone();
    extra.push(0);
    assert_ne!(keystream(&full, nonce, 40), keystream(&extra, nonce, 40));
}

#[test]
fn bits_with_bound_zero_ignore_the_nonce() {
    let rate = rate_cells();
    let all: Vec<usize> = (0..512).collect();
    let d = propagate(&all, 1, &rate, 512);
    let zero_bits = zero_sum_bits(&d, &rate, 1);
    assert!(!zero_bits.is_empty());
    let sample: Vec<usize> = zero_bits.iter().cloned().take(20).collect();
    let mut rng: u64 = 4242;
    assert_eq!(constancy_violations(&sample, 1, &rate, 10, &mut rng), 0);
}

#[test]
fn rref_keeps_the_contradiction_in_its_own_row() {
    let mut rows: Vec<(u128, u8)> = vec![(1, 0), (1, 1)];
    assert_eq!(rref(&mut rows), 1);
    assert_eq!(rows, vec![(1, 0), (0, 1)]);
    let mut rows: Vec<(u128, u8)> = vec![(3, 1), (1, 0), (2, 0)];
    assert_eq!(rref(&mut rows), 2);
    assert_eq!(rows, vec![(1, 0), (2, 1), (0, 1)]);
}

#[test]
fn worst_deviation_picks_the_first_most_biased_count() {
    assert_eq!(worst_deviation(&[50, 48, 57, 43, 57], 100), (2, 14));
    assert_eq!(worst_deviation(&[50, 50], 100), (0, 0));
    assert_eq!(worst_deviation(&[], 100), (0, 0));
    assert_eq!(worst_deviation(&[0, 3], 3), (0, 3));
    assert_eq!(deviation(10, 4), 16);
    assert_eq!(deviation(1, 4), 2);
}

#[test]
fn chi3_bounds_read_only_the_state_bits() {
    let mut d = vec![0u32; 4096];
    for b in 0..4096 {
        d[b] = (b % 5) as u32;
    }
    let mut longer = d.clone();
    longer.extend_from_slice(&[9, 9, 9]);
    for i in [0usize, 77, 511] {
        for round in 0..3u32 {
            assert_eq!(chi3_deg(&d, i, round, 100), chi3_deg(&longer, i, round, 100));
        }
    }
}

#[test]
fn shear_moves_cells_across_shells() {
    assert_eq!(pi_map(72), 145);
    assert!(is_rate(72) && !is_rate(145));
    assert_eq!(pi_map(78), 23);
    assert!(!is_rate(78) && is_rate(23));
}
