use cube3d_sponge::cube_attack::{
    blr_linear, cube_sum, cube_sum_from, key_bit, key_influence, nonce_influence, out_bit,
    pick_cube, set_nonce_bit, superpoly_coeffs, superpoly_nonconstant, toggle_nonce_bit, unit_key,
    xor_keys,
};
use cube3d_sponge::degree::{bidx, chi3_deg, feistel_deg, pi_deg, propagate, rho_deg, round_deg};
use cube3d_sponge::gf2::rref;
use cube3d_sponge::rng::{random_bytes, random_cube, random_key, random_nonce, xorshift};
use cube3d_sponge::stats::{
    bit_bias_counts, count_ones8, differential_counts, get_rate_bit, hamming, linear_ones,
    make_state, parity_over_mask, planes_touched, shell_hamming, weight, xor_cube,
};
use cube3d_sponge::{permute_r, rate_cells, CELLS};

#[test]
fn xorshift_sequence_from_one() {
    let mut s: u64 = 1;
    assert_eq!(xorshift(&mut s), 1082269761);
    assert_eq!(s, 1082269761);
    assert_eq!(xorshift(&mut s), 1152992998833853505);
    assert_eq!(xorshift(&mut s), 11177516664432764457);
}

#[test]
fn random_key_from_seed() {
    let mut rng: u64 = 42;
    let k = random_key(&mut rng);
    assert_eq!(
        k,
        [170, 191, 122, 104, 130, 35, 211, 50, 240, 37, 159, 220, 51, 85, 1, 239]
    );
    assert_eq!(rng, 5436279033014998511);
    let mut rng2: u64 = 42;
    assert_eq!(random_bytes(&mut rng2, 16), k.to_vec());
    assert_eq!(rng2, rng);
}

#[test]
fn random_draws_advance_the_generator() {
    let mut a: u64 = 5;
    let n = random_nonce(&mut a);
    let mut b: u64 = 5;
    let v = random_bytes(&mut b, 64);
    assert_eq!(n.to_vec(), v);
    assert_eq!(a, b);
    let mut c: u64 = 5;
    let cube = random_cube(&mut c);
    assert_eq!(&cube[..64], &n[..]);
}

#[test]
fn unit_key_and_key_bits() {
    let k = unit_key(13);
    for j in 0..128 {
        assert_eq!(key_bit(&k, j), if j == 13 { 1 } else { 0 });
    }
    let x = xor_keys(&k, &unit_key(0));
    assert_eq!(x[0], 1);
    assert_eq!(x[1], 1 << 5);
    assert_eq!(xor_keys(&x, &x), [0u8; 16]);
}

#[test]
fn nonce_bit_editing() {
    let mut n = [0u8; 64];
    set_nonce_bit(&mut n, 9, 1);
    assert_eq!(n[1], 2);
    toggle_nonce_bit(&mut n, 8);
    assert_eq!(n[1], 3);
    set_nonce_bit(&mut n, 9, 0);
    assert_eq!(n[1], 1);
    toggle_nonce_bit(&mut n, 8);
    assert_eq!(n, [0u8; 64]);
}

#[test]
fn out_bit_known_values() {
    let rate = rate_cells();
    let z = [0u8; 16];
    let n = [0u8; 64];
    let bits: Vec<u8> = (0..8).map(|o| out_bit(&z, &n, 1, o, &rate)).collect();
    assert_eq!(bits, vec![1, 1, 1, 0, 1, 1, 1, 1]);
    let mut k = [0u8; 16];
    for i in 0..16 {
        k[i] = i as u8;
    }
    let mut nn = [0u8; 64];
    for i in 0..64 {
        nn[i] = ((i * 7) % 256) as u8;
    }
    let bits2: Vec<u8> = (0..40).step_by(5).map(|o| out_bit(&k, &nn, 2, o, &rate)).collect();
    assert_eq!(bits2, vec![1, 1, 1, 0, 0, 0, 0, 0]);
}

#[test]
fn zero_rounds_output_is_the_loaded_input() {
    let rate = rate_cells();
    let k = unit_key(5);
    let n = [0u8; 64];
    assert_eq!(out_bit(&k, &n, 0, 5, &rate), 1);
    assert_eq!(out_bit(&k, &n, 0, 6, &rate), 0);
    let mut rng: u64 = 3;
    // With no rounds, output bit 5 is key bit 5 and output bit 130 is nonce bit 2.
    assert_eq!(key_influence(5, 0, &rate, 6, &mut rng), vec![5]);
    assert_eq!(nonce_influence(5, 0, &rate, 2, &mut rng), Vec::<usize>::new());
    assert_eq!(key_influence(130, 0, &rate, 2, &mut rng), Vec::<usize>::new());
    assert_eq!(nonce_influence(130, 0, &rate, 6, &mut rng), vec![2]);
}

#[test]
fn cube_sums() {
    let rate = rate_cells();
    let mut k = [0u8; 16];
    for i in 0..16 {
        k[i] = i as u8;
    }
    let mut nn = [0u8; 64];
    for i in 0..64 {
        nn[i] = ((i * 7) % 256) as u8;
    }
    assert_eq!(cube_sum(&k, &[0, 1, 2], 1, 0, &rate), 0);
    assert_eq!(cube_sum_from(&k, &nn, &[3, 9], 2, 17, &rate), 0);
    // Zero rounds: output bit 130 is nonce bit 2, which sums to 1 over its own cube
    // and to 0 over any larger cube.
    assert_eq!(cube_sum(&k, &[2], 0, 130, &rate), 1);
    assert_eq!(cube_sum(&k, &[2, 3], 0, 130, &rate), 0);
    assert_eq!(cube_sum(&k, &[], 0, 130, &rate), 0);
}

#[test]
fn superpoly_tests_at_zero_rounds() {
    let rate = rate_cells();
    let zero = [0u8; 16];
    let c0 = cube_sum(&zero, &[], 0, 5, &rate);
    assert_eq!(c0, 0);
    // The superpoly of output bit 5 with the empty cube is key bit 5: linear.
    assert_eq!(superpoly_coeffs(&[], 0, 5, &rate, &[4, 5, 6], c0), 1u128 << 5);
    let mut rng: u64 = 11;
    assert!(blr_linear(&[], 0, 5, &rate, c0, 5, &mut rng));
    let mut rng2: u64 = 11;
    assert!(superpoly_nonconstant(&[], 0, 5, &rate, c0, 20, &mut rng2));
    // Output bit 130 does not depend on the key at all.
    let mut rng3: u64 = 11;
    let c1 = cube_sum(&zero, &[], 0, 130, &rate);
    assert!(!superpoly_nonconstant(&[], 0, 130, &rate, c1, 10, &mut rng3));
    assert_eq!(superpoly_coeffs(&[], 0, 130, &rate, &[0, 1, 2, 3], c1), 0);
}

#[test]
fn pick_cube_draws_distinct_pool_bits() {
    let pool: Vec<usize> = (100..140).collect();
    let mut rng: u64 = 7;
    let c = pick_cube(&pool, 5, &mut rng);
    assert_eq!(c, vec![107, 112, 123, 127, 110]);
    assert_eq!(rng, 8474076621961470850);
    let single = vec![4usize];
    let mut rng2: u64 = 7;
    // Only one distinct bit exists: the guard stops the search.
    assert_eq!(pick_cube(&single, 3, &mut rng2), vec![4]);
    let mut rng3: u64 = 7;
    assert_eq!(pick_cube(&[], 0, &mut rng3), Vec::<usize>::new());
    assert_eq!(rng3, 7);
}

fn has_bit(x: u128, c: usize) -> bool {
    (x >> c) & 1 == 1
}

#[test]
fn rref_small_systems() {
    let mut rows: Vec<(u128, u8)> = vec![(0b110, 1), (0b011, 0), (0b101, 1)];
    assert_eq!(rref(&mut rows), 2);
    assert_eq!(rows, vec![(0b101, 1), (0b110, 1), (0, 0)]);
    let mut rows2: Vec<(u128, u8)> = vec![(3, 1), (1, 0), (2, 1), (0, 1)];
    assert_eq!(rref(&mut rows2), 2);
    assert_eq!(rows2, vec![(1, 0), (2, 1), (0, 0), (0, 1)]);
    let mut empty: Vec<(u128, u8)> = Vec::new();
    assert_eq!(rref(&mut empty), 0);
}

#[test]
fn rref_full_rank_identity_like() {
    let mut rows: Vec<(u128, u8)> = (0..128).map(|j| ((1u128 << j) | (1u128 << 127), (j % 2) as u8)).collect();
    let rank = rref(&mut rows);
    assert_eq!(rank, 128);
    for k in 0..rank {
        assert!(has_bit(rows[k].0, k));
        for k2 in 0..rows.len() {
            if k2 != k {
                assert!(!has_bit(rows[k2].0, k));
            }
        }
    }
}

#[test]
fn degree_propagation_counts() {
    let rate = rate_cells();
    let d = propagate(&[0], 1, &rate, 512);
    assert_eq!(d.iter().filter(|&&x| x != 0).count(), 7);
    assert_eq!(*d.iter().max().unwrap(), 1);
    let d2 = propagate(&[0, 1, 2, 3, 4, 5, 6, 7], 2, &rate, 8);
    assert_eq!(d2.iter().filter(|&&x| x != 0).count(), 408);
    assert_eq!(*d2.iter().max().unwrap(), 2);
    assert_eq!(d2.iter().map(|&x| x as u64).sum::<u64>(), 520);
    let none = propagate(&[], 3, &rate, 8);
    assert!(none.iter().all(|&x| x == 0));
}

#[test]
fn degree_steps_compose_into_round_deg() {
    let rate = rate_cells();
    let d = propagate(&[10, 20, 30], 1, &rate, 16);
    let step = pi_deg(&rho_deg(&feistel_deg(&d, 1, 16)));
    assert_eq!(round_deg(&d, 1, 16), step);
    let c = chi3_deg(&d, 0, 1, 16);
    assert!(c.iter().all(|&x| x <= 16));
    assert_eq!(bidx(3, 5), 29);
}

#[test]
fn counting_helpers() {
    assert_eq!(count_ones8(0), 0);
    assert_eq!(count_ones8(0xFF), 8);
    assert_eq!(count_ones8(0b1011_0001), 4);
    let zero = [0u8; CELLS];
    let ones = [0xFFu8; CELLS];
    assert_eq!(hamming(&zero, &ones), 4096);
    assert_eq!(hamming(&ones, &ones), 0);
    assert_eq!(weight(&ones), 4096);
    assert_eq!(weight(&xor_cube(&ones, &ones)), 0);
    assert_eq!(shell_hamming(&zero, &ones, true), (296 * 8, 296 * 8));
    assert_eq!(shell_hamming(&zero, &ones, false), (216 * 8, 216 * 8));
    let mut one_bit = zero;
    one_bit[100] = 0x10;
    assert_eq!(planes_touched(&zero, &one_bit), 1);
    assert_eq!(planes_touched(&zero, &ones), 8);
}

#[test]
fn rate_state_helpers() {
    let rate = rate_cells();
    let bytes: Vec<u8> = (0..rate.len()).map(|i| (i % 256) as u8).collect();
    let s = make_state(&rate, &bytes);
    for (n, &cell) in rate.iter().enumerate() {
        assert_eq!(s[cell], bytes[n]);
    }
    assert_eq!(s[rate[0]], 0);
    assert_eq!(get_rate_bit(&s, &rate, 8), 1);
    assert_eq!(get_rate_bit(&s, &rate, 9), 0);
    assert_eq!(parity_over_mask(&s, &rate, &[8, 17, 16]), 0);
    assert_eq!(parity_over_mask(&s, &rate, &[8, 16]), 1);
    assert_eq!(parity_over_mask(&s, &rate, &[]), 0);
}

#[test]
fn distinguisher_counts() {
    let rate = rate_cells();
    let mut rng: u64 = 99;
    let ones = bit_bias_counts(&rate, 16, 1, 4, &mut rng);
    assert_eq!(ones, vec![1, 2, 0, 2, 3, 1, 2, 2, 2, 2, 2, 3, 2, 3, 2, 3]);
    assert_eq!(rng, 8948684629191205175);
    // With no rounds the flipped input bit is the only output bit that flips.
    let mut rng2: u64 = 99;
    let flips = differential_counts(&rate, 16, 0, 0, 5, &mut rng2);
    assert_eq!(flips[0], 5);
    assert!(flips[1..].iter().all(|&c| c == 0));
    // With no rounds input and output parities over the same mask agree.
    let mut rng3: u64 = 99;
    assert_eq!(linear_ones(&rate, 0, &[1, 2, 3], &[1, 2, 3], 7, &mut rng3), 0);
}

#[test]
fn permute_r_zero_rounds_is_identity() {
    let mut rng: u64 = 17;
    let s = random_cube(&mut rng);
    assert_eq!(permute_r(&s, 0), s);
}

fn parity(x: u128) -> u8 {
    (x.count_ones() % 2) as u8
}

fn solves(rows: &[(u128, u8)], key: u128) -> bool {
    rows.iter().all(|&(m, r)| parity(m & key) == (r & 1))
}

#[test]
fn rref_keeps_the_solutions() {
    let key: u128 = 0x0123_4567_89ab_cdef_fedc_ba98_7654_3210;
    let mut rng: u64 = 23;
    let mut rows: Vec<(u128, u8)> = Vec::new();
    for _ in 0..40 {
        let lo = xorshift(&mut rng) as u128;
        let hi = xorshift(&mut rng) as u128;
        let m = (hi << 64) | lo;
        rows.push((m, parity(m & key)));
    }
    let before = rows.clone();
    let rank = rref(&mut rows);
    assert_eq!(rank, 40);
    assert!(solves(&before, key));
    assert!(solves(&rows, key));
    let other = key ^ 1;
    assert_eq!(solves(&before, other), solves(&rows, other));
    for k in rank..rows.len() {
        assert_eq!(rows[k].0, 0);
    }
}

#[test]
fn hamming_is_symmetric() {
    let mut rng: u64 = 31;
    let a = random_cube(&mut rng);
    let b = random_cube(&mut rng);
    assert_eq!(hamming(&a, &b), hamming(&b, &a));
    assert_eq!(hamming(&a, &a), 0);
    assert_eq!(hamming(&a, &b), weight(&xor_cube(&a, &b)));
}
