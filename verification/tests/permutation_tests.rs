use cube3d_sponge::{
    color, decrypt, encrypt, neighbors6, permute, permute_inverse, pi, pi_inv, pi_map, pi_unmap,
    rate_cells, capacity_cells, rho, rho_inv, round_forward, round_inverse, Cube, CELLS,
};
use std::collections::HashSet;

fn sample_cube(mul: usize, add: usize) -> Cube {
    let mut s = [0u8; CELLS];
    for (i, b) in s.iter_mut().enumerate() {
        *b = ((i * mul + add) % 256) as u8;
    }
    s
}

#[test]
fn pi_is_a_bijection() {
    let images: HashSet<usize> = (0..CELLS).map(pi_map).collect();
    assert_eq!(images.len(), CELLS, "pi_map collides — not a permutation");
}

#[test]
fn pi_unmap_inverts_pi_map() {
    for i in 0..CELLS {
        assert_eq!(pi_unmap(pi_map(i)), i, "pi_unmap failed at cell {}", i);
    }
}

#[test]
fn rho_roundtrips() {
    let s = sample_cube(53, 9);
    assert_eq!(rho_inv(&rho(&s)), s);
}

#[test]
fn pi_roundtrips() {
    let s = sample_cube(29, 3);
    assert_eq!(pi_inv(&pi(&s)), s);
}

#[test]
fn single_round_invertible() {
    let s = sample_cube(37, 11);
    for r in 0..5 {
        let s1 = round_forward(&s, r);
        let s0 = round_inverse(&s1, r);
        assert_eq!(s, s0, "round {} not invertible", r);
    }
}

#[test]
fn full_permutation_invertible() {
    let s = sample_cube(71, 5);
    let p = permute(&s);
    let back = permute_inverse(&p);
    assert_eq!(s, back);
}

#[test]
fn stream_cipher_roundtrip() {
    let key = b"0123456789abcdef0123456789abcdef";
    let nonce = b"a-test-nonce-value";
    let pt = b"the quick brown fox jumps over the lazy dog, repeatedly, \
               to fill more than one single rate block of keystream output";
    let ct = encrypt(key, nonce, pt);
    let back = decrypt(key, nonce, &ct);
    assert_eq!(&back[..], &pt[..]);
    assert_ne!(&ct[..], &pt[..]);
}

#[test]
fn shell_partition_sizes() {
    assert_eq!(rate_cells().len() + capacity_cells().len(), CELLS);
    assert_eq!(rate_cells().len(), 296);
    assert_eq!(capacity_cells().len(), 216);
}

#[test]
fn checkerboard_neighbors_always_opposite_colour() {
    for i in 0..CELLS {
        let ci = color(i);
        for n in neighbors6(i) {
            assert_ne!(ci, color(n), "cell {} and neighbour {} share a colour", i, n);
        }
    }
}

/// Regression test for the bit-plane independence bug: without rho, a flipped
/// bit can never leave its own bit-plane, and this asserts >1 plane is touched.
#[test]
fn bitplanes_are_coupled() {
    let s = sample_cube(97, 13);
    let mut t = s;
    t[100] ^= 0x01; // flip bit 0 of one cell, and nothing else

    let mut a = s;
    let mut b = t;
    for r in 0..4 {
        a = round_forward(&a, r);
        b = round_forward(&b, r);
    }

    let mut mask = 0u8;
    for i in 0..CELLS {
        mask |= a[i] ^ b[i];
    }
    assert!(
        mask.count_ones() >= 2,
        "difference confined to {} bit-plane(s) (mask {:08b}) — rho isn't coupling planes",
        mask.count_ones(),
        mask
    );
}
