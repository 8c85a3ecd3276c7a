use cube3d_sponge::{
    chi3, color, coords, decrypt, encrypt, feistel_inverse, feistel_variant, idx, is_rate,
    keystream, neighbors6, permute, permute_inverse, permute_inverse_r, permute_r, pi_map,
    pi_unmap, radius, rate_cells, capacity_cells, rho_offset, round_constant, round_forward,
    round_forward_variant, round_inverse, tables, Cube, Sponge, CELLS, N, OUTER_RADIUS, ROUNDS,
};

fn sample_cube(mul: usize, add: usize) -> Cube {
    let mut s = [0u8; CELLS];
    for (i, b) in s.iter_mut().enumerate() {
        *b = ((i * mul + add) % 256) as u8;
    }
    s
}

#[test]
fn constants() {
    assert_eq!(N, 8);
    assert_eq!(CELLS, 512);
    assert_eq!(ROUNDS, 12);
    assert_eq!(OUTER_RADIUS, 3);
}

#[test]
fn coordinates_roundtrip() {
    for i in 0..CELLS {
        let (x, y, z) = coords(i);
        assert!(x < N && y < N && z < N);
        assert_eq!(idx(x, y, z), i);
    }
    assert_eq!(coords(0), (0, 0, 0));
    assert_eq!(coords(511), (7, 7, 7));
    assert_eq!(idx(1, 2, 3), 1 + 16 + 192);
}

#[test]
fn shells_and_rate() {
    assert_eq!(radius(0), 3);
    assert_eq!(radius(idx(3, 4, 3)), 0);
    assert_eq!(radius(idx(2, 4, 5)), 1);
    assert_eq!(radius(idx(1, 3, 3)), 2);
    assert!(is_rate(0));
    assert!(!is_rate(idx(3, 4, 3)));
    let central = (0..CELLS).filter(|&i| radius(i) == 0).count();
    assert_eq!(central, 8);
    assert!((0..CELLS).all(|i| radius(i) <= 3));
    let rate = rate_cells();
    assert!(rate.windows(2).all(|w| w[0] < w[1]));
    assert!(rate.iter().all(|&c| is_rate(c)));
    assert!(capacity_cells().iter().all(|&c| !is_rate(c)));
    assert_eq!(Sponge::rate_len(), 296);
    assert_eq!(Sponge::capacity_len(), 216);
}

#[test]
fn rho_offsets_differ_between_neighbours() {
    for i in 0..CELLS {
        for n in neighbors6(i) {
            assert_ne!(rho_offset(i), rho_offset(n));
        }
    }
    assert_eq!(rho_offset(0), 0);
    assert_eq!(rho_offset(1), 1);
    assert_eq!(rho_offset(8), 3);
    assert_eq!(rho_offset(64), 5);
    assert_eq!(rho_offset(511), 7);
}

#[test]
fn pi_known_values_and_inverse() {
    assert_eq!(pi_map(0), 0);
    assert_eq!(pi_map(1), 65);
    assert_eq!(pi_map(9), 138);
    assert_eq!(pi_map(100), 104);
    assert_eq!(pi_map(511), 374);
    for j in 0..CELLS {
        assert_eq!(pi_map(pi_unmap(j)), j);
    }
}

#[test]
fn tables_match_their_functions() {
    let t = tables();
    assert_eq!(t.nbrs.len(), CELLS);
    for i in 0..CELLS {
        assert_eq!(t.nbrs[i], neighbors6(i));
        assert_eq!(t.rho_off[i], rho_offset(i));
        assert_eq!(t.pi_fwd[i], pi_map(i));
    }
    assert_eq!(t.a_cells.len(), 256);
    assert_eq!(t.b_cells.len(), 256);
    assert!(t.a_cells.iter().all(|&i| color(i) == 0));
    assert!(t.b_cells.iter().all(|&i| color(i) == 1));
}

#[test]
fn round_constants_first_twelve() {
    let rc: Vec<u8> = (0..12).map(round_constant).collect();
    assert_eq!(
        rc,
        vec![0xf7, 0x92, 0xf1, 0x2f, 0x8e, 0xdd, 0x51, 0xff, 0x0e, 0xa5, 0x1e, 0xa6]
    );
}

#[test]
fn slide_symmetry_broken_by_constant() {
    let mut probe = [0u8; CELLS];
    for (i, b) in probe.iter_mut().enumerate() {
        *b = ((i * 13 + 7) % 256) as u8;
    }
    assert_eq!(
        round_forward_variant(&probe, 0, false),
        round_forward_variant(&probe, 3, false)
    );
    assert_ne!(
        round_forward_variant(&probe, 0, true),
        round_forward_variant(&probe, 3, true)
    );
    assert_eq!(
        round_forward_variant(&probe, 4, false),
        round_forward_variant(&probe, 7, false)
    );
}

#[test]
fn round_and_permutation_known_values() {
    let s = sample_cube(37, 11);
    assert_eq!(&feistel_variant(&s, 0, true)[..8], &[114, 146, 85, 106, 149, 192, 169, 199]);
    assert_eq!(&round_forward(&s, 0)[..8], &[114, 85, 83, 85, 133, 117, 87, 212]);
    assert_eq!(&permute(&s)[..8], &[9, 183, 191, 26, 219, 29, 80, 111]);
    assert_eq!(permute_r(&s, ROUNDS), permute(&s));
    assert_eq!(permute_inverse_r(&s, ROUNDS), permute_inverse(&s));
}

#[test]
fn chi3_reads_only_the_other_colour() {
    let s = sample_cube(41, 3);
    let mut t = s;
    // Change every cell of the same colour as cell 0: chi3 at cell 0 is unchanged.
    for i in 0..CELLS {
        if color(i) == color(0) {
            t[i] ^= 0x5a;
        }
    }
    for r in 0..3 {
        assert_eq!(chi3(&s, 0, r), chi3(&t, 0, r));
    }
}

#[test]
fn feistel_and_permutation_are_bijections_both_ways() {
    let s = sample_cube(53, 29);
    for r in 0..4 {
        assert_eq!(feistel_inverse(&feistel_variant(&s, r, true), r), s);
        assert_eq!(feistel_variant(&feistel_inverse(&s, r), r, true), s);
        assert_eq!(round_forward(&round_inverse(&s, r), r), s);
    }
    assert_eq!(permute(&permute_inverse(&s)), s);
    assert_eq!(permute_r(&permute_inverse_r(&s, 5), 5), s);
    assert_eq!(permute_inverse_r(&permute_r(&s, 5), 5), s);
}

#[test]
fn sponge_absorb_touches_only_rate_cells() {
    let mut sp = Sponge::new();
    assert_eq!(sp.state, [0u8; CELLS]);
    let data: Vec<u8> = (1..=40).collect();
    sp.absorb(&data);
    let mut expected = [0u8; CELLS];
    for (n, &cell) in rate_cells().iter().enumerate().take(data.len()) {
        expected[cell] ^= data[n];
    }
    assert_eq!(sp.state, permute(&expected));
    // Undo the permutation: capacity cells are still zero.
    let back = permute_inverse(&sp.state);
    for i in 0..CELLS {
        if !is_rate(i) {
            assert_eq!(back[i], 0);
        }
    }
    let d = Sponge::default();
    assert_eq!(d.state, [0u8; CELLS]);
}

#[test]
fn squeeze_reads_rate_blocks() {
    let mut sp = Sponge::new();
    sp.absorb(b"seed");
    let s0 = sp.state;
    let rate = rate_cells();
    let out = sp.squeeze(300);
    assert_eq!(out.len(), 300);
    for (n, &cell) in rate.iter().enumerate() {
        assert_eq!(out[n], s0[cell]);
    }
    let s1 = permute(&s0);
    for n in 0..4 {
        assert_eq!(out[296 + n], s1[rate[n]]);
    }
    assert_eq!(sp.state, s1);
    let mut sp2 = Sponge::new();
    sp2.absorb(b"seed");
    // A full block permutes once more even when nothing else is read.
    let full = sp2.squeeze(296);
    assert_eq!(&full[..], &out[..296]);
    assert_eq!(sp2.state, s1);
    let mut sp3 = Sponge::new();
    assert!(sp3.squeeze(0).is_empty());
    assert_eq!(sp3.state, [0u8; CELLS]);
}

#[test]
fn keystream_known_values_and_prefixes() {
    assert_eq!(keystream(b"key", b"nonce", 8), vec![218, 34, 69, 223, 170, 129, 130, 151]);
    assert_eq!(keystream(b"", b"", 5), vec![0, 0, 0, 0, 0]);
    let long = keystream(b"key", b"nonce", 700);
    assert_eq!(&long[..8], &keystream(b"key", b"nonce", 8)[..]);
    assert_ne!(keystream(b"key", b"nonce", 16), keystream(b"key", b"nonc3", 16));
}

#[test]
fn keystream_chunks_long_inputs() {
    let key: Vec<u8> = (0..700).map(|i| (i % 251) as u8).collect();
    let nonce = b"n";
    let mut sp = Sponge::new();
    sp.absorb(&key[..296]);
    sp.absorb(&key[296..592]);
    sp.absorb(&key[592..]);
    sp.absorb(nonce);
    let expected = sp.squeeze(50);
    assert_eq!(keystream(&key, nonce, 50), expected);
}

#[test]
fn encrypt_decrypt_roundtrip_many_lengths() {
    let key = b"a key";
    let nonce = b"a nonce";
    for len in [0usize, 1, 295, 296, 297, 1000] {
        let pt: Vec<u8> = (0..len).map(|i| (i * 31 % 256) as u8).collect();
        let ct = encrypt(key, nonce, &pt);
        assert_eq!(ct.len(), len);
        assert_eq!(decrypt(key, nonce, &ct), pt);
        let ks = keystream(key, nonce, len);
        for i in 0..len {
            assert_eq!(ct[i], pt[i] ^ ks[i]);
        }
    }
}

#[test]
fn chi3_pairing_depends_on_the_round() {
    // Only neighbour 1 (-x) of cell 0 is set: round 0 pairs (+x,-x) and sees it,
    // round 1 pairs (-x,+y) with -x first and does not.
    let n = neighbors6(0);
    let mut s = [0u8; CELLS];
    s[n[1]] = 0xFF;
    assert_eq!(chi3(&s, 0, 0), 0xFF);
    assert_eq!(chi3(&s, 0, 1), 0);
    let mut t = [0u8; CELLS];
    t[n[0]] = 0xFF;
    t[n[3]] = 0xFF;
    assert_eq!(chi3(&t, 0, 0), 0xFF);
    assert_eq!(chi3(&t, 0, 2), 0);
    let mut u = [0u8; CELLS];
    u[n[2]] = 0xFF;
    assert_eq!(chi3(&u, 0, 1), 0xFF);
    assert_eq!(chi3(&u, 0, 2), 0);
    assert_eq!(chi3(&u, 0, 4), 0xFF);
    let mut probe = [0u8; CELLS];
    for (i, b) in probe.iter_mut().enumerate() {
        *b = ((i * 13 + 7) % 256) as u8;
    }
    assert_ne!(round_forward_variant(&probe, 0, false), round_forward_variant(&probe, 1, false));
}

#[test]
fn neighbours_are_distinct_and_symmetric() {
    assert_eq!(neighbors6(0), [1, 7, 8, 56, 64, 448]);
    for i in 0..CELLS {
        let n = neighbors6(i);
        for a in 0..6 {
            assert_ne!(n[a], i);
            for b in 0..6 {
                if a != b {
                    assert_ne!(n[a], n[b]);
                }
            }
            assert!(neighbors6(n[a]).contains(&i));
        }
    }
}
