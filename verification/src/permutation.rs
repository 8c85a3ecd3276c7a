//! The round function and the permutation.
//!
//! A round is three individually invertible steps:
//!   1. FEISTEL: A ^= chi3(B); inject the round constant; B ^= chi3(A').
//!   2. RHO: rotate each cell's byte left by a per-cell offset.
//!   3. PI: move each cell along the shear of its coordinates.
//! chi3 at a cell reads only the cell's neighbours, which all have the other
//! colour, so each Feistel half is updated from the other half alone and the
//! update can be undone whatever chi3 computes.
use vstd::prelude::*;
use crate::geometry::{
    neighbors6, rho_offset, pi_map, color, Cube, CELLS, ROUNDS, lemma_color_zero, lemma_cell_zero_fixed,
    color_spec, in_cube, lemma_color_bit, lemma_neighbors_distinct, lemma_rho_offset_bound, lemma_neighbor, lemma_pi_map_unmap, lemma_pi_unmap_map, neighbor_spec,
    pi_map_spec, pi_unmap_spec, rho_offset_spec,
};

verus! {

// ---------------------------------------------------------------------------
// Mathematical model
// ---------------------------------------------------------------------------

/// Which neighbour (in the order +x, -x, +y, -y, +z, -z) is tap `k` of a round.
/// The taps are paired (0,1), (2,3), (4,5), and the round rotates which
/// neighbours form the pairs:
///   round % 3 == 0: (+x,-x), (+y,-y), (+z,-z)
///   round % 3 == 1: (-x,+y), (-y,+z), (-z,+x)
///   round % 3 == 2: (+x,-y), (+y,-z), (+z,-x)
/// Even taps move by round % 3 % 2 and odd taps by round % 3.
pub open spec fn tap_index(k: int, round: u32) -> int {
    let r = (round % 3) as int;
    (k + if k % 2 == 0 { r % 2 } else { r }) % 6
}

/// The `k`-th of the six neighbour taps of cell `i` in round `round`.
pub open spec fn tap_spec(i: int, round: u32, k: int) -> int {
    neighbor_spec(i, tap_index(k, round))
}

/// The nonlinear mixing value of cell `i`: three Chi-style AND terms over the
/// cell's neighbours.
pub open spec fn chi3_spec(s: Seq<u8>, i: int, round: u32) -> u8 {
    ((!s[tap_spec(i, round, 0)]) & s[tap_spec(i, round, 1)]) ^ ((!s[tap_spec(i, round, 2)])
        & s[tap_spec(i, round, 3)]) ^ ((!s[tap_spec(i, round, 4)]) & s[tap_spec(i, round, 5)])
}

/// Multiplication modulo 2^32.
pub open spec fn mul32(x: u32, y: u32) -> u32 {
    ((x as nat * y as nat) % 0x1_0000_0000nat) as u32
}

/// The round constant of round `round`.
pub open spec fn round_constant_spec(round: u32) -> u8 {
    let x0 = mul32(round, 0x9E37_79B1u32) ^ 0xA5A5_A5A5u32;
    let x1 = x0 ^ (x0 >> 15u32);
    let x2 = mul32(x1, 0x85EB_CA6Bu32);
    let x3 = x2 ^ (x2 >> 13u32);
    (x3 & 0xFFu32) as u8
}

/// First Feistel half: every colour-A cell absorbs chi3 of the colour-B cells,
/// and the round constant goes into cell 0 when it is enabled.
pub open spec fn feistel_a_spec(s: Seq<u8>, round: u32, use_constant: bool) -> Seq<u8> {
    Seq::new(
        512,
        |i: int|
            if color_spec(i) == 0 {
                if i == 0 && use_constant {
                    s[i] ^ chi3_spec(s, i, round) ^ round_constant_spec(round)
                } else {
                    s[i] ^ chi3_spec(s, i, round)
                }
            } else {
                s[i]
            },
    )
}

/// The Feistel step: the colour-B cells then absorb chi3 of the updated A cells.
pub open spec fn feistel_spec(s: Seq<u8>, round: u32, use_constant: bool) -> Seq<u8> {
    let a = feistel_a_spec(s, round, use_constant);
    Seq::new(
        512,
        |i: int|
            if color_spec(i) == 1 {
                s[i] ^ chi3_spec(a, i, round)
            } else {
                a[i]
            },
    )
}

/// First half of the inverse Feistel step: recover the B cells and take the
/// round constant back out of cell 0.
pub open spec fn feistel_inverse_b_spec(t: Seq<u8>, round: u32) -> Seq<u8> {
    Seq::new(
        512,
        |i: int|
            if color_spec(i) == 1 {
                t[i] ^ chi3_spec(t, i, round)
            } else if i == 0 {
                t[i] ^ round_constant_spec(round)
            } else {
                t[i]
            },
    )
}

/// The inverse Feistel step.
pub open spec fn feistel_inverse_spec(t: Seq<u8>, round: u32) -> Seq<u8> {
    let b = feistel_inverse_b_spec(t, round);
    Seq::new(
        512,
        |i: int|
            if color_spec(i) == 0 {
                b[i] ^ chi3_spec(b, i, round)
            } else {
                b[i]
            },
    )
}

/// Rotate a byte left by `r` bits, 0 <= r < 8.
pub open spec fn rotl8(x: u8, r: u32) -> u8 {
    if r == 0 {
        x
    } else {
        ((x << r) | (x >> (8 - r) as u32)) as u8
    }
}

/// Rotate a byte right by `r` bits, 0 <= r < 8.
pub open spec fn rotr8(x: u8, r: u32) -> u8 {
    if r == 0 {
        x
    } else {
        ((x >> r) | (x << (8 - r) as u32)) as u8
    }
}

/// The rho step: each cell rotated left by its own offset.
pub open spec fn rho_spec(s: Seq<u8>) -> Seq<u8> {
    Seq::new(512, |i: int| rotl8(s[i], rho_offset_spec(i) as u32))
}

/// The inverse rho step.
pub open spec fn rho_inv_spec(s: Seq<u8>) -> Seq<u8> {
    Seq::new(512, |i: int| rotr8(s[i], rho_offset_spec(i) as u32))
}

/// The pi step: the byte of cell `i` moves to cell pi_map(i).
pub open spec fn pi_spec(s: Seq<u8>) -> Seq<u8> {
    Seq::new(512, |j: int| s[pi_unmap_spec(j)])
}

/// The inverse pi step.
pub open spec fn pi_inv_spec(s: Seq<u8>) -> Seq<u8> {
    Seq::new(512, |i: int| s[pi_map_spec(i)])
}

/// One full round: feistel, then rho, then pi.
pub open spec fn round_spec(s: Seq<u8>, round: u32, use_constant: bool) -> Seq<u8> {
    pi_spec(rho_spec(feistel_spec(s, round, use_constant)))
}

/// The inverse of a full round: pi inverse, then rho inverse, then feistel inverse.
pub open spec fn round_inverse_spec(t: Seq<u8>, round: u32) -> Seq<u8> {
    feistel_inverse_spec(rho_inv_spec(pi_inv_spec(t)), round)
}

/// Rounds 0, 1, ..., n-1 applied in order.
pub open spec fn permute_r_spec(s: Seq<u8>, n: nat) -> Seq<u8>
    decreases n,
{
    if n == 0 {
        s
    } else {
        round_spec(permute_r_spec(s, (n - 1) as nat), (n - 1) as u32, true)
    }
}

/// Inverse rounds n-1, n-2, ..., 0 applied in order.
pub open spec fn permute_inverse_r_spec(t: Seq<u8>, n: nat) -> Seq<u8>
    decreases n,
{
    if n == 0 {
        t
    } else {
        permute_inverse_r_spec(round_inverse_spec(t, (n - 1) as u32), (n - 1) as nat)
    }
}

/// The full permutation.
pub open spec fn permute_spec(s: Seq<u8>) -> Seq<u8> {
    permute_r_spec(s, 12)
}

/// The full inverse permutation.
pub open spec fn permute_inverse_spec(t: Seq<u8>) -> Seq<u8> {
    permute_inverse_r_spec(t, 12)
}

// ---------------------------------------------------------------------------
// Lemmas
// ---------------------------------------------------------------------------

/// chi3 at a cell reads only cells of the other colour: two states that agree
/// on those cells give the same chi3 value.
pub proof fn lemma_chi3_reads_other_color(s1: Seq<u8>, s2: Seq<u8>, i: int, round: u32)
    requires
        in_cube(i),
        s1.len() == 512,
        s2.len() == 512,
        forall|j: int| in_cube(j) && color_spec(j) != color_spec(i) ==> s1[j] == s2[j],
    ensures
        chi3_spec(s1, i, round) == chi3_spec(s2, i, round),
{
    lemma_neighbor(i, tap_index(0, round));
    lemma_neighbor(i, tap_index(1, round));
    lemma_neighbor(i, tap_index(2, round));
    lemma_neighbor(i, tap_index(3, round));
    lemma_neighbor(i, tap_index(4, round));
    lemma_neighbor(i, tap_index(5, round));
}

/// The byte facts used to evaluate chi3 on states made of 0x00 and 0xFF bytes.
proof fn lemma_full_empty_bytes()
    ensures
        (!0u8) & 0u8 == 0u8,
        (!0u8) & 0xFFu8 == 0xFFu8,
        (!0xFFu8) & 0u8 == 0u8,
        (!0xFFu8) & 0xFFu8 == 0u8,
        0u8 ^ 0u8 == 0u8,
        0xFFu8 ^ 0u8 == 0xFFu8,
        0u8 ^ 0xFFu8 == 0xFFu8,
{
    assert((!0u8) & 0u8 == 0u8) by (bit_vector);
    assert((!0u8) & 0xFFu8 == 0xFFu8) by (bit_vector);
    assert((!0xFFu8) & 0u8 == 0u8) by (bit_vector);
    assert((!0xFFu8) & 0xFFu8 == 0u8) by (bit_vector);
    assert(0u8 ^ 0u8 == 0u8) by (bit_vector);
    assert(0xFFu8 ^ 0u8 == 0xFFu8) by (bit_vector);
    assert(0u8 ^ 0xFFu8 == 0xFFu8) by (bit_vector);
}

/// chi3 really depends on the round: for rounds with different residues mod 3
/// it combines different neighbour pairs, so at every cell some state tells
/// the two rounds apart.
pub proof fn lemma_chi3_depends_on_round(i: int, r1: u32, r2: u32)
    requires
        in_cube(i),
        r1 % 3 != r2 % 3,
    ensures
        exists|s: Seq<u8>| s.len() == 512 && chi3_spec(s, i, r1) != chi3_spec(s, i, r2),
{
    lemma_neighbors_distinct(i);
    lemma_taps_in_cube(i, r1);
    lemma_taps_in_cube(i, r2);
    lemma_full_empty_bytes();
    let a = r1 % 3;
    let b = r2 % 3;
    // The neighbours set to 0xFF: with them, exactly one of the two rounds has an
    // odd number of pairs (x, y) with x clear and y set.
    let j1: int = if (a == 0 && b == 1) || (a == 1 && b == 0) {
        1
    } else if (a == 0 && b == 2) || (a == 2 && b == 0) {
        0
    } else {
        2
    };
    let j2: int = if (a == 0 && b == 2) || (a == 2 && b == 0) { 3 } else { j1 };
    let c1 = neighbor_spec(i, j1);
    let c2 = neighbor_spec(i, j2);
    let s = Seq::new(512, |t: int| if t == c1 || t == c2 { 0xFFu8 } else { 0u8 });
    assert forall|k: int| 0 <= k < 6 implies #[trigger] s[tap_spec(i, r1, k)] == (if tap_index(k, r1)
        == j1 || tap_index(k, r1) == j2 { 0xFFu8 } else { 0u8 }) by {
        assert(in_cube(tap_spec(i, r1, k)));
    }
    assert forall|k: int| 0 <= k < 6 implies #[trigger] s[tap_spec(i, r2, k)] == (if tap_index(k, r2)
        == j1 || tap_index(k, r2) == j2 { 0xFFu8 } else { 0u8 }) by {
        assert(in_cube(tap_spec(i, r2, k)));
    }
    assert(in_cube(tap_spec(i, r1, 0)) && in_cube(tap_spec(i, r1, 1)) && in_cube(tap_spec(i, r1, 2))
        && in_cube(tap_spec(i, r1, 3)) && in_cube(tap_spec(i, r1, 4)) && in_cube(tap_spec(i, r1, 5)));
    assert(in_cube(tap_spec(i, r2, 0)) && in_cube(tap_spec(i, r2, 1)) && in_cube(tap_spec(i, r2, 2))
        && in_cube(tap_spec(i, r2, 3)) && in_cube(tap_spec(i, r2, 4)) && in_cube(tap_spec(i, r2, 5)));
    assert(s.len() == 512 && chi3_spec(s, i, r1) != chi3_spec(s, i, r2));
}

/// Every tap of a cell is a cell of the cube.
pub proof fn lemma_taps_in_cube(i: int, round: u32)
    requires
        in_cube(i),
    ensures
        forall|k: int| 0 <= k < 6 ==> #[trigger] in_cube(tap_spec(i, round, k)),
{
    assert forall|k: int| 0 <= k < 6 implies #[trigger] in_cube(tap_spec(i, round, k)) by {
        lemma_neighbor(i, tap_index(k, round));
    }
}

/// XOR-ing the same byte twice cancels.
pub proof fn lemma_xor_cancel(a: u8, b: u8)
    ensures
        a ^ b ^ b == a,
        a ^ (b ^ b) == a,
{
    assert(a ^ b ^ b == a) by (bit_vector);
    assert(a ^ (b ^ b) == a) by (bit_vector);
}

/// Rotating right undoes rotating left, and the other way round.
pub proof fn lemma_rot_inverse(x: u8, r: u32)
    requires
        r < 8,
    ensures
        rotr8(rotl8(x, r), r) == x,
        rotl8(rotr8(x, r), r) == x,
{
    assert(rotr8(rotl8(x, r), r) == x) by (bit_vector)
        requires
            r < 8,
    ;
    assert(rotl8(rotr8(x, r), r) == x) by (bit_vector)
        requires
            r < 8,
    ;
}

/// Undoing the Feistel step after doing it gives back the state.
pub proof fn lemma_feistel_inverse_of_forward(s: Seq<u8>, round: u32)
    requires
        s.len() == 512,
    ensures
        feistel_inverse_spec(feistel_spec(s, round, true), round) == s,
{
    let a = feistel_a_spec(s, round, true);
    let t = feistel_spec(s, round, true);
    let b = feistel_inverse_b_spec(t, round);
    let rc = round_constant_spec(round);
    assert forall|i: int| in_cube(i) && color_spec(i) == 1 implies b[i] == s[i] by {
        assert forall|j: int| in_cube(j) && color_spec(j) != color_spec(i) implies t[j] == a[j] by {
            lemma_color_bit(j);
        }
        lemma_chi3_reads_other_color(t, a, i, round);
        lemma_xor_cancel(s[i], chi3_spec(a, i, round));
    }
    assert forall|i: int| in_cube(i) && color_spec(i) == 0 implies b[i] == s[i] ^ chi3_spec(
        s,
        i,
        round,
    ) by {
        if i == 0 {
            lemma_xor_cancel(s[i] ^ chi3_spec(s, i, round), rc);
        }
    }
    let u = feistel_inverse_spec(t, round);
    assert forall|i: int| in_cube(i) implies #[trigger] u[i] == s[i] by {
        lemma_color_bit(i);
        if color_spec(i) == 0 {
            assert forall|j: int| in_cube(j) && color_spec(j) != color_spec(i) implies b[j]
                == s[j] by {
                lemma_color_bit(j);
            }
            lemma_chi3_reads_other_color(b, s, i, round);
            lemma_xor_cancel(s[i], chi3_spec(s, i, round));
        }
    }
    assert(u =~= s);
}

/// Doing the Feistel step after undoing it gives back the state.
pub proof fn lemma_feistel_forward_of_inverse(t: Seq<u8>, round: u32)
    requires
        t.len() == 512,
    ensures
        feistel_spec(feistel_inverse_spec(t, round), round, true) == t,
{
    let b = feistel_inverse_b_spec(t, round);
    let s = feistel_inverse_spec(t, round);
    let a = feistel_a_spec(s, round, true);
    let rc = round_constant_spec(round);
    assert forall|i: int| in_cube(i) && color_spec(i) == 0 implies a[i] == t[i] by {
        assert forall|j: int| in_cube(j) && color_spec(j) != color_spec(i) implies s[j] == b[j] by {
            lemma_color_bit(j);
        }
        lemma_chi3_reads_other_color(s, b, i, round);
        lemma_xor_cancel(b[i], chi3_spec(b, i, round));
        if i == 0 {
            lemma_xor_cancel(t[i], rc);
        }
    }
    let u = feistel_spec(s, round, true);
    assert forall|i: int| in_cube(i) implies #[trigger] u[i] == t[i] by {
        lemma_color_bit(i);
        if color_spec(i) == 1 {
            assert forall|j: int| in_cube(j) && color_spec(j) != color_spec(i) implies a[j]
                == t[j] by {
                lemma_color_bit(j);
            }
            lemma_chi3_reads_other_color(a, t, i, round);
            lemma_xor_cancel(t[i], chi3_spec(t, i, round));
        }
    }
    assert(u =~= t);
}

/// rho_inv undoes rho, and rho undoes rho_inv.
pub proof fn lemma_rho_roundtrip(s: Seq<u8>)
    requires
        s.len() == 512,
    ensures
        rho_inv_spec(rho_spec(s)) == s,
        rho_spec(rho_inv_spec(s)) == s,
{
    let u = rho_inv_spec(rho_spec(s));
    let v = rho_spec(rho_inv_spec(s));
    assert forall|i: int| in_cube(i) implies #[trigger] u[i] == s[i] && v[i] == s[i] by {
        lemma_rho_offset_bound(i);
        lemma_rot_inverse(s[i], rho_offset_spec(i) as u32);
    }
    assert(u =~= s);
    assert(v =~= s);
}

/// pi_inv undoes pi, and pi undoes pi_inv.
pub proof fn lemma_pi_roundtrip(s: Seq<u8>)
    requires
        s.len() == 512,
    ensures
        pi_inv_spec(pi_spec(s)) == s,
        pi_spec(pi_inv_spec(s)) == s,
{
    let u = pi_inv_spec(pi_spec(s));
    let v = pi_spec(pi_inv_spec(s));
    assert forall|i: int| in_cube(i) implies #[trigger] u[i] == s[i] && v[i] == s[i] by {
        lemma_pi_unmap_map(i);
        lemma_pi_map_unmap(i);
    }
    assert(u =~= s);
    assert(v =~= s);
}

/// round_inverse undoes a round with its constant, and a round undoes round_inverse.
pub proof fn lemma_round_roundtrip(s: Seq<u8>, round: u32)
    requires
        s.len() == 512,
    ensures
        round_inverse_spec(round_spec(s, round, true), round) == s,
        round_spec(round_inverse_spec(s, round), round, true) == s,
{
    let f = feistel_spec(s, round, true);
    lemma_pi_roundtrip(rho_spec(f));
    lemma_rho_roundtrip(f);
    lemma_feistel_inverse_of_forward(s, round);
    let p = pi_inv_spec(s);
    let q = rho_inv_spec(p);
    lemma_feistel_forward_of_inverse(q, round);
    lemma_rho_roundtrip(p);
    lemma_pi_roundtrip(s);
}

/// Every round keeps the state a cube.
pub proof fn lemma_round_len(s: Seq<u8>, round: u32, use_constant: bool)
    ensures
        round_spec(s, round, use_constant).len() == 512,
        round_inverse_spec(s, round).len() == 512,
{
}

/// The reduced-round permutation keeps the state a cube.
pub proof fn lemma_permute_r_len(s: Seq<u8>, n: nat)
    requires
        s.len() == 512,
    ensures
        permute_r_spec(s, n).len() == 512,
        permute_inverse_r_spec(s, n).len() == 512,
    decreases n,
{
    if n > 0 {
        lemma_permute_r_len(s, (n - 1) as nat);
        lemma_permute_r_len(round_inverse_spec(s, (n - 1) as u32), (n - 1) as nat);
    }
}

/// The inverse of the n-round permutation undoes it: for every state and every
/// round count, permute_inverse_r(permute_r(s, n), n) == s.
pub proof fn lemma_permute_r_inverse(s: Seq<u8>, n: nat)
    requires
        s.len() == 512,
        n <= u32::MAX,
    ensures
        permute_inverse_r_spec(permute_r_spec(s, n), n) == s,
    decreases n,
{
    if n > 0 {
        let p = permute_r_spec(s, (n - 1) as nat);
        lemma_permute_r_len(s, (n - 1) as nat);
        lemma_round_roundtrip(p, (n - 1) as u32);
        lemma_permute_r_inverse(s, (n - 1) as nat);
    }
}

/// Applying the inverse rounds n-1, ..., k to the output of rounds 0..n leaves
/// the output of rounds 0..k.
proof fn lemma_permute_r_split(t: Seq<u8>, n: nat)
    requires
        t.len() == 512,
        n <= u32::MAX,
    ensures
        permute_r_spec(permute_inverse_r_spec(t, n), n) == t,
    decreases n,
{
    if n > 0 {
        let t1 = round_inverse_spec(t, (n - 1) as u32);
        lemma_round_len(t, (n - 1) as u32, true);
        lemma_permute_r_split(t1, (n - 1) as nat);
        lemma_round_roundtrip(t, (n - 1) as u32);
        lemma_permute_r_step(permute_inverse_r_spec(t1, (n - 1) as nat), (n - 1) as nat);
    }
}

/// One more round on top of the first n rounds is the (n+1)-round permutation.
proof fn lemma_permute_r_step(s: Seq<u8>, n: nat)
    requires
        n < u32::MAX,
    ensures
        permute_r_spec(s, n + 1) == round_spec(permute_r_spec(s, n), n as u32, true),
{
}

/// The n-round permutation undoes its inverse: for every state and every round
/// count, permute_r(permute_inverse_r(t, n), n) == t. Together with
/// lemma_permute_r_inverse, the reduced-round permutation is a bijection.
pub proof fn lemma_permute_r_inverse_other_way(t: Seq<u8>, n: nat)
    requires
        t.len() == 512,
        n <= u32::MAX,
    ensures
        permute_r_spec(permute_inverse_r_spec(t, n), n) == t,
{
    lemma_permute_r_split(t, n);
}

/// The full permutation is a bijection on cube states: permute_inverse undoes
/// permute, and permute undoes permute_inverse.
pub proof fn lemma_permute_bijection(s: Seq<u8>)
    requires
        s.len() == 512,
    ensures
        permute_inverse_spec(permute_spec(s)) == s,
        permute_spec(permute_inverse_spec(s)) == s,
{
    lemma_permute_r_inverse(s, 12);
    lemma_permute_r_inverse_other_way(s, 12);
}

/// Without the round constant, a round depends on its number only through
/// `round % 3` (which neighbour pairs chi3 combines), so rounds r and r + 3 are
/// the same function.
pub proof fn lemma_round_period_three_without_constant(s: Seq<u8>, r1: u32, r2: u32)
    requires
        r1 % 3 == r2 % 3,
    ensures
        round_spec(s, r1, false) == round_spec(s, r2, false),
{
    assert(feistel_a_spec(s, r1, false) =~= feistel_a_spec(s, r2, false));
    assert(feistel_spec(s, r1, false) =~= feistel_spec(s, r2, false));
}

/// The round constant is what tells apart rounds that share a tap rotation: when
/// r1 % 3 == r2 % 3 and the two constants differ, the two rounds give different
/// outputs on every state (they differ in cell 0 by exactly the two constants).
pub proof fn lemma_constant_separates_rounds(s: Seq<u8>, r1: u32, r2: u32)
    requires
        s.len() == 512,
        r1 % 3 == r2 % 3,
        round_constant_spec(r1) != round_constant_spec(r2),
    ensures
        round_spec(s, r1, true) != round_spec(s, r2, true),
        round_spec(s, r1, true)[0] ^ round_spec(s, r2, true)[0] == round_constant_spec(r1)
            ^ round_constant_spec(r2),
{
    lemma_cell_zero_fixed();
    lemma_color_zero();
    let c = chi3_spec(s, 0, r1);
    assert(chi3_spec(s, 0, r2) == c);
    let a = s[0];
    let k1 = round_constant_spec(r1);
    let k2 = round_constant_spec(r2);
    assert(round_spec(s, r1, true)[0] == a ^ c ^ k1);
    assert(round_spec(s, r2, true)[0] == a ^ c ^ k2);
    assert((a ^ c ^ k1) ^ (a ^ c ^ k2) == k1 ^ k2) by (bit_vector);
    assert(k1 != k2 ==> a ^ c ^ k1 != a ^ c ^ k2) by (bit_vector);
}

// ---------------------------------------------------------------------------
// Executable round function
// ---------------------------------------------------------------------------

/// Nonlinear per-cell mixing function: three independent Chi-style AND terms over
/// the cell's six toroidal neighbours. `round` rotates which neighbour pairs get
/// combined.
pub fn chi3(state: &Cube, i: usize, round: u32) -> (r: u8)
    requires
        i < CELLS,
    ensures
        r == chi3_spec(state@, i as int, round),
{
    let nbrs = neighbors6(i);
    let r: usize = (round % 3) as usize;
    proof {
        lemma_taps_in_cube(i as int, round);
        assert(in_cube(tap_spec(i as int, round, 0)));
        assert(in_cube(tap_spec(i as int, round, 1)));
        assert(in_cube(tap_spec(i as int, round, 2)));
        assert(in_cube(tap_spec(i as int, round, 3)));
        assert(in_cube(tap_spec(i as int, round, 4)));
        assert(in_cube(tap_spec(i as int, round, 5)));
    }
    let a: usize = nbrs[(r % 2) % 6];
    let b: usize = nbrs[(1 + r) % 6];
    let c: usize = nbrs[(2 + r % 2) % 6];
    let d: usize = nbrs[(3 + r) % 6];
    let e: usize = nbrs[(4 + r % 2) % 6];
    let f: usize = nbrs[(5 + r) % 6];
    (!state[a] & state[b]) ^ (!state[c] & state[d]) ^ (!state[e] & state[f])
}

/// Round constant schedule: cheap, distinct per round, and what breaks the
/// period-3 self-similarity of the neighbour-pair rotation.
pub fn round_constant(round: u32) -> (r: u8)
    ensures
        r == round_constant_spec(round),
{
    let mut x: u32 = round.wrapping_mul(0x9E37_79B1) ^ 0xA5A5_A5A5;
    x = x ^ (x >> 15);
    x = x.wrapping_mul(0x85EB_CA6B);
    x = x ^ (x >> 13);
    (x & 0xFF) as u8
}

/// Rotate a byte left by `r` bits.
fn rotate_left8(x: u8, r: u32) -> (out: u8)
    requires
        r < 8,
    ensures
        out == rotl8(x, r),
{
    if r == 0 {
        x
    } else {
        (x << r) | (x >> (8 - r))
    }
}

/// Rotate a byte right by `r` bits.
fn rotate_right8(x: u8, r: u32) -> (out: u8)
    requires
        r < 8,
    ensures
        out == rotr8(x, r),
{
    if r == 0 {
        x
    } else {
        (x >> r) | (x << (8 - r))
    }
}

/// RHO: rotate each cell's byte left by its offset. Couples the bit-planes.
pub fn rho(state: &Cube) -> (out: Cube)
    ensures
        out@ == rho_spec(state@),
{
    let mut out: Cube = [0u8; 512];
    let mut i: usize = 0;
    while i < CELLS
        invariant
            i <= 512,
            forall|j: int| 0 <= j < i ==> #[trigger] out@[j] == rotl8(state@[j], rho_offset_spec(j) as u32),
        decreases 512 - i,
    {
        out[i] = rotate_left8(state[i], rho_offset(i));
        i = i + 1;
    }
    assert(out@ =~= rho_spec(state@));
    out
}

/// Inverse of RHO: rotate each cell's byte right by its offset.
pub fn rho_inv(state: &Cube) -> (out: Cube)
    ensures
        out@ == rho_inv_spec(state@),
{
    let mut out: Cube = [0u8; 512];
    let mut i: usize = 0;
    while i < CELLS
        invariant
            i <= 512,
            forall|j: int| 0 <= j < i ==> #[trigger] out@[j] == rotr8(state@[j], rho_offset_spec(j) as u32),
        decreases 512 - i,
    {
        out[i] = rotate_right8(state[i], rho_offset(i));
        i = i + 1;
    }
    assert(out@ =~= rho_inv_spec(state@));
    out
}

/// PI: move the byte of each cell i to cell pi_map(i).
pub fn pi(state: &Cube) -> (out: Cube)
    ensures
        out@ == pi_spec(state@),
{
    let mut out: Cube = [0u8; 512];
    let mut i: usize = 0;
    while i < CELLS
        invariant
            i <= 512,
            forall|j: int| 0 <= j < i ==> #[trigger] out@[pi_map_spec(j)] == state@[j],
        decreases 512 - i,
    {
        let target: usize = pi_map(i);
        proof {
            lemma_pi_unmap_map(i as int);
            assert forall|j: int| 0 <= j < i implies #[trigger] pi_map_spec(j) != target && in_cube(
                pi_map_spec(j),
            ) by {
                lemma_pi_unmap_map(j);
            }
        }
        out[target] = state[i];
        i = i + 1;
    }
    assert forall|k: int| in_cube(k) implies #[trigger] out@[k] == pi_spec(state@)[k] by {
        lemma_pi_map_unmap(k);
        let j = pi_unmap_spec(k);
        assert(out@[pi_map_spec(j)] == state@[j]);
    }
    assert(out@ =~= pi_spec(state@));
    out
}

/// Inverse of PI: cell i takes back the byte that pi moved to pi_map(i).
pub fn pi_inv(state: &Cube) -> (out: Cube)
    ensures
        out@ == pi_inv_spec(state@),
{
    let mut out: Cube = [0u8; 512];
    let mut i: usize = 0;
    while i < CELLS
        invariant
            i <= 512,
            forall|j: int| 0 <= j < i ==> #[trigger] out@[j] == state@[pi_map_spec(j)],
        decreases 512 - i,
    {
        let source: usize = pi_map(i);
        proof {
            lemma_pi_unmap_map(i as int);
        }
        out[i] = state[source];
        i = i + 1;
    }
    assert(out@ =~= pi_inv_spec(state@));
    out
}

/// The Feistel half of a round, with constant injection optionally disabled
/// (disabling it only serves to show why the constant is load-bearing).
///
///   1. A1[i]  = A0[i] XOR chi3(B0, i)    for every colour-A cell i
///   2. A1c    = A1, with round_constant XORed into cell 0 only
///   3. B1[i]  = B0[i] XOR chi3(A1c, i)   for every colour-B cell i
pub fn feistel_variant(state: &Cube, round: u32, use_constant: bool) -> (out: Cube)
    ensures
        out@ == feistel_spec(state@, round, use_constant),
{
    let mut out: Cube = *state;
    let mut i: usize = 0;
    while i < CELLS
        invariant
            i <= 512,
            forall|j: int|
                0 <= j < i ==> #[trigger] out@[j] == (if color_spec(j) == 0 {
                    state@[j] ^ chi3_spec(state@, j, round)
                } else {
                    state@[j]
                }),
            forall|j: int| i <= j < 512 ==> #[trigger] out@[j] == state@[j],
        decreases 512 - i,
    {
        if color(i) == 0 {
            out[i] = state[i] ^ chi3(state, i, round);
        }
        i = i + 1;
    }
    if use_constant {
        out[0] = out[0] ^ round_constant(round);  // cell 0 is colour A
    }
    proof {
        lemma_color_zero();
    }
    let a1c_snapshot: Cube = out;
    assert(a1c_snapshot@ =~= feistel_a_spec(state@, round, use_constant));
    let mut i: usize = 0;
    while i < CELLS
        invariant
            i <= 512,
            a1c_snapshot@ == feistel_a_spec(state@, round, use_constant),
            forall|j: int|
                0 <= j < i ==> #[trigger] out@[j] == (if color_spec(j) == 1 {
                    state@[j] ^ chi3_spec(a1c_snapshot@, j, round)
                } else {
                    a1c_snapshot@[j]
                }),
            forall|j: int| i <= j < 512 ==> #[trigger] out@[j] == a1c_snapshot@[j],
        decreases 512 - i,
    {
        if color(i) == 1 {
            out[i] = state[i] ^ chi3(&a1c_snapshot, i, round);
        }
        i = i + 1;
    }
    assert(out@ =~= feistel_spec(state@, round, use_constant));
    out
}

/// Exact inverse of feistel_variant(_, round, true).
pub fn feistel_inverse(state: &Cube, round: u32) -> (out: Cube)
    ensures
        out@ == feistel_inverse_spec(state@, round),
{
    let mut cur: Cube = *state;  // colour-A cells hold A1c, colour-B cells hold B1
    let a1c_snapshot: Cube = cur;
    let mut i: usize = 0;
    while i < CELLS
        invariant
            i <= 512,
            a1c_snapshot@ == state@,
            forall|j: int|
                0 <= j < i ==> #[trigger] cur@[j] == (if color_spec(j) == 1 {
                    state@[j] ^ chi3_spec(state@, j, round)
                } else {
                    state@[j]
                }),
            forall|j: int| i <= j < 512 ==> #[trigger] cur@[j] == state@[j],
        decreases 512 - i,
    {
        if color(i) == 1 {
            cur[i] = state[i] ^ chi3(&a1c_snapshot, i, round);  // recover B0
        }
        i = i + 1;
    }
    proof {
        lemma_color_zero();
    }
    cur[0] = cur[0] ^ round_constant(round);  // colour-A cells now hold A1
    let b0_snapshot: Cube = cur;
    assert(b0_snapshot@ =~= feistel_inverse_b_spec(state@, round));
    let mut i: usize = 0;
    while i < CELLS
        invariant
            i <= 512,
            b0_snapshot@ == feistel_inverse_b_spec(state@, round),
            forall|j: int|
                0 <= j < i ==> #[trigger] cur@[j] == (if color_spec(j) == 0 {
                    b0_snapshot@[j] ^ chi3_spec(b0_snapshot@, j, round)
                } else {
                    b0_snapshot@[j]
                }),
            forall|j: int| i <= j < 512 ==> #[trigger] cur@[j] == b0_snapshot@[j],
        decreases 512 - i,
    {
        if color(i) == 0 {
            cur[i] = cur[i] ^ chi3(&b0_snapshot, i, round);  // recover A0
        }
        i = i + 1;
    }
    assert(cur@ =~= feistel_inverse_spec(state@, round));
    cur
}

/// Full round: feistel, then rho, then pi.
pub fn round_forward_variant(state: &Cube, round: u32, use_constant: bool) -> (out: Cube)
    ensures
        out@ == round_spec(state@, round, use_constant),
{
    let s = feistel_variant(state, round, use_constant);
    let s = rho(&s);
    pi(&s)
}

/// Full round with its round constant.
pub fn round_forward(state: &Cube, round: u32) -> (out: Cube)
    ensures
        out@ == round_spec(state@, round, true),
{
    round_forward_variant(state, round, true)
}

/// Full round inverse: pi_inv, then rho_inv, then feistel_inverse.
pub fn round_inverse(state: &Cube, round: u32) -> (out: Cube)
    ensures
        out@ == round_inverse_spec(state@, round),
{
    let s = pi_inv(state);
    let s = rho_inv(&s);
    feistel_inverse(&s, round)
}

/// Reduced-round permutation: rounds 0, 1, ..., rounds-1 in order.
pub fn permute_r(state: &Cube, rounds: u32) -> (out: Cube)
    ensures
        out@ == permute_r_spec(state@, rounds as nat),
{
    let mut s: Cube = *state;
    let mut r: u32 = 0;
    while r < rounds
        invariant
            r <= rounds,
            s@ == permute_r_spec(state@, r as nat),
        decreases rounds - r,
    {
        s = round_forward(&s, r);
        r = r + 1;
    }
    s
}

/// Inverse of the reduced-round permutation: inverse rounds rounds-1, ..., 0.
pub fn permute_inverse_r(state: &Cube, rounds: u32) -> (out: Cube)
    ensures
        out@ == permute_inverse_r_spec(state@, rounds as nat),
{
    let mut s: Cube = *state;
    let mut r: u32 = rounds;
    while r > 0
        invariant
            permute_inverse_r_spec(s@, r as nat) == permute_inverse_r_spec(state@, rounds as nat),
        decreases r,
    {
        r = r - 1;
        s = round_inverse(&s, r);
    }
    s
}

/// The full permutation: permute_r(state, ROUNDS).
pub fn permute(state: &Cube) -> (out: Cube)
    ensures
        out@ == permute_spec(state@),
{
    permute_r(state, ROUNDS)
}

/// The full inverse permutation: permute_inverse_r(state, ROUNDS).
pub fn permute_inverse(state: &Cube) -> (out: Cube)
    ensures
        out@ == permute_inverse_spec(state@),
{
    permute_inverse_r(state, ROUNDS)
}

} // verus!
