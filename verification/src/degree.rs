//! Numeric mapping: upper bounds on the algebraic degree of every state bit in a
//! chosen set of nonce variables, propagated round by round.
//!
//! Propagation rules, mirroring the round function step by step:
//!   NOT   : deg(!x)   = deg(x)
//!   XOR   : deg(a^b) <= max(deg a, deg b)
//!   AND   : deg(a&b) <= deg(a) + deg(b)
//!   chi3  : deg(out) <= max(da+db, dc+dd, de+df), capped at `cap`
//!   rho   : degrees rotate with the bits of each cell
//!   pi    : degrees move with the cells
//!   the round constant has degree 0 and leaves the bound unchanged.
//!
//! The bounds are proved sound: two states that agree where the bound is 0 keep
//! agreeing there through the rounds, and every bound below the cap bounds the
//! algebraic degree (as defined in `algebraic_degree`) of its state bit.
use vstd::prelude::*;
use crate::geometry::{
    color, color_spec, in_cube,
    lemma_pi_map_unmap, lemma_pi_unmap_map, lemma_rho_offset_bound, neighbors6, pi_map,
    pi_map_spec, pi_unmap_spec, rho_offset, rho_offset_spec, CELLS,
};
use crate::algebraic_degree::{
    and_fn, const_fn, deg_below, lemma_agree_deg, lemma_and_deg, lemma_const_deg, lemma_deg_mono_to, lemma_xor_deg,
    nonce_bits, xor_fn, NonceFn,
};
use crate::permutation::{
    chi3_spec, feistel_a_spec, feistel_spec, lemma_permute_r_len, lemma_taps_in_cube, permute_r_spec, pi_spec,
    rho_spec, rotl8, round_constant_spec, tap_spec,
};

verus! {

/// Number of state bits.
pub const BITS: usize = 4096;

/// Largest degree value the propagation accepts, so that the sum of two
/// degrees always fits in a u32.
pub const DEG_LIMIT: u32 = 0x7FFF_FFFF;

// ---------------------------------------------------------------------------
// Mathematical model
// ---------------------------------------------------------------------------

/// Index of bit `bit` of cell `cell` in a degree vector.
pub open spec fn bidx_spec(cell: int, bit: int) -> int {
    cell * 8 + bit
}

/// A degree vector: one entry per state bit, none above DEG_LIMIT.
pub open spec fn deg_wf(d: Seq<u32>) -> bool {
    d.len() == 4096 && forall|b: int| 0 <= b < 4096 ==> #[trigger] d[b] <= 0x7FFF_FFFF
}

/// A degree table covering at least every state bit, none of the first 4096
/// entries above DEG_LIMIT.
pub open spec fn deg_covers(d: Seq<u32>) -> bool {
    d.len() >= 4096 && forall|b: int| 0 <= b < 4096 ==> #[trigger] d[b] <= 0x7FFF_FFFF
}

/// Larger of two integers.
pub open spec fn imax(a: int, b: int) -> int {
    if a >= b { a } else { b }
}

/// Smaller of two integers.
pub open spec fn imin(a: int, b: int) -> int {
    if a <= b { a } else { b }
}

/// Degree bound of bit `k` of chi3's output at cell `i`.
pub open spec fn chi3_deg_spec(d: Seq<u32>, i: int, round: u32, cap: u32, k: int) -> int {
    let t1 = d[bidx_spec(tap_spec(i, round, 0), k)] + d[bidx_spec(tap_spec(i, round, 1), k)];
    let t2 = d[bidx_spec(tap_spec(i, round, 2), k)] + d[bidx_spec(tap_spec(i, round, 3), k)];
    let t3 = d[bidx_spec(tap_spec(i, round, 4), k)] + d[bidx_spec(tap_spec(i, round, 5), k)];
    imin(imax(imax(t1, t2), t3), cap as int)
}

/// Degree bounds after the first Feistel half: A' = A ^ chi3(B).
pub open spec fn feistel_deg_a_spec(d: Seq<u32>, round: u32, cap: u32) -> Seq<u32> {
    Seq::new(
        4096,
        |b: int|
            if color_spec(b / 8) == 0 {
                imax(d[b] as int, chi3_deg_spec(d, b / 8, round, cap, b % 8)) as u32
            } else {
                d[b]
            },
    )
}

/// Degree bounds after the Feistel step: B' = B ^ chi3(A').
pub open spec fn feistel_deg_spec(d: Seq<u32>, round: u32, cap: u32) -> Seq<u32> {
    let a1 = feistel_deg_a_spec(d, round, cap);
    Seq::new(
        4096,
        |b: int|
            if color_spec(b / 8) == 1 {
                imax(d[b] as int, chi3_deg_spec(a1, b / 8, round, cap, b % 8)) as u32
            } else {
                a1[b]
            },
    )
}

/// Degree bounds after rho: output bit k of cell i is input bit (k - r) mod 8.
pub open spec fn rho_deg_spec(d: Seq<u32>) -> Seq<u32> {
    Seq::new(
        4096,
        |b: int| d[bidx_spec(b / 8, (b % 8 + 8 - rho_offset_spec(b / 8)) % 8)],
    )
}

/// Degree bounds after pi: the degrees move with the cells.
pub open spec fn pi_deg_spec(d: Seq<u32>) -> Seq<u32> {
    Seq::new(4096, |b: int| d[bidx_spec(pi_unmap_spec(b / 8), b % 8)])
}

/// Degree bounds after one round.
pub open spec fn round_deg_spec(d: Seq<u32>, round: u32, cap: u32) -> Seq<u32> {
    pi_deg_spec(rho_deg_spec(feistel_deg_spec(d, round, cap)))
}

/// Degree bounds after rounds 0, 1, ..., n-1.
pub open spec fn rounds_deg_spec(d: Seq<u32>, n: nat, cap: u32) -> Seq<u32>
    decreases n,
{
    if n == 0 {
        d
    } else {
        round_deg_spec(rounds_deg_spec(d, (n - 1) as nat, cap), (n - 1) as u32, cap)
    }
}

/// The state bit that nonce bit `v` is loaded into: nonce byte v/8 sits in rate
/// cell 16 + v/8, after the 16 key bytes.
pub open spec fn nonce_var_bit(rate: Seq<usize>, v: int) -> int {
    bidx_spec(rate[16 + v / 8] as int, v % 8)
}

/// Initial degrees: 1 for every chosen nonce variable, 0 everywhere else.
pub open spec fn init_deg_spec(vars: Seq<usize>, rate: Seq<usize>) -> Seq<u32> {
    Seq::new(
        4096,
        |b: int|
            if exists|t: int| 0 <= t < vars.len() && nonce_var_bit(rate, vars[t] as int) == b {
                1u32
            } else {
                0u32
            },
    )
}

/// Every chosen variable addresses a nonce byte inside the rate, and the rate
/// cells it uses are cells of the cube.
pub open spec fn vars_in_rate(vars: Seq<usize>, rate: Seq<usize>) -> bool {
    forall|t: int|
        0 <= t < vars.len() ==> 16 + #[trigger] vars[t] / 8 < rate.len() && rate[16 + vars[t]
            / 8] < 512
}

/// The propagated degree bounds of every state bit after `rounds` rounds.
pub open spec fn propagate_spec(vars: Seq<usize>, rounds: nat, rate: Seq<usize>, cap: u32) -> Seq<
    u32,
> {
    rounds_deg_spec(init_deg_spec(vars, rate), rounds, cap)
}

// ---------------------------------------------------------------------------
// Lemmas
// ---------------------------------------------------------------------------

/// A bit index splits into its cell and its bit within the cell.
pub proof fn lemma_bidx_split(b: int)
    requires
        0 <= b < 4096,
    ensures
        0 <= b / 8 < 512,
        0 <= b % 8 < 8,
        bidx_spec(b / 8, b % 8) == b,
{
    vstd::arithmetic::div_mod::lemma_fundamental_div_mod(b, 8);
}

/// A cell and a bit within it give back themselves through the bit index.
proof fn lemma_bidx_join(cell: int, bit: int)
    requires
        0 <= cell < 512,
        0 <= bit < 8,
    ensures
        0 <= bidx_spec(cell, bit) < 4096,
        bidx_spec(cell, bit) / 8 == cell,
        bidx_spec(cell, bit) % 8 == bit,
{
    vstd::arithmetic::div_mod::lemma_fundamental_div_mod_converse(bidx_spec(cell, bit), 8, cell, bit);
}

/// Every bound the propagation produces is capped: the chi3 bound never exceeds `cap`.
pub proof fn lemma_chi3_deg_capped(d: Seq<u32>, i: int, round: u32, cap: u32, k: int)
    ensures
        chi3_deg_spec(d, i, round, cap, k) <= cap,
{
}

/// The degree bound of a chi3 product pair: the bounds of its two taps at plane k
/// added (pair 0 is taps 0 and 1, pair 1 taps 2 and 3, pair 2 taps 4 and 5).
pub open spec fn pair_bound(d: Seq<u32>, i: int, round: u32, k: int, j: int) -> int {
    d[bidx_spec(tap_spec(i, round, 2 * j), k)] + d[bidx_spec(tap_spec(i, round, 2 * j + 1), k)]
}

/// chi3's bound is the AND rule over its three products followed by the XOR
/// rule, capped: it is the least value that is at least every pair bound (or
/// the cap), and it never exceeds the cap. So it is one of the three pair
/// bounds or the cap, never looser than the largest pair bound, in every round.
pub proof fn lemma_chi3_deg_is_max_pair(d: Seq<u32>, i: int, round: u32, cap: u32, k: int)
    ensures
        chi3_deg_spec(d, i, round, cap, k) <= cap,
        forall|j: int| 0 <= j < 3 ==> chi3_deg_spec(d, i, round, cap, k) >= imin(#[trigger] pair_bound(d, i, round, k, j), cap as int),
        chi3_deg_spec(d, i, round, cap, k) == cap || chi3_deg_spec(d, i, round, cap, k) == pair_bound(d, i, round, k, 0)
            || chi3_deg_spec(d, i, round, cap, k) == pair_bound(d, i, round, k, 1)
            || chi3_deg_spec(d, i, round, cap, k) == pair_bound(d, i, round, k, 2),
        exists|j: int| 0 <= j < 3 && chi3_deg_spec(d, i, round, cap, k) <= #[trigger] pair_bound(d, i, round, k, j),
{
    assert(pair_bound(d, i, round, k, 0) == d[bidx_spec(tap_spec(i, round, 0), k)] + d[bidx_spec(tap_spec(i, round, 1), k)]);
    assert(pair_bound(d, i, round, k, 1) == d[bidx_spec(tap_spec(i, round, 2), k)] + d[bidx_spec(tap_spec(i, round, 3), k)]);
    assert(pair_bound(d, i, round, k, 2) == d[bidx_spec(tap_spec(i, round, 4), k)] + d[bidx_spec(tap_spec(i, round, 5), k)]);
    let m = chi3_deg_spec(d, i, round, cap, k);
    if m <= pair_bound(d, i, round, k, 0) {
    } else if m <= pair_bound(d, i, round, k, 1) {
    } else {
        assert(m <= pair_bound(d, i, round, k, 2));
    }
}

/// A round keeps a degree vector well formed when the cap is within the limit.
pub proof fn lemma_round_deg_wf(d: Seq<u32>, round: u32, cap: u32)
    requires
        deg_wf(d),
        cap <= 0x7FFF_FFFF,
    ensures
        deg_wf(feistel_deg_a_spec(d, round, cap)),
        deg_wf(feistel_deg_spec(d, round, cap)),
        deg_wf(round_deg_spec(d, round, cap)),
{
    let f = feistel_deg_spec(d, round, cap);
    assert forall|b: int| 0 <= b < 4096 implies #[trigger] rho_deg_spec(f)[b] <= 0x7FFF_FFFF by {
        lemma_bidx_split(b);
        lemma_rho_offset_bound(b / 8);
        lemma_bidx_join(b / 8, (b % 8 + 8 - rho_offset_spec(b / 8)) % 8);
    }
    let r = rho_deg_spec(f);
    assert forall|b: int| 0 <= b < 4096 implies #[trigger] pi_deg_spec(r)[b] <= 0x7FFF_FFFF by {
        lemma_bidx_split(b);
        lemma_pi_map_unmap(b / 8);
        lemma_bidx_join(pi_unmap_spec(b / 8), b % 8);
    }
}

/// The propagation keeps degree vectors well formed.
pub proof fn lemma_rounds_deg_wf(d: Seq<u32>, n: nat, cap: u32)
    requires
        deg_wf(d),
        cap <= 0x7FFF_FFFF,
    ensures
        deg_wf(rounds_deg_spec(d, n, cap)),
    decreases n,
{
    if n > 0 {
        lemma_rounds_deg_wf(d, (n - 1) as nat, cap);
        lemma_round_deg_wf(rounds_deg_spec(d, (n - 1) as nat, cap), (n - 1) as u32, cap);
    }
}

/// 4 to the power n.
pub open spec fn pow4(n: nat) -> nat
    decreases n,
{
    if n == 0 {
        1
    } else {
        4 * pow4((n - 1) as nat)
    }
}

/// The chi3 bound at a cell is at most twice the largest input degree.
proof fn lemma_chi3_deg_growth(d: Seq<u32>, i: int, round: u32, cap: u32, k: int, m: int)
    requires
        d.len() == 4096,
        forall|b: int| 0 <= b < 4096 ==> #[trigger] d[b] <= m,
        in_cube(i),
        0 <= k < 8,
    ensures
        chi3_deg_spec(d, i, round, cap, k) <= 2 * m,
{
    lemma_taps_in_cube(i, round);
    assert forall|t: int| 0 <= t < 6 implies 0 <= #[trigger] bidx_spec(tap_spec(i, round, t), k) < 4096 by {
        assert(in_cube(tap_spec(i, round, t)));
        lemma_bidx_join(tap_spec(i, round, t), k);
    }
    assert(0 <= bidx_spec(tap_spec(i, round, 0), k) < 4096);
    assert(0 <= bidx_spec(tap_spec(i, round, 1), k) < 4096);
    assert(0 <= bidx_spec(tap_spec(i, round, 2), k) < 4096);
    assert(0 <= bidx_spec(tap_spec(i, round, 3), k) < 4096);
    assert(0 <= bidx_spec(tap_spec(i, round, 4), k) < 4096);
    assert(0 <= bidx_spec(tap_spec(i, round, 5), k) < 4096);
}

/// One round at most quadruples the largest degree: each Feistel half can at
/// most double it (an AND adds two degrees), and rho and pi only move degrees.
pub proof fn lemma_round_deg_growth(d: Seq<u32>, round: u32, cap: u32, m: int)
    requires
        deg_wf(d),
        cap <= 0x7FFF_FFFF,
        m >= 0,
        forall|b: int| 0 <= b < 4096 ==> #[trigger] d[b] <= m,
    ensures
        forall|b: int| 0 <= b < 4096 ==> #[trigger] round_deg_spec(d, round, cap)[b] <= 4 * m,
{
    lemma_round_deg_wf(d, round, cap);
    let a1 = feistel_deg_a_spec(d, round, cap);
    assert forall|b: int| 0 <= b < 4096 implies #[trigger] a1[b] <= 2 * m by {
        lemma_bidx_split(b);
        lemma_chi3_deg_growth(d, b / 8, round, cap, b % 8, m);
    }
    let f = feistel_deg_spec(d, round, cap);
    assert forall|b: int| 0 <= b < 4096 implies #[trigger] f[b] <= 4 * m by {
        lemma_bidx_split(b);
        lemma_chi3_deg_growth(a1, b / 8, round, cap, b % 8, 2 * m);
    }
    let r = rho_deg_spec(f);
    assert forall|b: int| 0 <= b < 4096 implies #[trigger] r[b] <= 4 * m by {
        lemma_bidx_split(b);
        lemma_rho_offset_bound(b / 8);
        lemma_bidx_join(b / 8, (b % 8 + 8 - rho_offset_spec(b / 8)) % 8);
    }
    assert forall|b: int| 0 <= b < 4096 implies #[trigger] pi_deg_spec(r)[b] <= 4 * m by {
        lemma_bidx_split(b);
        lemma_pi_map_unmap(b / 8);
        lemma_bidx_join(pi_unmap_spec(b / 8), b % 8);
    }
}

/// Starting from degrees at most 1, after n rounds every degree is at most 4^n.
pub proof fn lemma_rounds_deg_growth(d: Seq<u32>, n: nat, cap: u32)
    requires
        deg_wf(d),
        cap <= 0x7FFF_FFFF,
        forall|b: int| 0 <= b < 4096 ==> #[trigger] d[b] <= 1,
    ensures
        forall|b: int| 0 <= b < 4096 ==> #[trigger] rounds_deg_spec(d, n, cap)[b] <= pow4(n),
    decreases n,
{
    if n > 0 {
        lemma_rounds_deg_growth(d, (n - 1) as nat, cap);
        lemma_rounds_deg_wf(d, (n - 1) as nat, cap);
        lemma_round_deg_growth(rounds_deg_spec(d, (n - 1) as nat, cap), (n - 1) as u32, cap, pow4((n - 1) as nat) as int);
    }
}

/// Degree bounds where the cells of colour `c` take max(d, chi3 bound over `src`)
/// and every other entry keeps its value in `out0`.
pub open spec fn half_deg_spec(out0: Seq<u32>, d: Seq<u32>, src: Seq<u32>, round: u32, cap: u32, c: int) -> Seq<u32> {
    Seq::new(
        4096,
        |b: int|
            if color_spec(b / 8) == c {
                imax(d[b] as int, chi3_deg_spec(src, b / 8, round, cap, b % 8)) as u32
            } else {
                out0[b]
            },
    )
}

// ---------------------------------------------------------------------------
// Executable propagation
// ---------------------------------------------------------------------------

/// Index of bit `bit` of cell `cell`.
pub fn bidx(cell: usize, bit: usize) -> (r: usize)
    requires
        cell * 8 + bit <= usize::MAX,
    ensures
        r == bidx_spec(cell as int, bit as int),
{
    cell * 8 + bit
}

/// Degree bound of chi3's 8 output bits at cell i.
pub fn chi3_deg(d: &Vec<u32>, i: usize, round: u32, cap: u32) -> (out: [u32; 8])
    requires
        deg_covers(d@),
        i < CELLS,
    ensures
        forall|k: int| 0 <= k < 8 ==> #[trigger] out[k] == chi3_deg_spec(d@, i as int, round, cap, k),
{
    let nbrs = neighbors6(i);
    let r: usize = (round % 3) as usize;
    proof {
        lemma_taps_in_cube(i as int, round);
        assert(in_cube(tap_spec(i as int, round, 0)));
        assert(in_cube(tap_spec(i as int, round, 1)));
        assert(in_cube(tap_spec(i as int, round, 2)));
        assert(in_cube(tap_spec(i as int, round, 3)));
        assert(in_cube(tap_spec(i as int, round, 4)));
        assert(in_cube(tap_spec(i as int, round, 5)));
    }
    let a: usize = nbrs[(r % 2) % 6];
    let b: usize = nbrs[(1 + r) % 6];
    let c: usize = nbrs[(2 + r % 2) % 6];
    let dd: usize = nbrs[(3 + r) % 6];
    let e: usize = nbrs[(4 + r % 2) % 6];
    let f: usize = nbrs[(5 + r) % 6];
    let mut out: [u32; 8] = [0u32; 8];
    let mut k: usize = 0;
    while k < 8
        invariant
            deg_covers(d@),
            k <= 8,
            a == tap_spec(i as int, round, 0),
            b == tap_spec(i as int, round, 1),
            c == tap_spec(i as int, round, 2),
            dd == tap_spec(i as int, round, 3),
            e == tap_spec(i as int, round, 4),
            f == tap_spec(i as int, round, 5),
            a < 512 && b < 512 && c < 512 && dd < 512 && e < 512 && f < 512,
            forall|j: int| 0 <= j < k ==> #[trigger] out[j] == chi3_deg_spec(d@, i as int, round, cap, j),
        decreases 8 - k,
    {
        let t1: u32 = d[bidx(a, k)] + d[bidx(b, k)];
        let t2: u32 = d[bidx(c, k)] + d[bidx(dd, k)];
        let t3: u32 = d[bidx(e, k)] + d[bidx(f, k)];
        let m12: u32 = if t1 >= t2 { t1 } else { t2 };
        let m: u32 = if m12 >= t3 { m12 } else { t3 };
        out[k] = if m <= cap { m } else { cap };
        k = k + 1;
    }
    out
}

/// Update the cells of colour `c`: out[b] = max(d[b], chi3 bound over `src`).
fn update_half_deg(out: &mut Vec<u32>, d: &Vec<u32>, src: &Vec<u32>, round: u32, cap: u32, c: u8)
    requires
        deg_wf(d@),
        deg_wf(src@),
        old(out)@.len() == 4096,
    ensures
        final(out)@ == half_deg_spec(old(out)@, d@, src@, round, cap, c as int),
{
    let ghost out0 = out@;
    let mut i: usize = 0;
    while i < CELLS
        invariant
            deg_wf(d@),
            deg_wf(src@),
            out0.len() == 4096,
            i <= 512,
            out@.len() == 4096,
            forall|b: int|
                0 <= b < 8 * i ==> #[trigger] out@[b] == half_deg_spec(out0, d@, src@, round, cap, c as int)[b],
            forall|b: int| 8 * i <= b < 4096 ==> #[trigger] out@[b] == out0[b],
        decreases 512 - i,
    {
        if color(i) == c {
            let cd = chi3_deg(src, i, round, cap);
            let mut k: usize = 0;
            while k < 8
                invariant
                    deg_wf(d@),
                    deg_wf(src@),
                    out0.len() == 4096,
                    i < 512,
                    color_spec(i as int) == c,
                    k <= 8,
                    out@.len() == 4096,
                    forall|j: int| 0 <= j < 8 ==> #[trigger] cd[j] == chi3_deg_spec(src@, i as int, round, cap, j),
                    forall|b: int|
                        0 <= b < 8 * i + k ==> #[trigger] out@[b] == half_deg_spec(out0, d@, src@, round, cap, c as int)[b],
                    forall|b: int| 8 * i + k <= b < 4096 ==> #[trigger] out@[b] == out0[b],
                decreases 8 - k,
            {
                let bi: usize = bidx(i, k);
                proof {
                    lemma_bidx_join(i as int, k as int);
                }
                let v: u32 = if d[bi] >= cd[k] { d[bi] } else { cd[k] };
                out.set(bi, v);
                k = k + 1;
            }
        } else {
            proof {
                assert forall|b: int| 8 * i <= b < 8 * i + 8 implies #[trigger] out@[b] == half_deg_spec(out0, d@, src@, round, cap, c as int)[b] by {
                    lemma_bidx_split(b);
                }
            }
        }
        i = i + 1;
    }
}

/// Feistel degree propagation, mirroring feistel_variant step by step.
pub fn feistel_deg(d: &Vec<u32>, round: u32, cap: u32) -> (out: Vec<u32>)
    requires
        deg_wf(d@),
        cap <= DEG_LIMIT,
    ensures
        out@ == feistel_deg_spec(d@, round, cap),
{
    let mut out: Vec<u32> = d.clone();
    assert(out@ =~= d@);
    // A' = A ^ chi3(B): chi3 at an A-cell reads only B-cells.
    update_half_deg(&mut out, d, d, round, cap, 0);
    assert(out@ =~= feistel_deg_a_spec(d@, round, cap));
    proof {
        lemma_round_deg_wf(d@, round, cap);
    }
    // The round constant has degree 0: no change to the bound.
    let a1: Vec<u32> = out.clone();
    assert(a1@ =~= out@);
    // B' = B ^ chi3(A'): chi3 at a B-cell reads only the updated A-cells.
    update_half_deg(&mut out, d, &a1, round, cap, 1);
    assert(out@ =~= feistel_deg_spec(d@, round, cap));
    out
}

/// rho rotates each byte left by its offset r: output bit k is input bit (k - r) mod 8.
pub fn rho_deg(d: &Vec<u32>) -> (out: Vec<u32>)
    requires
        d@.len() == 4096,
    ensures
        out@ == rho_deg_spec(d@),
{
    let mut out: Vec<u32> = vec![0u32; BITS];
    let mut i: usize = 0;
    while i < CELLS
        invariant
            d@.len() == 4096,
            i <= 512,
            out@.len() == 4096,
            forall|b: int| 0 <= b < 8 * i ==> #[trigger] out@[b] == rho_deg_spec(d@)[b],
        decreases 512 - i,
    {
        let r: usize = rho_offset(i) as usize;
        let mut k: usize = 0;
        while k < 8
            invariant
                d@.len() == 4096,
                i < 512,
                r == rho_offset_spec(i as int),
                r < 8,
                k <= 8,
                out@.len() == 4096,
                forall|b: int| 0 <= b < 8 * i + k ==> #[trigger] out@[b] == rho_deg_spec(d@)[b],
            decreases 8 - k,
        {
            let bi: usize = bidx(i, k);
            let src: usize = bidx(i, (k + 8 - r) % 8);
            proof {
                lemma_bidx_join(i as int, k as int);
                lemma_bidx_join(i as int, ((k + 8 - r) % 8) as int);
            }
            out.set(bi, d[src]);
            k = k + 1;
        }
        i = i + 1;
    }
    assert(out@ =~= rho_deg_spec(d@));
    out
}

/// pi moves the degrees with the cells: bit k of cell i goes to bit k of cell pi_map(i).
pub fn pi_deg(d: &Vec<u32>) -> (out: Vec<u32>)
    requires
        d@.len() == 4096,
    ensures
        out@ == pi_deg_spec(d@),
{
    let mut out: Vec<u32> = vec![0u32; BITS];
    let mut i: usize = 0;
    while i < CELLS
        invariant
            d@.len() == 4096,
            i <= 512,
            out@.len() == 4096,
            forall|j: int, k: int|
                0 <= j < i && 0 <= k < 8 ==> #[trigger] out@[bidx_spec(pi_map_spec(j), k)]
                    == d@[bidx_spec(j, k)],
        decreases 512 - i,
    {
        let target: usize = pi_map(i);
        proof {
            lemma_pi_unmap_map(i as int);
        }
        let mut k: usize = 0;
        while k < 8
            invariant
                d@.len() == 4096,
                i < 512,
                target == pi_map_spec(i as int),
                in_cube(target as int),
                pi_unmap_spec(target as int) == i,
                k <= 8,
                out@.len() == 4096,
                forall|j: int, k2: int|
                    0 <= j < i && 0 <= k2 < 8 ==> #[trigger] out@[bidx_spec(pi_map_spec(j), k2)]
                        == d@[bidx_spec(j, k2)],
                forall|k2: int| 0 <= k2 < k ==> #[trigger] out@[bidx_spec(target as int, k2)] == d@[bidx_spec(i as int, k2)],
            decreases 8 - k,
        {
            let bi: usize = bidx(target, k);
            proof {
                lemma_bidx_join(target as int, k as int);
                lemma_bidx_join(i as int, k as int);
                assert forall|j: int, k2: int| 0 <= j < i && 0 <= k2 < 8 implies #[trigger] bidx_spec(pi_map_spec(j), k2) != bi && 0 <= bidx_spec(pi_map_spec(j), k2) < 4096 by {
                    lemma_pi_unmap_map(j);
                    lemma_bidx_join(pi_map_spec(j), k2);
                }
                assert forall|k2: int| 0 <= k2 < k implies bidx_spec(target as int, k2) != bi by {
                    lemma_bidx_join(target as int, k2);
                }
            }
            out.set(bi, d[bidx(i, k)]);
            k = k + 1;
        }
        i = i + 1;
    }
    assert forall|b: int| 0 <= b < 4096 implies #[trigger] out@[b] == pi_deg_spec(d@)[b] by {
        lemma_bidx_split(b);
        lemma_pi_map_unmap(b / 8);
        let j = pi_unmap_spec(b / 8);
        assert(out@[bidx_spec(pi_map_spec(j), b % 8)] == d@[bidx_spec(j, b % 8)]);
    }
    assert(out@ =~= pi_deg_spec(d@));
    out
}

/// Degree bounds after one full round.
pub fn round_deg(d: &Vec<u32>, round: u32, cap: u32) -> (out: Vec<u32>)
    requires
        deg_wf(d@),
        cap <= DEG_LIMIT,
    ensures
        out@ == round_deg_spec(d@, round, cap),
        deg_wf(out@),
{
    proof {
        lemma_round_deg_wf(d@, round, cap);
    }
    let s = feistel_deg(d, round, cap);
    let s = rho_deg(&s);
    pi_deg(&s)
}

/// Degree bounds of every state bit after `rounds` rounds, with the nonce bits
/// in `vars` as the variables (degree 1) and everything else constant (degree 0).
pub fn propagate(vars: &[usize], rounds: u32, rate: &[usize], cap: u32) -> (d: Vec<u32>)
    requires
        vars_in_rate(vars@, rate@),
        cap <= DEG_LIMIT,
    ensures
        d@ == propagate_spec(vars@, rounds as nat, rate@, cap),
        deg_wf(d@),
        forall|b: int| 0 <= b < 4096 ==> #[trigger] d@[b] <= pow4(rounds as nat),
{
    let mut d: Vec<u32> = vec![0u32; BITS];
    let mut t: usize = 0;
    while t < vars.len()
        invariant
            vars_in_rate(vars@, rate@),
            t <= vars@.len(),
            d@.len() == 4096,
            forall|b: int|
                0 <= b < 4096 ==> #[trigger] d@[b] == (if exists|u: int|
                    0 <= u < t && nonce_var_bit(rate@, vars@[u] as int) == b {
                    1u32
                } else {
                    0u32
                }),
        decreases vars@.len() - t,
    {
        let vb: usize = vars[t];
        let cell: usize = rate[16 + vb / 8];
        let bi: usize = bidx(cell, vb % 8);
        proof {
            lemma_bidx_join(cell as int, (vb % 8) as int);
        }
        d.set(bi, 1);
        proof {
            assert forall|b: int| 0 <= b < 4096 implies #[trigger] d@[b] == (if exists|u: int|
                0 <= u < t + 1 && nonce_var_bit(rate@, vars@[u] as int) == b {
                1u32
            } else {
                0u32
            }) by {
                if b == bi {
                    assert(nonce_var_bit(rate@, vars@[t as int] as int) == b);
                } else {
                    if exists|u: int| 0 <= u < t + 1 && nonce_var_bit(rate@, vars@[u] as int) == b {
                        let u = choose|u: int| 0 <= u < t + 1 && nonce_var_bit(rate@, vars@[u] as int) == b;
                        assert(u < t);
                    }
                }
            }
        }
        t = t + 1;
    }
    assert(d@ =~= init_deg_spec(vars@, rate@));
    assert(deg_wf(d@));
    proof {
        lemma_rounds_deg_growth(d@, rounds as nat, cap);
    }
    let mut r: u32 = 0;
    while r < rounds
        invariant
            cap <= DEG_LIMIT,
            r <= rounds,
            d@ == rounds_deg_spec(init_deg_spec(vars@, rate@), r as nat, cap),
            deg_wf(d@),
        decreases rounds - r,
    {
        d = round_deg(&d, r, cap);
        r = r + 1;
    }
    d
}

// ---------------------------------------------------------------------------
// Soundness of the zero bounds
// ---------------------------------------------------------------------------

/// Bit `b` of a state: bit b % 8 of cell b / 8.
pub open spec fn state_bit(s: Seq<u8>, b: int) -> u8 {
    (s[b / 8] >> ((b % 8) as u8)) & 1u8
}

/// Two states agree on every bit whose degree bound is 0.
pub open spec fn agree_where_constant(d: Seq<u32>, s1: Seq<u8>, s2: Seq<u8>) -> bool {
    forall|b: int| 0 <= b < 4096 && d[b] == 0 ==> #[trigger] state_bit(s1, b) == state_bit(s2, b)
}

/// Bit k of chi3's combination, of an XOR and of a byte with one bit flipped,
/// in terms of bit k of the operands.
pub proof fn lemma_bit_exprs(a: u8, b: u8, c: u8, d: u8, e: u8, f: u8, k: u8, s: u8)
    by (bit_vector)
    requires
        k < 8,
        s < 8,
    ensures
        ((((!a) & b) ^ ((!c) & d) ^ ((!e) & f)) >> k) & 1 == ((((a >> k) & 1) ^ 1) & ((b >> k) & 1)) ^ ((((c
            >> k) & 1) ^ 1) & ((d >> k) & 1)) ^ ((((e >> k) & 1) ^ 1) & ((f >> k) & 1)),
        ((a ^ b) >> k) & 1 == ((a >> k) & 1) ^ ((b >> k) & 1),
        ((a ^ b ^ c) >> k) & 1 == ((a >> k) & 1) ^ ((b >> k) & 1) ^ ((c >> k) & 1),
        ((a ^ (1u8 << s)) >> k) & 1 == if s == k { ((a >> k) & 1) ^ 1 } else { (a >> k) & 1 },
        (a >> k) & 1 <= 1,
        a ^ 0 == a,
        a ^ a == 0,
        a ^ (a ^ 1) == 1,
{
}

/// Bit k of a byte rotated left by r is bit (k - r) mod 8 of the byte.
proof fn lemma_rotl_bit(x: u8, r: u32, k: u8)
    by (bit_vector)
    requires
        r < 8,
        k < 8,
    ensures
        (rotl8(x, r) >> k) & 1 == (x >> (((k as u32 + 8 - r) % 8) as u8)) & 1,
{
}

/// Bit k of chi3's combination at cell i, from bit k of the six taps.
proof fn lemma_chi3_bit(s: Seq<u8>, i: int, round: u32, k: int)
    requires
        0 <= k < 8,
    ensures
        (chi3_spec(s, i, round) >> (k as u8)) & 1u8 == ((((s[tap_spec(i, round, 0)] >> (k as u8)) & 1) ^ 1) & ((
            s[tap_spec(i, round, 1)] >> (k as u8)) & 1)) ^ ((((s[tap_spec(i, round, 2)] >> (k as u8)) & 1) ^ 1) & ((
            s[tap_spec(i, round, 3)] >> (k as u8)) & 1)) ^ ((((s[tap_spec(i, round, 4)] >> (k as u8)) & 1) ^ 1) & ((
            s[tap_spec(i, round, 5)] >> (k as u8)) & 1)),
{
    lemma_bit_exprs(s[tap_spec(i, round, 0)], s[tap_spec(i, round, 1)], s[tap_spec(i, round, 2)], s[tap_spec(i, round, 3)],
        s[tap_spec(i, round, 4)], s[tap_spec(i, round, 5)], k as u8, 0);
}

/// Bit k of cell i is bit bidx(i, k) of the state.
pub proof fn lemma_state_bit_cell(s: Seq<u8>, i: int, k: int)
    requires
        0 <= i < 512,
        0 <= k < 8,
    ensures
        0 <= bidx_spec(i, k) < 4096,
        state_bit(s, bidx_spec(i, k)) == (s[i] >> (k as u8)) & 1u8,
{
    lemma_bidx_join(i, k);
}

/// A cell's chi3 bound at plane k is 0 only when all six taps have bound 0 there
/// (the cap being at least 1), and then both states agree on chi3's bit k.
proof fn lemma_chi3_agree(d: Seq<u32>, s1: Seq<u8>, s2: Seq<u8>, i: int, round: u32, cap: u32, k: int)
    requires
        deg_wf(d),
        1 <= cap,
        s1.len() == 512,
        s2.len() == 512,
        agree_where_constant(d, s1, s2),
        0 <= i < 512,
        0 <= k < 8,
        chi3_deg_spec(d, i, round, cap, k) == 0,
    ensures
        (chi3_spec(s1, i, round) >> (k as u8)) & 1u8 == (chi3_spec(s2, i, round) >> (k as u8)) & 1u8,
{
    lemma_taps_in_cube(i, round);
    let t0 = tap_spec(i, round, 0);
    let t1 = tap_spec(i, round, 1);
    let t2 = tap_spec(i, round, 2);
    let t3 = tap_spec(i, round, 3);
    let t4 = tap_spec(i, round, 4);
    let t5 = tap_spec(i, round, 5);
    assert(in_cube(t0) && in_cube(t1) && in_cube(t2) && in_cube(t3) && in_cube(t4) && in_cube(t5));
    lemma_state_bit_cell(s1, t0, k);
    lemma_state_bit_cell(s2, t0, k);
    lemma_state_bit_cell(s1, t1, k);
    lemma_state_bit_cell(s2, t1, k);
    lemma_state_bit_cell(s1, t2, k);
    lemma_state_bit_cell(s2, t2, k);
    lemma_state_bit_cell(s1, t3, k);
    lemma_state_bit_cell(s2, t3, k);
    lemma_state_bit_cell(s1, t4, k);
    lemma_state_bit_cell(s2, t4, k);
    lemma_state_bit_cell(s1, t5, k);
    lemma_state_bit_cell(s2, t5, k);
    assert(d[bidx_spec(t0, k)] == 0 && d[bidx_spec(t1, k)] == 0);
    assert(d[bidx_spec(t2, k)] == 0 && d[bidx_spec(t3, k)] == 0);
    assert(d[bidx_spec(t4, k)] == 0 && d[bidx_spec(t5, k)] == 0);
    assert(state_bit(s1, bidx_spec(t0, k)) == state_bit(s2, bidx_spec(t0, k)));
    assert(state_bit(s1, bidx_spec(t1, k)) == state_bit(s2, bidx_spec(t1, k)));
    assert(state_bit(s1, bidx_spec(t2, k)) == state_bit(s2, bidx_spec(t2, k)));
    assert(state_bit(s1, bidx_spec(t3, k)) == state_bit(s2, bidx_spec(t3, k)));
    assert(state_bit(s1, bidx_spec(t4, k)) == state_bit(s2, bidx_spec(t4, k)));
    assert(state_bit(s1, bidx_spec(t5, k)) == state_bit(s2, bidx_spec(t5, k)));
    lemma_chi3_bit(s1, i, round, k);
    lemma_chi3_bit(s2, i, round, k);
}

/// The first Feistel half keeps the agreement on zero-bound bits.
proof fn lemma_feistel_a_agree(d: Seq<u32>, s1: Seq<u8>, s2: Seq<u8>, round: u32, cap: u32)
    requires
        deg_wf(d),
        1 <= cap <= DEG_LIMIT,
        s1.len() == 512,
        s2.len() == 512,
        agree_where_constant(d, s1, s2),
    ensures
        agree_where_constant(feistel_deg_a_spec(d, round, cap), feistel_a_spec(s1, round, true), feistel_a_spec(s2, round, true)),
{
    let d1 = feistel_deg_a_spec(d, round, cap);
    let a1 = feistel_a_spec(s1, round, true);
    let a2 = feistel_a_spec(s2, round, true);
    assert forall|b: int| 0 <= b < 4096 && d1[b] == 0 implies #[trigger] state_bit(a1, b) == state_bit(a2, b) by {
        lemma_bidx_split(b);
        let i = b / 8;
        let k = b % 8;
        lemma_chi3_deg_capped(d, i, round, cap, k);
        assert(d[b] == 0);
        assert(state_bit(s1, b) == state_bit(s2, b));
        lemma_state_bit_cell(s1, i, k);
        lemma_state_bit_cell(s2, i, k);
        lemma_state_bit_cell(a1, i, k);
        lemma_state_bit_cell(a2, i, k);
        if color_spec(i) == 0 {
            assert(chi3_deg_spec(d, i, round, cap, k) == 0);
            lemma_chi3_agree(d, s1, s2, i, round, cap, k);
            let c = round_constant_spec(round);
            lemma_bit_exprs(s1[i], chi3_spec(s1, i, round), c, 0, 0, 0, k as u8, 0);
            lemma_bit_exprs(s2[i], chi3_spec(s2, i, round), c, 0, 0, 0, k as u8, 0);
        }
    }
}

/// The whole Feistel step keeps the agreement on zero-bound bits.
proof fn lemma_feistel_agree(d: Seq<u32>, s1: Seq<u8>, s2: Seq<u8>, round: u32, cap: u32)
    requires
        deg_wf(d),
        1 <= cap <= DEG_LIMIT,
        s1.len() == 512,
        s2.len() == 512,
        agree_where_constant(d, s1, s2),
    ensures
        agree_where_constant(feistel_deg_spec(d, round, cap), feistel_spec(s1, round, true), feistel_spec(s2, round, true)),
{
    lemma_feistel_a_agree(d, s1, s2, round, cap);
    lemma_round_deg_wf(d, round, cap);
    let da = feistel_deg_a_spec(d, round, cap);
    let d1 = feistel_deg_spec(d, round, cap);
    let a1 = feistel_a_spec(s1, round, true);
    let a2 = feistel_a_spec(s2, round, true);
    let f1 = feistel_spec(s1, round, true);
    let f2 = feistel_spec(s2, round, true);
    assert forall|b: int| 0 <= b < 4096 && d1[b] == 0 implies #[trigger] state_bit(f1, b) == state_bit(f2, b) by {
        lemma_bidx_split(b);
        let i = b / 8;
        let k = b % 8;
        lemma_state_bit_cell(s1, i, k);
        lemma_state_bit_cell(s2, i, k);
        lemma_state_bit_cell(f1, i, k);
        lemma_state_bit_cell(f2, i, k);
        lemma_state_bit_cell(a1, i, k);
        lemma_state_bit_cell(a2, i, k);
        if color_spec(i) == 1 {
            lemma_chi3_deg_capped(da, i, round, cap, k);
            assert(d[b] == 0);
            assert(state_bit(s1, b) == state_bit(s2, b));
            assert(chi3_deg_spec(da, i, round, cap, k) == 0);
            lemma_chi3_agree(da, a1, a2, i, round, cap, k);
            lemma_bit_exprs(s1[i], chi3_spec(a1, i, round), 0, 0, 0, 0, k as u8, 0);
            lemma_bit_exprs(s2[i], chi3_spec(a2, i, round), 0, 0, 0, 0, k as u8, 0);
        } else {
            assert(da[b] == 0);
            assert(state_bit(a1, b) == state_bit(a2, b));
        }
    }
}

/// Rho keeps the agreement on zero-bound bits.
proof fn lemma_rho_agree(d: Seq<u32>, s1: Seq<u8>, s2: Seq<u8>)
    requires
        deg_wf(d),
        s1.len() == 512,
        s2.len() == 512,
        agree_where_constant(d, s1, s2),
    ensures
        agree_where_constant(rho_deg_spec(d), rho_spec(s1), rho_spec(s2)),
{
    let d1 = rho_deg_spec(d);
    let r1 = rho_spec(s1);
    let r2 = rho_spec(s2);
    assert forall|b: int| 0 <= b < 4096 && d1[b] == 0 implies #[trigger] state_bit(r1, b) == state_bit(r2, b) by {
        lemma_bidx_split(b);
        let i = b / 8;
        let k = b % 8;
        lemma_rho_offset_bound(i);
        let r = rho_offset_spec(i);
        let j = (k + 8 - r) % 8;
        lemma_state_bit_cell(s1, i, j);
        lemma_state_bit_cell(s2, i, j);
        lemma_state_bit_cell(r1, i, k);
        lemma_state_bit_cell(r2, i, k);
        assert(d[bidx_spec(i, j)] == 0);
        assert(state_bit(s1, bidx_spec(i, j)) == state_bit(s2, bidx_spec(i, j)));
        assert((((k as u8) as u32 + 8 - r as u32) % 8) as u8 == j as u8);
        lemma_rotl_bit(s1[i], r as u32, k as u8);
        lemma_rotl_bit(s2[i], r as u32, k as u8);
    }
}

/// Pi keeps the agreement on zero-bound bits.
proof fn lemma_pi_agree(d: Seq<u32>, s1: Seq<u8>, s2: Seq<u8>)
    requires
        deg_wf(d),
        s1.len() == 512,
        s2.len() == 512,
        agree_where_constant(d, s1, s2),
    ensures
        agree_where_constant(pi_deg_spec(d), pi_spec(s1), pi_spec(s2)),
{
    let d1 = pi_deg_spec(d);
    let p1 = pi_spec(s1);
    let p2 = pi_spec(s2);
    assert forall|b: int| 0 <= b < 4096 && d1[b] == 0 implies #[trigger] state_bit(p1, b) == state_bit(p2, b) by {
        lemma_bidx_split(b);
        let i = b / 8;
        let k = b % 8;
        lemma_pi_map_unmap(i);
        let u = pi_unmap_spec(i);
        lemma_state_bit_cell(s1, u, k);
        lemma_state_bit_cell(s2, u, k);
        lemma_state_bit_cell(p1, i, k);
        lemma_state_bit_cell(p2, i, k);
        assert(d[bidx_spec(u, k)] == 0);
        assert(state_bit(s1, bidx_spec(u, k)) == state_bit(s2, bidx_spec(u, k)));
    }
}

/// Soundness of the zero bounds through the rounds: two states that agree on
/// every bit whose bound is 0 still agree, after rounds 0..n-1, on every bit
/// whose propagated bound is 0 (for a cap of at least 1).
pub proof fn lemma_zero_bounds_sound(d: Seq<u32>, s1: Seq<u8>, s2: Seq<u8>, n: nat, cap: u32)
    requires
        deg_wf(d),
        1 <= cap <= DEG_LIMIT,
        s1.len() == 512,
        s2.len() == 512,
        agree_where_constant(d, s1, s2),
    ensures
        agree_where_constant(rounds_deg_spec(d, n, cap), permute_r_spec(s1, n), permute_r_spec(s2, n)),
    decreases n,
{
    if n > 0 {
        let m = (n - 1) as nat;
        lemma_zero_bounds_sound(d, s1, s2, m, cap);
        lemma_rounds_deg_wf(d, m, cap);
        lemma_permute_r_len(s1, m);
        lemma_permute_r_len(s2, m);
        let dm = rounds_deg_spec(d, m, cap);
        let x1 = permute_r_spec(s1, m);
        let x2 = permute_r_spec(s2, m);
        lemma_feistel_agree(dm, x1, x2, m as u32, cap);
        lemma_round_deg_wf(dm, m as u32, cap);
        let df = feistel_deg_spec(dm, m as u32, cap);
        let f1 = feistel_spec(x1, m as u32, true);
        let f2 = feistel_spec(x2, m as u32, true);
        lemma_rho_agree(df, f1, f2);
        assert(deg_wf(rho_deg_spec(df))) by {
            assert forall|b: int| 0 <= b < 4096 implies #[trigger] rho_deg_spec(df)[b] <= 0x7FFF_FFFF by {
                lemma_bidx_split(b);
                lemma_rho_offset_bound(b / 8);
                lemma_bidx_join(b / 8, (b % 8 + 8 - rho_offset_spec(b / 8)) % 8);
            }
        }
        lemma_pi_agree(rho_deg_spec(df), rho_spec(f1), rho_spec(f2));
    }
}

// ---------------------------------------------------------------------------
// Soundness of the bounds as algebraic degrees
// ---------------------------------------------------------------------------

/// A state for every nonce.
pub type StateFn = spec_fn(Seq<u8>) -> Seq<u8>;

/// Bit `b` of the state, as a function of the nonce.
pub open spec fn bit_fn(st: StateFn, b: int) -> NonceFn {
    |n: Seq<u8>| state_bit(st(n), b)
}

/// Every nonce gives a cube-sized state.
pub open spec fn states_ok(st: StateFn) -> bool {
    forall|n: Seq<u8>| n.len() == 64 ==> #[trigger] st(n).len() == 512
}

/// Every state bit whose bound is below the cap has algebraic degree (in the
/// nonce bits `vs`) at most its bound.
pub open spec fn bounds_sound(d: Seq<u32>, st: StateFn, cap: u32, vs: Set<int>) -> bool {
    forall|b: int| 0 <= b < 4096 && d[b] < cap ==> deg_below(#[trigger] bit_fn(st, b), (d[b] + 1) as nat, vs)
}

/// The complement of a bit function.
pub open spec fn not_fn(f: NonceFn) -> NonceFn {
    xor_fn(f, const_fn(1u8))
}

/// Bit k of chi3 at cell i, as a function of the nonce.
pub open spec fn chi_fn(st: StateFn, i: int, round: u32, k: int) -> NonceFn {
    let b0 = bit_fn(st, bidx_spec(tap_spec(i, round, 0), k));
    let b1 = bit_fn(st, bidx_spec(tap_spec(i, round, 1), k));
    let b2 = bit_fn(st, bidx_spec(tap_spec(i, round, 2), k));
    let b3 = bit_fn(st, bidx_spec(tap_spec(i, round, 3), k));
    let b4 = bit_fn(st, bidx_spec(tap_spec(i, round, 4), k));
    let b5 = bit_fn(st, bidx_spec(tap_spec(i, round, 5), k));
    xor_fn(xor_fn(and_fn(not_fn(b0), b1), and_fn(not_fn(b2), b3)), and_fn(not_fn(b4), b5))
}

/// Complementing keeps the degree.
proof fn lemma_not_deg(f: NonceFn, k: nat, vs: Set<int>)
    requires
        nonce_bits(vs),
        deg_below(f, k + 1, vs),
    ensures
        deg_below(not_fn(f), k + 1, vs),
{
    lemma_const_deg(1u8, vs);
    lemma_deg_mono_to(const_fn(1u8), 1, k + 1, vs);
    lemma_xor_deg(f, const_fn(1u8), k + 1, vs);
}

/// One chi3 product (!x & y) has degree at most the sum of its operands', lifted to m.
proof fn lemma_pair_deg(d: Seq<u32>, st: StateFn, p: int, q: int, m: int, cap: u32, vs: Set<int>)
    requires
        nonce_bits(vs),
        deg_wf(d),
        bounds_sound(d, st, cap, vs),
        0 <= p < 4096,
        0 <= q < 4096,
        d[p] + d[q] <= m < cap,
    ensures
        deg_below(and_fn(not_fn(bit_fn(st, p)), bit_fn(st, q)), (m + 1) as nat, vs),
{
    assert(deg_below(bit_fn(st, p), (d[p] + 1) as nat, vs));
    assert(deg_below(bit_fn(st, q), (d[q] + 1) as nat, vs));
    lemma_not_deg(bit_fn(st, p), d[p] as nat, vs);
    lemma_and_deg(not_fn(bit_fn(st, p)), bit_fn(st, q), d[p] as nat, d[q] as nat, vs);
    lemma_deg_mono_to(and_fn(not_fn(bit_fn(st, p)), bit_fn(st, q)), (d[p] + d[q] + 1) as nat, (m + 1) as nat, vs);
}

/// Bit k of chi3 has degree at most its propagated bound, when that bound is below the cap.
proof fn lemma_chi_fn_deg(d: Seq<u32>, st: StateFn, i: int, round: u32, cap: u32, k: int, vs: Set<int>)
    requires
        nonce_bits(vs),
        deg_wf(d),
        bounds_sound(d, st, cap, vs),
        0 <= i < 512,
        0 <= k < 8,
        chi3_deg_spec(d, i, round, cap, k) < cap,
    ensures
        deg_below(chi_fn(st, i, round, k), (chi3_deg_spec(d, i, round, cap, k) + 1) as nat, vs),
{
    lemma_taps_in_cube(i, round);
    let m = chi3_deg_spec(d, i, round, cap, k);
    let t0 = tap_spec(i, round, 0);
    let t1 = tap_spec(i, round, 1);
    let t2 = tap_spec(i, round, 2);
    let t3 = tap_spec(i, round, 3);
    let t4 = tap_spec(i, round, 4);
    let t5 = tap_spec(i, round, 5);
    assert(in_cube(t0) && in_cube(t1) && in_cube(t2) && in_cube(t3) && in_cube(t4) && in_cube(t5));
    lemma_bidx_join(t0, k);
    lemma_bidx_join(t1, k);
    lemma_bidx_join(t2, k);
    lemma_bidx_join(t3, k);
    lemma_bidx_join(t4, k);
    lemma_bidx_join(t5, k);
    lemma_pair_deg(d, st, bidx_spec(t0, k), bidx_spec(t1, k), m, cap, vs);
    lemma_pair_deg(d, st, bidx_spec(t2, k), bidx_spec(t3, k), m, cap, vs);
    lemma_pair_deg(d, st, bidx_spec(t4, k), bidx_spec(t5, k), m, cap, vs);
    let p01 = and_fn(not_fn(bit_fn(st, bidx_spec(t0, k))), bit_fn(st, bidx_spec(t1, k)));
    let p23 = and_fn(not_fn(bit_fn(st, bidx_spec(t2, k))), bit_fn(st, bidx_spec(t3, k)));
    let p45 = and_fn(not_fn(bit_fn(st, bidx_spec(t4, k))), bit_fn(st, bidx_spec(t5, k)));
    lemma_xor_deg(p01, p23, (m + 1) as nat, vs);
    lemma_xor_deg(xor_fn(p01, p23), p45, (m + 1) as nat, vs);
}

/// chi_fn is bit k of chi3 of the state.
proof fn lemma_chi_fn_value(st: StateFn, i: int, round: u32, k: int, n: Seq<u8>)
    requires
        states_ok(st),
        n.len() == 64,
        0 <= i < 512,
        0 <= k < 8,
    ensures
        chi_fn(st, i, round, k)(n) == (chi3_spec(st(n), i, round) >> (k as u8)) & 1u8,
{
    lemma_taps_in_cube(i, round);
    let s = st(n);
    assert(s.len() == 512);
    assert(in_cube(tap_spec(i, round, 0)) && in_cube(tap_spec(i, round, 1)) && in_cube(tap_spec(i, round, 2)));
    assert(in_cube(tap_spec(i, round, 3)) && in_cube(tap_spec(i, round, 4)) && in_cube(tap_spec(i, round, 5)));
    lemma_state_bit_cell(s, tap_spec(i, round, 0), k);
    lemma_state_bit_cell(s, tap_spec(i, round, 1), k);
    lemma_state_bit_cell(s, tap_spec(i, round, 2), k);
    lemma_state_bit_cell(s, tap_spec(i, round, 3), k);
    lemma_state_bit_cell(s, tap_spec(i, round, 4), k);
    lemma_state_bit_cell(s, tap_spec(i, round, 5), k);
    lemma_chi3_bit(s, i, round, k);
}

/// The first Feistel half keeps the bounds sound.
proof fn lemma_feistel_a_bounds(d: Seq<u32>, st: StateFn, round: u32, cap: u32, vs: Set<int>)
    requires
        nonce_bits(vs),
        deg_wf(d),
        cap <= DEG_LIMIT,
        states_ok(st),
        bounds_sound(d, st, cap, vs),
    ensures
        states_ok(|n: Seq<u8>| feistel_a_spec(st(n), round, true)),
        bounds_sound(feistel_deg_a_spec(d, round, cap), |n: Seq<u8>| feistel_a_spec(st(n), round, true), cap, vs),
{
    let sa = |n: Seq<u8>| feistel_a_spec(st(n), round, true);
    let d1 = feistel_deg_a_spec(d, round, cap);
    assert forall|b: int| 0 <= b < 4096 && d1[b] < cap implies deg_below(#[trigger] bit_fn(sa, b), (d1[b] + 1) as nat, vs) by {
        lemma_bidx_split(b);
        let i = b / 8;
        let k = b % 8;
        lemma_chi3_deg_capped(d, i, round, cap, k);
        assert(d[b] <= d1[b]);
        assert(deg_below(bit_fn(st, b), (d[b] + 1) as nat, vs));
        lemma_deg_mono_to(bit_fn(st, b), (d[b] + 1) as nat, (d1[b] + 1) as nat, vs);
        if color_spec(i) == 0 {
            let m = chi3_deg_spec(d, i, round, cap, k);
            lemma_chi_fn_deg(d, st, i, round, cap, k, vs);
            lemma_deg_mono_to(chi_fn(st, i, round, k), (m + 1) as nat, (d1[b] + 1) as nat, vs);
            let cb: u8 = if i == 0 { (round_constant_spec(round) >> (k as u8)) & 1u8 } else { 0u8 };
            lemma_const_deg(cb, vs);
            lemma_deg_mono_to(const_fn(cb), 1, (d1[b] + 1) as nat, vs);
            let g = xor_fn(xor_fn(bit_fn(st, b), chi_fn(st, i, round, k)), const_fn(cb));
            lemma_xor_deg(bit_fn(st, b), chi_fn(st, i, round, k), (d1[b] + 1) as nat, vs);
            lemma_xor_deg(xor_fn(bit_fn(st, b), chi_fn(st, i, round, k)), const_fn(cb), (d1[b] + 1) as nat, vs);
            assert forall|n: Seq<u8>| n.len() == 64 implies #[trigger] g(n) == bit_fn(sa, b)(n) by {
                let s = st(n);
                lemma_state_bit_cell(s, i, k);
                lemma_state_bit_cell(sa(n), i, k);
                lemma_chi_fn_value(st, i, round, k, n);
                let c = round_constant_spec(round);
                lemma_bit_exprs(s[i], chi3_spec(s, i, round), c, 0, 0, 0, k as u8, 0);
                lemma_bit_exprs(s[i], chi3_spec(s, i, round), 0, 0, 0, 0, k as u8, 0);
                let xb = (s[i] >> (k as u8)) & 1u8;
                let chb = (chi3_spec(s, i, round) >> (k as u8)) & 1u8;
                lemma_bit_exprs(xb ^ chb, 0, 0, 0, 0, 0, k as u8, 0);
            }
            lemma_agree_deg(g, bit_fn(sa, b), (d1[b] + 1) as nat, vs);
        } else {
            assert forall|n: Seq<u8>| n.len() == 64 implies #[trigger] bit_fn(st, b)(n) == bit_fn(sa, b)(n) by {
                lemma_state_bit_cell(st(n), i, k);
                lemma_state_bit_cell(sa(n), i, k);
            }
            lemma_agree_deg(bit_fn(st, b), bit_fn(sa, b), (d1[b] + 1) as nat, vs);
        }
    }
}

/// The Feistel bounds only grow, and stay within the cap when the given bounds
/// do: d[j] <= feistel_deg(d)[j] <= cap for every state bit j.
pub proof fn lemma_feistel_deg_range(d: Seq<u32>, round: u32, cap: u32)
    requires
        deg_wf(d),
        cap <= DEG_LIMIT,
        forall|j: int| 0 <= j < 4096 ==> #[trigger] d[j] <= cap,
    ensures
        forall|j: int| 0 <= j < 4096 ==> d[j] <= #[trigger] feistel_deg_spec(d, round, cap)[j] <= cap,
{
    let da = feistel_deg_a_spec(d, round, cap);
    let f = feistel_deg_spec(d, round, cap);
    assert forall|j: int| 0 <= j < 4096 implies d[j] <= #[trigger] da[j] <= cap by {
        lemma_bidx_split(j);
        lemma_chi3_deg_capped(d, j / 8, round, cap, j % 8);
    }
    assert forall|j: int| 0 <= j < 4096 implies d[j] <= #[trigger] f[j] <= cap by {
        lemma_bidx_split(j);
        lemma_chi3_deg_capped(da, j / 8, round, cap, j % 8);
        assert(d[j] <= da[j] <= cap);
    }
}

/// Soundness of feistel_deg for one Feistel step (the step feistel_variant
/// computes with the round constant): if every state bit whose bound in `d` is
/// below the cap has algebraic degree in `vs` at most that bound, then every
/// bit of the Feistel output whose bound in feistel_deg(d) is below the cap has
/// degree at most that bound.
pub proof fn lemma_feistel_bounds(d: Seq<u32>, st: StateFn, round: u32, cap: u32, vs: Set<int>)
    requires
        nonce_bits(vs),
        deg_wf(d),
        cap <= DEG_LIMIT,
        states_ok(st),
        bounds_sound(d, st, cap, vs),
    ensures
        states_ok(|n: Seq<u8>| feistel_spec(st(n), round, true)),
        bounds_sound(feistel_deg_spec(d, round, cap), |n: Seq<u8>| feistel_spec(st(n), round, true), cap, vs),
{
    lemma_feistel_a_bounds(d, st, round, cap, vs);
    lemma_round_deg_wf(d, round, cap);
    let sa = |n: Seq<u8>| feistel_a_spec(st(n), round, true);
    let sf = |n: Seq<u8>| feistel_spec(st(n), round, true);
    let da = feistel_deg_a_spec(d, round, cap);
    let d2 = feistel_deg_spec(d, round, cap);
    assert forall|b: int| 0 <= b < 4096 && d2[b] < cap implies deg_below(#[trigger] bit_fn(sf, b), (d2[b] + 1) as nat, vs) by {
        lemma_bidx_split(b);
        let i = b / 8;
        let k = b % 8;
        if color_spec(i) == 1 {
            lemma_chi3_deg_capped(da, i, round, cap, k);
            let m = chi3_deg_spec(da, i, round, cap, k);
            assert(deg_below(bit_fn(st, b), (d[b] + 1) as nat, vs));
            lemma_deg_mono_to(bit_fn(st, b), (d[b] + 1) as nat, (d2[b] + 1) as nat, vs);
            lemma_chi_fn_deg(da, sa, i, round, cap, k, vs);
            lemma_deg_mono_to(chi_fn(sa, i, round, k), (m + 1) as nat, (d2[b] + 1) as nat, vs);
            let g = xor_fn(bit_fn(st, b), chi_fn(sa, i, round, k));
            lemma_xor_deg(bit_fn(st, b), chi_fn(sa, i, round, k), (d2[b] + 1) as nat, vs);
            assert forall|n: Seq<u8>| n.len() == 64 implies #[trigger] g(n) == bit_fn(sf, b)(n) by {
                let s = st(n);
                let a = sa(n);
                lemma_state_bit_cell(s, i, k);
                lemma_state_bit_cell(sf(n), i, k);
                lemma_chi_fn_value(sa, i, round, k, n);
                lemma_bit_exprs(s[i], chi3_spec(a, i, round), 0, 0, 0, 0, k as u8, 0);
            }
            lemma_agree_deg(g, bit_fn(sf, b), (d2[b] + 1) as nat, vs);
        } else {
            assert(deg_below(bit_fn(sa, b), (da[b] + 1) as nat, vs));
            assert forall|n: Seq<u8>| n.len() == 64 implies #[trigger] bit_fn(sa, b)(n) == bit_fn(sf, b)(n) by {
                lemma_state_bit_cell(sa(n), i, k);
                lemma_state_bit_cell(sf(n), i, k);
            }
            lemma_agree_deg(bit_fn(sa, b), bit_fn(sf, b), (d2[b] + 1) as nat, vs);
        }
    }
}

/// Soundness of rho_deg: rho keeps every bound below the cap a bound on the
/// algebraic degree of its bit.
pub proof fn lemma_rho_bounds(d: Seq<u32>, st: StateFn, cap: u32, vs: Set<int>)
    requires
        nonce_bits(vs),
        deg_wf(d),
        states_ok(st),
        bounds_sound(d, st, cap, vs),
    ensures
        states_ok(|n: Seq<u8>| rho_spec(st(n))),
        bounds_sound(rho_deg_spec(d), |n: Seq<u8>| rho_spec(st(n)), cap, vs),
{
    let sr = |n: Seq<u8>| rho_spec(st(n));
    let d1 = rho_deg_spec(d);
    assert forall|b: int| 0 <= b < 4096 && d1[b] < cap implies deg_below(#[trigger] bit_fn(sr, b), (d1[b] + 1) as nat, vs) by {
        lemma_bidx_split(b);
        let i = b / 8;
        let k = b % 8;
        lemma_rho_offset_bound(i);
        let r = rho_offset_spec(i);
        let j = (k + 8 - r) % 8;
        lemma_bidx_join(i, j);
        assert(deg_below(bit_fn(st, bidx_spec(i, j)), (d1[b] + 1) as nat, vs));
        assert forall|n: Seq<u8>| n.len() == 64 implies #[trigger] bit_fn(st, bidx_spec(i, j))(n) == bit_fn(sr, b)(n) by {
            lemma_state_bit_cell(st(n), i, j);
            lemma_state_bit_cell(sr(n), i, k);
            assert((((k as u8) as u32 + 8 - r as u32) % 8) as u8 == j as u8);
            lemma_rotl_bit(st(n)[i], r as u32, k as u8);
        }
        lemma_agree_deg(bit_fn(st, bidx_spec(i, j)), bit_fn(sr, b), (d1[b] + 1) as nat, vs);
    }
}

/// Soundness of pi_deg: pi keeps every bound below the cap a bound on the
/// algebraic degree of its bit.
pub proof fn lemma_pi_bounds(d: Seq<u32>, st: StateFn, cap: u32, vs: Set<int>)
    requires
        nonce_bits(vs),
        deg_wf(d),
        states_ok(st),
        bounds_sound(d, st, cap, vs),
    ensures
        states_ok(|n: Seq<u8>| pi_spec(st(n))),
        bounds_sound(pi_deg_spec(d), |n: Seq<u8>| pi_spec(st(n)), cap, vs),
{
    let sp = |n: Seq<u8>| pi_spec(st(n));
    let d1 = pi_deg_spec(d);
    assert forall|b: int| 0 <= b < 4096 && d1[b] < cap implies deg_below(#[trigger] bit_fn(sp, b), (d1[b] + 1) as nat, vs) by {
        lemma_bidx_split(b);
        let i = b / 8;
        let k = b % 8;
        lemma_pi_map_unmap(i);
        let u = pi_unmap_spec(i);
        lemma_bidx_join(u, k);
        assert(deg_below(bit_fn(st, bidx_spec(u, k)), (d1[b] + 1) as nat, vs));
        assert forall|n: Seq<u8>| n.len() == 64 implies #[trigger] bit_fn(st, bidx_spec(u, k))(n) == bit_fn(sp, b)(n) by {
            lemma_state_bit_cell(st(n), u, k);
            lemma_state_bit_cell(sp(n), i, k);
        }
        lemma_agree_deg(bit_fn(st, bidx_spec(u, k)), bit_fn(sp, b), (d1[b] + 1) as nat, vs);
    }
}

/// Soundness of the propagation as algebraic degrees: when every state bit with
/// a bound below the cap has degree at most its bound, so does every state bit
/// after rounds 0..n-1 with its propagated bound.
pub proof fn lemma_degree_bounds_sound(d: Seq<u32>, st: StateFn, n: nat, cap: u32, vs: Set<int>)
    requires
        nonce_bits(vs),
        deg_wf(d),
        cap <= DEG_LIMIT,
        states_ok(st),
        bounds_sound(d, st, cap, vs),
    ensures
        bounds_sound(rounds_deg_spec(d, n, cap), |x: Seq<u8>| permute_r_spec(st(x), n), cap, vs),
    decreases n,
{
    let target = |x: Seq<u8>| permute_r_spec(st(x), n);
    if n == 0 {
        assert forall|b: int| 0 <= b < 4096 && d[b] < cap implies deg_below(#[trigger] bit_fn(target, b), (d[b] + 1) as nat, vs) by {
            assert(deg_below(bit_fn(st, b), (d[b] + 1) as nat, vs));
            assert forall|x: Seq<u8>| x.len() == 64 implies #[trigger] bit_fn(st, b)(x) == bit_fn(target, b)(x) by {
            }
            lemma_agree_deg(bit_fn(st, b), bit_fn(target, b), (d[b] + 1) as nat, vs);
        }
    } else {
        let m = (n - 1) as nat;
        lemma_degree_bounds_sound(d, st, m, cap, vs);
        lemma_rounds_deg_wf(d, m, cap);
        let sm = |x: Seq<u8>| permute_r_spec(st(x), m);
        assert forall|x: Seq<u8>| x.len() == 64 implies #[trigger] sm(x).len() == 512 by {
            lemma_permute_r_len(st(x), m);
        }
        let dm = rounds_deg_spec(d, m, cap);
        lemma_feistel_bounds(dm, sm, m as u32, cap, vs);
        lemma_round_deg_wf(dm, m as u32, cap);
        let sf = |x: Seq<u8>| feistel_spec(sm(x), m as u32, true);
        let df = feistel_deg_spec(dm, m as u32, cap);
        lemma_rho_bounds(df, sf, cap, vs);
        let sr = |x: Seq<u8>| rho_spec(sf(x));
        let dr = rho_deg_spec(df);
        assert(deg_wf(dr)) by {
            assert forall|b: int| 0 <= b < 4096 implies #[trigger] dr[b] <= 0x7FFF_FFFF by {
                lemma_bidx_split(b);
                lemma_rho_offset_bound(b / 8);
                lemma_bidx_join(b / 8, (b % 8 + 8 - rho_offset_spec(b / 8)) % 8);
            }
        }
        lemma_pi_bounds(dr, sr, cap, vs);
        let sp = |x: Seq<u8>| pi_spec(sr(x));
        let dn = rounds_deg_spec(d, n, cap);
        assert(dn == pi_deg_spec(dr));
        assert forall|b: int| 0 <= b < 4096 && dn[b] < cap implies deg_below(#[trigger] bit_fn(target, b), (dn[b] + 1) as nat, vs) by {
            assert(deg_below(bit_fn(sp, b), (dn[b] + 1) as nat, vs));
            assert forall|x: Seq<u8>| x.len() == 64 implies #[trigger] bit_fn(sp, b)(x) == bit_fn(target, b)(x) by {
                assert(sp(x) == permute_r_spec(st(x), n));
            }
            lemma_agree_deg(bit_fn(sp, b), bit_fn(target, b), (dn[b] + 1) as nat, vs);
        }
    }
}

} // verus!
