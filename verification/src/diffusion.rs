//! The counts behind the diffusion harnesses: the single-bit avalanche ramp over
//! the rounds, the superposition residuals of the reduced-round permutation, and
//! the number of set bits in a byte string.
use vstd::prelude::*;
use crate::cube_attack::toggle_bit_spec;
use crate::geometry::Cube;
use crate::permutation::{permute_r, permute_r_spec, round_forward};
use crate::rng::{random_cube, random_seq, xorshift, xorshift_iter, xorshift_step};
use crate::stats::{
    lemma_hamming_bound, lemma_popcount_bound, lemma_shell_hamming_bound, lemma_weight_bound, count_ones8, diff_or_upto, hamming, hamming_upto, planes_touched, popcount, shell_hamming,
    shell_hamming_upto, weight, weight_upto, xor_cube,
};

verus! {

// ---------------------------------------------------------------------------
// Mathematical model
// ---------------------------------------------------------------------------

/// One avalanche trial drawn from generator state x: a random state, the bit of
/// it to flip (next() % 4096), and the generator state after.
pub open spec fn aval_trial(x: u64) -> (Seq<u8>, int, u64) {
    let s = random_seq(x, 512);
    let x2 = xorshift_step(xorshift_iter(x, 512));
    (s, (x2 % 4096) as int, x2)
}

/// The generator state after `t` avalanche trials.
pub open spec fn aval_state(x: u64, t: nat) -> u64
    decreases t,
{
    if t == 0 {
        x
    } else {
        aval_trial(aval_state(x, (t - 1) as nat)).2
    }
}

/// What one avalanche trial measures between two states: differing bits;
/// differing and total bits of the rate shell; the same for the capacity shell;
/// and the number of bit planes with a difference.
pub open spec fn aval_measures(a: Seq<u8>, b: Seq<u8>) -> (nat, nat, nat, nat, nat, nat) {
    let rs = shell_hamming_upto(a, b, true, 512);
    let cs = shell_hamming_upto(a, b, false, 512);
    (hamming_upto(a, b, 512), rs.0, rs.1, cs.0, cs.1, popcount(diff_or_upto(a, b, 512)))
}

/// The measures summed over `t` trials, after `r` rounds of both states.
pub open spec fn aval_sum(x: u64, t: nat, r: nat) -> (nat, nat, nat, nat, nat, nat)
    decreases t,
{
    if t == 0 {
        (0, 0, 0, 0, 0, 0)
    } else {
        let p = aval_sum(x, (t - 1) as nat, r);
        let tr = aval_trial(aval_state(x, (t - 1) as nat));
        let m = aval_measures(permute_r_spec(tr.0, r), permute_r_spec(toggle_bit_spec(tr.0, tr.1), r));
        (p.0 + m.0, p.1 + m.1, p.2 + m.2, p.3 + m.3, p.4 + m.4, p.5 + m.5)
    }
}

/// A tally of six counters holds the six sums.
pub open spec fn tally_is(t: (u64, u64, u64, u64, u64, u64), m: (nat, nat, nat, nat, nat, nat)) -> bool {
    t.0 == m.0 && t.1 == m.1 && t.2 == m.2 && t.3 == m.3 && t.4 == m.4 && t.5 == m.5
}

/// Every counter of a tally is at most `b`.
pub open spec fn tally_below(t: (u64, u64, u64, u64, u64, u64), b: int) -> bool {
    t.0 <= b && t.1 <= b && t.2 <= b && t.3 <= b && t.4 <= b && t.5 <= b
}

/// The all-zero state.
pub open spec fn zero_state() -> Seq<u8> {
    Seq::new(512, |i: int| 0u8)
}

/// The superposition residual of the r-round permutation P at states a and b:
/// P(a) ^ P(b) ^ P(0) ^ P(a ^ b), zero everywhere for an affine P.
pub open spec fn lin_residual(a: Seq<u8>, b: Seq<u8>, rounds: nat) -> Seq<u8> {
    let pa = permute_r_spec(a, rounds);
    let pb = permute_r_spec(b, rounds);
    let p0 = permute_r_spec(zero_state(), rounds);
    let pab = permute_r_spec(Seq::new(512, |i: int| a[i] ^ b[i]), rounds);
    Seq::new(512, |i: int| ((pa[i] ^ pb[i]) ^ p0[i]) ^ pab[i])
}

/// Over `t` trials of two random states each: the least residual weight
/// (u32::MAX when there is no trial), the sum of the weights, and the generator
/// state after.
pub open spec fn lin_upto(rounds: nat, x: u64, t: nat) -> (int, nat, u64)
    decreases t,
{
    if t == 0 {
        (0xFFFF_FFFF, 0, x)
    } else {
        let p = lin_upto(rounds, x, (t - 1) as nat);
        let a = random_seq(p.2, 512);
        let x1 = xorshift_iter(p.2, 512);
        let b = random_seq(x1, 512);
        let w = weight_upto(lin_residual(a, b, rounds), 512);
        (if w < p.0 { w as int } else { p.0 }, p.1 + w, xorshift_iter(x1, 512))
    }
}

// ---------------------------------------------------------------------------
// Laws
// ---------------------------------------------------------------------------

/// The residual weight of the superposition trial drawn from generator state x.
pub open spec fn lin_trial_weight(rounds: nat, x: u64) -> nat {
    weight_upto(lin_residual(random_seq(x, 512), random_seq(xorshift_iter(x, 512), 512), rounds), 512)
}

/// One superposition trial: its weight is both the least and the summed
/// weight, and it draws two states (1024 generator outputs).
pub proof fn lemma_lin_one_trial(rounds: nat, x: u64)
    ensures
        lin_upto(rounds, x, 1) == (lin_trial_weight(rounds, x) as int, lin_trial_weight(rounds, x), xorshift_iter(x, 1024)),
{
    let w = lin_trial_weight(rounds, x);
    lemma_weight_upto_bound(lin_residual(random_seq(x, 512), random_seq(xorshift_iter(x, 512), 512), rounds));
    assert(w <= 4096);
    assert(lin_upto(rounds, x, 0) == (0xFFFF_FFFFint, 0nat, x));
    assert(lin_upto(rounds, x, 1) == (if (w as int) < 0xFFFF_FFFF { w as int } else { 0xFFFF_FFFFint }, 0 + w, xorshift_iter(xorshift_iter(x, 512), 512)));
    crate::rng::lemma_xorshift_iter_add(x, 512, 512);
}

/// A residual's weight is at most 4096 bits, below u32::MAX.
proof fn lemma_weight_upto_bound(c: Seq<u8>)
    ensures
        weight_upto(c, 512) <= 4096,
{
    crate::stats::lemma_weight_bound(c, 512);
}

/// The summed residual weight of trials 0..t, trial i drawing its two states
/// after 1024 i generator outputs.
pub open spec fn lin_weight_total(rounds: nat, x: u64, t: nat) -> nat
    decreases t,
{
    if t == 0 {
        0
    } else {
        lin_weight_total(rounds, x, (t - 1) as nat) + lin_trial_weight(rounds, xorshift_iter(x, 1024 * (t - 1) as nat))
    }
}

/// The second result of the superposition test is the sum of every trial's
/// residual weight, and the generator advances by 1024 outputs per trial.
pub proof fn lemma_lin_sum_of_weights(rounds: nat, x: u64, t: nat)
    ensures
        lin_upto(rounds, x, t).1 == lin_weight_total(rounds, x, t),
        lin_upto(rounds, x, t).2 == xorshift_iter(x, 1024 * t),
    decreases t,
{
    if t > 0 {
        let m = (t - 1) as nat;
        lemma_lin_sum_of_weights(rounds, x, m);
        let xm = xorshift_iter(x, 1024 * m);
        crate::rng::lemma_xorshift_iter_add(x, 1024 * m, 512);
        crate::rng::lemma_xorshift_iter_add(x, (1024 * m + 512) as nat, 512);
        assert(1024 * m + 512 + 512 == 1024 * t);
        assert(lin_upto(rounds, x, t).1 == lin_upto(rounds, x, m).1 + lin_trial_weight(rounds, xm));
    }
}

/// The least weight never exceeds its starting value u32::MAX.
proof fn lemma_lin_min_bound(rounds: nat, x: u64, t: nat)
    ensures
        lin_upto(rounds, x, t).0 <= 0xFFFF_FFFF,
    decreases t,
{
    if t > 0 {
        lemma_lin_min_bound(rounds, x, (t - 1) as nat);
    }
}

/// Running the superposition test for t1 trials and then t2 more from where the
/// generator stopped is running it for t1 + t2 trials: the least weights combine
/// by min, the summed weights add up, and the generator ends in the same place.
/// With the one-trial law this says the second result is the sum of every
/// trial's residual weight and the first their minimum.
pub proof fn lemma_lin_split(rounds: nat, x: u64, t1: nat, t2: nat)
    ensures
        ({
            let a = lin_upto(rounds, x, t1);
            let b = lin_upto(rounds, a.2, t2);
            let c = lin_upto(rounds, x, t1 + t2);
            &&& c.0 == (if b.0 < a.0 { b.0 } else { a.0 })
            &&& c.1 == a.1 + b.1
            &&& c.2 == b.2
        }),
    decreases t2,
{
    if t2 == 0 {
        lemma_lin_min_bound(rounds, x, t1);
    } else {
        let m = (t2 - 1) as nat;
        lemma_lin_split(rounds, x, t1, m);
        let a = lin_upto(rounds, x, t1);
        let bp = lin_upto(rounds, a.2, m);
        let cp = lin_upto(rounds, x, t1 + m);
        assert((t1 + t2 - 1) as nat == t1 + m);
        assert(cp.2 == bp.2);
        let w = lin_trial_weight(rounds, bp.2);
        assert(lin_upto(rounds, a.2, t2) == (if (w as int) < bp.0 { w as int } else { bp.0 }, bp.1 + w, xorshift_iter(xorshift_iter(bp.2, 512), 512)));
        assert(lin_upto(rounds, x, t1 + t2) == (if (w as int) < cp.0 { w as int } else { cp.0 }, cp.1 + w, xorshift_iter(xorshift_iter(cp.2, 512), 512)));
    }
}

// ---------------------------------------------------------------------------
// Executable
// ---------------------------------------------------------------------------

/// The single-bit avalanche ramp: over `trials` random states, flip one random
/// bit and run both states through rounds 0, 1, ..., max_r; entry r of the
/// result sums, over the trials, the measures after r rounds (differing bits,
/// rate-shell differing and total bits, capacity-shell differing and total bits,
/// bit planes hit). Each trial adds at most 4096 to a tally, so the trials are
/// limited to those whose tallies always fit a u64.
pub fn avalanche_counts(trials: usize, max_r: usize, rng: &mut u64) -> (tallies: Vec<(u64, u64, u64, u64, u64, u64)>)
    requires
        trials * 4096 <= 0xFFFF_FFFF_FFFF_FFFF,
        max_r < 0xFFFF_FFFF,
    ensures
        tallies@.len() == max_r + 1,
        forall|r: int| 0 <= r <= max_r ==> tally_is(#[trigger] tallies@[r], aval_sum(*old(rng), trials as nat, r as nat)),
        *final(rng) == aval_state(*old(rng), trials as nat),
{
    let ghost x0 = *rng;
    let mut tallies: Vec<(u64, u64, u64, u64, u64, u64)> = Vec::new();
    let mut r: usize = 0;
    while r <= max_r
        invariant
            max_r < 0xFFFF_FFFF,
            r <= max_r + 1,
            tallies@.len() == r,
            forall|q: int| 0 <= q < r ==> #[trigger] tallies@[q] == (0u64, 0u64, 0u64, 0u64, 0u64, 0u64),
        decreases max_r + 1 - r,
    {
        tallies.push((0, 0, 0, 0, 0, 0));
        r = r + 1;
    }
    let mut k: usize = 0;
    while k < trials
        invariant
            trials * 4096 <= 0xFFFF_FFFF_FFFF_FFFF,
            max_r < 0xFFFF_FFFF,
            k <= trials,
            tallies@.len() == max_r + 1,
            forall|q: int| 0 <= q <= max_r ==> tally_is(#[trigger] tallies@[q], aval_sum(x0, k as nat, q as nat)),
            forall|q: int| 0 <= q <= max_r ==> tally_below(#[trigger] tallies@[q], k * 4096),
            *rng == aval_state(x0, k as nat),
        decreases trials - k,
    {
        let ghost xk = *rng;
        let s = random_cube(rng);
        let x = xorshift(rng);
        let bit = (x % 4096) as usize;
        let mut t = s;
        t[bit / 8] = t[bit / 8] ^ (1u8 << ((bit % 8) as u8));
        assert(t@ =~= toggle_bit_spec(s@, bit as int));
        let ghost tr = aval_trial(xk);
        assert(tr.0 == s@ && tr.1 == bit as int && tr.2 == *rng);
        let mut a = s;
        let mut b = t;
        let mut r: usize = 0;
        while r <= max_r
            invariant
                trials * 4096 <= 0xFFFF_FFFF_FFFF_FFFF,
                max_r < 0xFFFF_FFFF,
                k < trials,
                r <= max_r + 1,
                tr == aval_trial(xk),
                xk == aval_state(x0, k as nat),
                a@ == permute_r_spec(tr.0, r as nat),
                b@ == permute_r_spec(toggle_bit_spec(tr.0, tr.1), r as nat),
                tallies@.len() == max_r + 1,
                forall|q: int| 0 <= q < r ==> tally_is(#[trigger] tallies@[q], aval_sum(x0, (k + 1) as nat, q as nat)),
                forall|q: int| r <= q <= max_r ==> tally_is(#[trigger] tallies@[q], aval_sum(x0, k as nat, q as nat)),
                forall|q: int| 0 <= q < r ==> tally_below(#[trigger] tallies@[q], (k + 1) * 4096),
                forall|q: int| r <= q <= max_r ==> tally_below(#[trigger] tallies@[q], k * 4096),
            decreases max_r + 1 - r,
        {
            let h = hamming(&a, &b);
            let (rd, rt) = shell_hamming(&a, &b, true);
            let (cd, ct) = shell_hamming(&a, &b, false);
            let p = planes_touched(&a, &b);
            proof {
                lemma_hamming_bound(a@, b@, 512);
                lemma_shell_hamming_bound(a@, b@, true, 512);
                lemma_shell_hamming_bound(a@, b@, false, 512);
                lemma_popcount_bound(diff_or_upto(a@, b@, 512), 8);
            }
            let cur = tallies[r];
            assert(tally_below(tallies@[r as int], k * 4096));
            assert(k * 4096 + 4096 == (k + 1) * 4096);
            assert((k + 1) * 4096 <= trials * 4096) by (nonlinear_arith)
                requires
                    k < trials,
            ;
            let next = (cur.0 + h as u64, cur.1 + rd as u64, cur.2 + rt as u64, cur.3 + cd as u64, cur.4 + ct as u64, cur.5 + p as u64);
            tallies.set(r, next);
            a = round_forward(&a, r as u32);
            b = round_forward(&b, r as u32);
            r = r + 1;
        }
        k = k + 1;
    }
    tallies
}

/// The superposition test of the r-round permutation: over `trials` pairs of
/// random states, the least and the summed weight of the residual
/// P(a) ^ P(b) ^ P(0) ^ P(a ^ b) (the least is u32::MAX when there is no trial).
/// Each trial adds at most 4096 to the sum, so the trials are limited to those
/// whose sum always fits a u64.
pub fn linearity_residuals(rounds: u32, trials: usize, rng: &mut u64) -> (res: (u32, u64))
    requires
        trials * 4096 <= 0xFFFF_FFFF_FFFF_FFFF,
    ensures
        res.0 as int == lin_upto(rounds as nat, *old(rng), trials as nat).0,
        res.1 as nat == lin_upto(rounds as nat, *old(rng), trials as nat).1,
        *final(rng) == lin_upto(rounds as nat, *old(rng), trials as nat).2,
        res.1 as nat == lin_weight_total(rounds as nat, *old(rng), trials as nat),
{
    proof {
        lemma_lin_sum_of_weights(rounds as nat, *old(rng), trials as nat);
    }
    let ghost x0 = *rng;
    let zero: Cube = [0u8; 512];
    assert(zero@ =~= zero_state());
    let mut min_w: u32 = 0xFFFF_FFFF;
    let mut sum_w: u64 = 0;
    let mut k: usize = 0;
    while k < trials
        invariant
            trials * 4096 <= 0xFFFF_FFFF_FFFF_FFFF,
            k <= trials,
            zero@ == zero_state(),
            sum_w <= k * 4096,
            (min_w as int, sum_w as nat, *rng) == lin_upto(rounds as nat, x0, k as nat),
        decreases trials - k,
    {
        let a = random_cube(rng);
        let b = random_cube(rng);
        let ab = xor_cube(&a, &b);
        assert(ab@ =~= Seq::new(512, |i: int| a@[i] ^ b@[i]));
        let pa = permute_r(&a, rounds);
        let pb = permute_r(&b, rounds);
        let p0 = permute_r(&zero, rounds);
        let pab = permute_r(&ab, rounds);
        let r1 = xor_cube(&pa, &pb);
        let r2 = xor_cube(&r1, &p0);
        let residual = xor_cube(&r2, &pab);
        assert(residual@ =~= lin_residual(a@, b@, rounds as nat));
        let w = weight(&residual);
        if w < min_w {
            min_w = w;
        }
        proof {
            lemma_weight_bound(residual@, 512);
        }
        assert((k + 1) * 4096 <= trials * 4096) by (nonlinear_arith)
            requires
                k < trials,
        ;
        sum_w = sum_w + w as u64;
        k = k + 1;
    }
    (min_w, sum_w)
}

/// Number of set bits in a byte string.
pub fn ones_count(bytes: &[u8]) -> (r: u64)
    requires
        bytes@.len() < 0x1000_0000_0000_0000,
    ensures
        r == weight_upto(bytes@, bytes@.len() as int),
{
    let mut r: u64 = 0;
    let mut i: usize = 0;
    while i < bytes.len()
        invariant
            bytes@.len() < 0x1000_0000_0000_0000,
            i <= bytes@.len(),
            r == weight_upto(bytes@, i as int),
            r <= 8 * i,
        decreases bytes@.len() - i,
    {
        let c = count_ones8(bytes[i]);
        r = r + c as u64;
        i = i + 1;
    }
    r
}

} // verus!
