//! Measurements over states for the avalanche, linearity and distinguisher
//! harnesses: bit counts, Hamming distances, rate-bit reads, and the sample
//! counts that the distinguishers turn into z-scores.
use vstd::prelude::*;
use crate::cube_attack::write_cells;
use crate::geometry::{is_rate, is_rate_spec, Cube, CELLS};
use crate::permutation::{lemma_permute_r_len, permute_r, permute_r_spec};
use crate::rng::{random_bytes, random_seq, xorshift_iter};

verus! {

// ---------------------------------------------------------------------------
// Mathematical model
// ---------------------------------------------------------------------------

/// Number of set bits among the lowest `n` bits of a byte.
pub open spec fn popcount_upto(x: u8, n: nat) -> nat
    decreases n,
{
    if n == 0 {
        0
    } else {
        popcount_upto(x, (n - 1) as nat) + (((x >> ((n - 1) as u8)) & 1u8) as nat)
    }
}

/// Number of set bits of a byte.
pub open spec fn popcount(x: u8) -> nat {
    popcount_upto(x, 8)
}

/// Number of differing bits between a and b over cells 0..n.
pub open spec fn hamming_upto(a: Seq<u8>, b: Seq<u8>, n: int) -> nat
    decreases n,
{
    if n <= 0 {
        0
    } else {
        hamming_upto(a, b, n - 1) + popcount(a[n - 1] ^ b[n - 1])
    }
}

/// Differing bits and total bits over the cells 0..n whose rate membership is
/// `want_rate`.
pub open spec fn shell_hamming_upto(a: Seq<u8>, b: Seq<u8>, want_rate: bool, n: int) -> (nat, nat)
    decreases n,
{
    if n <= 0 {
        (0, 0)
    } else {
        let prev = shell_hamming_upto(a, b, want_rate, n - 1);
        if is_rate_spec(n - 1) == want_rate {
            (prev.0 + popcount(a[n - 1] ^ b[n - 1]), prev.1 + 8)
        } else {
            prev
        }
    }
}

/// OR of the differences a[i] ^ b[i] over cells 0..n.
pub open spec fn diff_or_upto(a: Seq<u8>, b: Seq<u8>, n: int) -> u8
    decreases n,
{
    if n <= 0 {
        0u8
    } else {
        diff_or_upto(a, b, n - 1) | (a[n - 1] ^ b[n - 1])
    }
}

/// Number of set bits over cells 0..n.
pub open spec fn weight_upto(c: Seq<u8>, n: int) -> nat
    decreases n,
{
    if n <= 0 {
        0
    } else {
        weight_upto(c, n - 1) + popcount(c[n - 1])
    }
}

/// Bit `bit` of the rate: bit bit % 8 of rate cell bit / 8.
pub open spec fn rate_bit_spec(state: Seq<u8>, rate: Seq<usize>, bit: int) -> u8 {
    (state[rate[bit / 8] as int] >> ((bit % 8) as u8)) & 1u8
}

/// XOR of the rate bits listed in mask[0..n].
pub open spec fn parity_upto(state: Seq<u8>, rate: Seq<usize>, mask: Seq<usize>, n: int) -> u8
    decreases n,
{
    if n <= 0 {
        0u8
    } else {
        parity_upto(state, rate, mask, n - 1) ^ rate_bit_spec(state, rate, mask[n - 1] as int)
    }
}

/// A rate description whose cells are all cells of the cube.
pub open spec fn rate_ok(rate: Seq<usize>) -> bool {
    forall|i: int| 0 <= i < rate.len() ==> #[trigger] rate[i] < 512
}

/// The state the sponge sees for a rate input: rate cells filled from `bytes`,
/// capacity zero.
pub open spec fn make_state_spec(rate: Seq<usize>, bytes: Seq<u8>) -> Seq<u8> {
    write_cells(Seq::new(512, |i: int| 0u8), rate, bytes, rate.len() as int)
}

/// The output of one distinguisher sample drawn from generator state `x`: a random
/// rate input, capacity zero, `rounds` rounds.
pub open spec fn sample_output(rate: Seq<usize>, rounds: u32, x: u64) -> Seq<u8> {
    permute_r_spec(make_state_spec(rate, random_seq(x, rate.len())), rounds as nat)
}

/// Generator state after `t` samples.
pub open spec fn after_samples(rate: Seq<usize>, x: u64, t: nat) -> u64 {
    xorshift_iter(x, t * rate.len())
}

/// Per-bit count, over samples 0..t, of output rate bits equal to one.
pub open spec fn bias_counts(rate: Seq<usize>, rate_bits: nat, rounds: u32, x: u64, t: nat) -> Seq<u64>
    decreases t,
{
    if t == 0 {
        Seq::new(rate_bits, |b: int| 0u64)
    } else {
        let prev = bias_counts(rate, rate_bits, rounds, x, (t - 1) as nat);
        let y = sample_output(rate, rounds, after_samples(rate, x, (t - 1) as nat));
        Seq::new(rate_bits, |b: int| (prev[b] + rate_bit_spec(y, rate, b)) as u64)
    }
}

/// The input of one differential sample with rate input bit `input_bit` flipped.
pub open spec fn flipped_input(rate: Seq<usize>, input_bit: int, x: u64) -> Seq<u8> {
    let x0 = make_state_spec(rate, random_seq(x, rate.len()));
    let c = rate[input_bit / 8] as int;
    x0.update(c, x0[c] ^ (1u8 << ((input_bit % 8) as u8)))
}

/// Per-bit count, over samples 0..t, of output rate bits that flip when rate
/// input bit `input_bit` is flipped.
pub open spec fn flip_counts(rate: Seq<usize>, rate_bits: nat, rounds: u32, input_bit: int, x: u64, t: nat) -> Seq<u64>
    decreases t,
{
    if t == 0 {
        Seq::new(rate_bits, |b: int| 0u64)
    } else {
        let prev = flip_counts(rate, rate_bits, rounds, input_bit, x, (t - 1) as nat);
        let xs = after_samples(rate, x, (t - 1) as nat);
        let y0 = sample_output(rate, rounds, xs);
        let y1 = permute_r_spec(flipped_input(rate, input_bit, xs), rounds as nat);
        Seq::new(
            rate_bits,
            |b: int| (prev[b] + (rate_bit_spec(y0, rate, b) ^ rate_bit_spec(y1, rate, b))) as u64,
        )
    }
}

/// Count, over samples 0..t, of samples where parity(in-mask of the input) XOR
/// parity(out-mask of the output) is one.
pub open spec fn linear_count(rate: Seq<usize>, rounds: u32, mask_in: Seq<usize>, mask_out: Seq<usize>, x: u64, t: nat) -> nat
    decreases t,
{
    if t == 0 {
        0
    } else {
        let xs = after_samples(rate, x, (t - 1) as nat);
        let input = make_state_spec(rate, random_seq(xs, rate.len()));
        let y = permute_r_spec(input, rounds as nat);
        linear_count(rate, rounds, mask_in, mask_out, x, (t - 1) as nat) + ((parity_upto(
            input,
            rate,
            mask_in,
            mask_in.len() as int,
        ) ^ parity_upto(y, rate, mask_out, mask_out.len() as int)) as nat)
    }
}

// ---------------------------------------------------------------------------
// Lemmas
// ---------------------------------------------------------------------------

/// A byte has at most 8 set bits.
pub proof fn lemma_popcount_bound(x: u8, n: nat)
    requires
        n <= 8,
    ensures
        popcount_upto(x, n) <= n,
    decreases n,
{
    if n > 0 {
        lemma_popcount_bound(x, (n - 1) as nat);
        let sh: u8 = (n - 1) as u8;
        assert(((x >> sh) & 1u8) <= 1u8) by (bit_vector);
    }
}

/// The zero byte has no set bits.
proof fn lemma_popcount_zero(n: nat)
    requires
        n <= 8,
    ensures
        popcount_upto(0u8, n) == 0,
    decreases n,
{
    if n > 0 {
        lemma_popcount_zero((n - 1) as nat);
        let sh: u8 = (n - 1) as u8;
        assert((0u8 >> sh) & 1u8 == 0u8) by (bit_vector);
    }
}

/// Hamming distance over n cells is at most 8n.
pub proof fn lemma_hamming_bound(a: Seq<u8>, b: Seq<u8>, n: int)
    requires
        n >= 0,
    ensures
        hamming_upto(a, b, n) <= 8 * n,
    decreases n,
{
    if n > 0 {
        lemma_hamming_bound(a, b, n - 1);
        lemma_popcount_bound(a[n - 1] ^ b[n - 1], 8);
    }
}

/// Shell Hamming counts over n cells are at most 8n each.
pub proof fn lemma_shell_hamming_bound(a: Seq<u8>, b: Seq<u8>, want_rate: bool, n: int)
    requires
        n >= 0,
    ensures
        shell_hamming_upto(a, b, want_rate, n).0 <= shell_hamming_upto(a, b, want_rate, n).1,
        shell_hamming_upto(a, b, want_rate, n).1 <= 8 * n,
    decreases n,
{
    if n > 0 {
        lemma_shell_hamming_bound(a, b, want_rate, n - 1);
        lemma_popcount_bound(a[n - 1] ^ b[n - 1], 8);
    }
}

/// The Hamming distance of a state to itself is zero.
pub proof fn lemma_hamming_self(a: Seq<u8>, n: int)
    ensures
        hamming_upto(a, a, n) == 0,
    decreases n,
{
    if n > 0 {
        lemma_hamming_self(a, n - 1);
        let x = a[n - 1];
        assert(x ^ x == 0u8) by (bit_vector);
        lemma_popcount_zero(8);
    }
}

/// The Hamming distance is symmetric.
pub proof fn lemma_hamming_symmetric(a: Seq<u8>, b: Seq<u8>, n: int)
    ensures
        hamming_upto(a, b, n) == hamming_upto(b, a, n),
    decreases n,
{
    if n > 0 {
        lemma_hamming_symmetric(a, b, n - 1);
        let x = a[n - 1];
        let y = b[n - 1];
        assert(x ^ y == y ^ x) by (bit_vector);
    }
}

/// Weight over n cells is at most 8n.
pub proof fn lemma_weight_bound(c: Seq<u8>, n: int)
    requires
        n >= 0,
    ensures
        weight_upto(c, n) <= 8 * n,
    decreases n,
{
    if n > 0 {
        lemma_weight_bound(c, n - 1);
        lemma_popcount_bound(c[n - 1], 8);
    }
}

// ---------------------------------------------------------------------------
// Executable measurements
// ---------------------------------------------------------------------------

/// Number of set bits of a byte.
pub fn count_ones8(x: u8) -> (r: u32)
    ensures
        r == popcount(x),
        r <= 8,
{
    let mut r: u32 = 0;
    let mut k: u8 = 0;
    while k < 8
        invariant
            k <= 8,
            r == popcount_upto(x, k as nat),
            r <= k,
        decreases 8 - k,
    {
        let bit: u8 = (x >> k) & 1;
        proof {
            assert(((x >> k) & 1u8) <= 1u8) by (bit_vector);
        }
        r = r + bit as u32;
        k = k + 1;
    }
    r
}

/// Number of bit positions where two states differ.
pub fn hamming(a: &Cube, b: &Cube) -> (r: u32)
    ensures
        r == hamming_upto(a@, b@, 512),
{
    let mut r: u32 = 0;
    let mut i: usize = 0;
    while i < CELLS
        invariant
            i <= 512,
            r == hamming_upto(a@, b@, i as int),
        decreases 512 - i,
    {
        proof {
            lemma_hamming_bound(a@, b@, i as int);
        }
        r = r + count_ones8(a[i] ^ b[i]);
        i = i + 1;
    }
    r
}

/// Differing bits and total bits over the rate cells (`want_rate`) or over the
/// capacity cells (otherwise).
pub fn shell_hamming(a: &Cube, b: &Cube, want_rate: bool) -> (r: (u32, u32))
    ensures
        r.0 == shell_hamming_upto(a@, b@, want_rate, 512).0,
        r.1 == shell_hamming_upto(a@, b@, want_rate, 512).1,
{
    let mut diff: u32 = 0;
    let mut total: u32 = 0;
    let mut i: usize = 0;
    while i < CELLS
        invariant
            i <= 512,
            diff == shell_hamming_upto(a@, b@, want_rate, i as int).0,
            total == shell_hamming_upto(a@, b@, want_rate, i as int).1,
        decreases 512 - i,
    {
        proof {
            lemma_shell_hamming_bound(a@, b@, want_rate, i as int);
        }
        if is_rate(i) == want_rate {
            diff = diff + count_ones8(a[i] ^ b[i]);
            total = total + 8;
        }
        i = i + 1;
    }
    (diff, total)
}

/// How many of the 8 bit-planes the difference between two states reaches: the
/// set bits of the OR of every difference byte.
pub fn planes_touched(a: &Cube, b: &Cube) -> (r: u32)
    ensures
        r == popcount(diff_or_upto(a@, b@, 512)),
{
    let mut mask: u8 = 0;
    let mut i: usize = 0;
    while i < CELLS
        invariant
            i <= 512,
            mask == diff_or_upto(a@, b@, i as int),
        decreases 512 - i,
    {
        mask = mask | (a[i] ^ b[i]);
        i = i + 1;
    }
    count_ones8(mask)
}

/// Cellwise XOR of two states.
pub fn xor_cube(a: &Cube, b: &Cube) -> (o: Cube)
    ensures
        forall|i: int| 0 <= i < 512 ==> #[trigger] o@[i] == a@[i] ^ b@[i],
{
    let mut o: Cube = [0u8; 512];
    let mut i: usize = 0;
    while i < CELLS
        invariant
            i <= 512,
            forall|j: int| 0 <= j < i ==> #[trigger] o@[j] == a@[j] ^ b@[j],
        decreases 512 - i,
    {
        o[i] = a[i] ^ b[i];
        i = i + 1;
    }
    o
}

/// Number of set bits of a state.
pub fn weight(c: &Cube) -> (r: u32)
    ensures
        r == weight_upto(c@, 512),
{
    let mut r: u32 = 0;
    let mut i: usize = 0;
    while i < CELLS
        invariant
            i <= 512,
            r == weight_upto(c@, i as int),
        decreases 512 - i,
    {
        proof {
            lemma_weight_bound(c@, i as int);
        }
        r = r + count_ones8(c[i]);
        i = i + 1;
    }
    r
}

/// Build a full state the way a fresh sponge's absorb sees it: capacity cells
/// zero, rate cells filled from `rate_bytes`.
pub fn make_state(rate: &[usize], rate_bytes: &[u8]) -> (s: Cube)
    requires
        rate_ok(rate@),
        rate_bytes@.len() >= rate@.len(),
    ensures
        s@ == make_state_spec(rate@, rate_bytes@),
{
    let mut s: Cube = [0u8; 512];
    assert(s@ =~= write_cells(Seq::new(512, |i: int| 0u8), rate@, rate_bytes@, 0));
    let mut n: usize = 0;
    while n < rate.len()
        invariant
            rate_ok(rate@),
            rate_bytes@.len() >= rate@.len(),
            n <= rate@.len(),
            s@ == write_cells(Seq::new(512, |i: int| 0u8), rate@, rate_bytes@, n as int),
        decreases rate@.len() - n,
    {
        s[rate[n]] = rate_bytes[n];
        assert(s@ =~= write_cells(Seq::new(512, |i: int| 0u8), rate@, rate_bytes@, n + 1));
        n = n + 1;
    }
    s
}

/// Bit `bit` of the rate of a state: bit bit % 8 of rate cell bit / 8.
pub fn get_rate_bit(state: &Cube, rate: &[usize], bit: usize) -> (r: u8)
    requires
        bit / 8 < rate@.len(),
        rate@[(bit / 8) as int] < 512,
    ensures
        r == rate_bit_spec(state@, rate@, bit as int),
        r <= 1,
{
    let r: u8 = (state[rate[bit / 8]] >> ((bit % 8) as u8)) & 1;
    proof {
        let x = state@[rate@[(bit / 8) as int] as int];
        let sh = (bit % 8) as u8;
        assert((x >> sh) & 1u8 <= 1u8) by (bit_vector);
    }
    r
}

/// XOR of the rate bits listed in `mask`.
pub fn parity_over_mask(state: &Cube, rate: &[usize], mask: &[usize]) -> (r: u8)
    requires
        forall|k: int|
            0 <= k < mask@.len() ==> #[trigger] mask@[k] / 8 < rate@.len() && rate@[(mask@[k] / 8) as int] < 512,
    ensures
        r == parity_upto(state@, rate@, mask@, mask@.len() as int),
{
    let mut acc: u8 = 0;
    let mut k: usize = 0;
    while k < mask.len()
        invariant
            forall|t: int|
                0 <= t < mask@.len() ==> #[trigger] mask@[t] / 8 < rate@.len() && rate@[(mask@[t] / 8) as int] < 512,
            k <= mask@.len(),
            acc == parity_upto(state@, rate@, mask@, k as int),
        decreases mask@.len() - k,
    {
        acc = acc ^ get_rate_bit(state, rate, mask[k]);
        k = k + 1;
    }
    acc
}

/// One sample's generator state advances by one byte per rate cell.
proof fn lemma_after_samples_step(rate: Seq<usize>, x: u64, t: nat)
    ensures
        xorshift_iter(after_samples(rate, x, t), rate.len()) == after_samples(rate, x, t + 1),
{
    crate::rng::lemma_xorshift_iter_add(x, t * rate.len(), rate.len());
    assert(t * rate.len() + rate.len() == (t + 1) * rate.len()) by (nonlinear_arith);
}

/// Test A of the distinguisher, counting part: over `trials` samples with the
/// capacity fixed at zero and a random rate input, how often is each of the
/// first `rate_bits` output rate bits one?
pub fn bit_bias_counts(rate: &[usize], rate_bits: usize, rounds: u32, trials: usize, rng: &mut u64) -> (ones: Vec<u64>)
    requires
        rate_ok(rate@),
        rate_bits <= 8 * rate@.len(),
    ensures
        ones@ == bias_counts(rate@, rate_bits as nat, rounds, *old(rng), trials as nat),
        *final(rng) == after_samples(rate@, *old(rng), trials as nat),
{
    let ghost x0 = *rng;
    let mut ones: Vec<u64> = vec![0u64; rate_bits];
    assert(ones@ =~= bias_counts(rate@, rate_bits as nat, rounds, x0, 0));
    let mut t: usize = 0;
    while t < trials
        invariant
            rate_ok(rate@),
            rate_bits <= 8 * rate@.len(),
            t <= trials,
            ones@ == bias_counts(rate@, rate_bits as nat, rounds, x0, t as nat),
            forall|b: int| 0 <= b < rate_bits ==> #[trigger] ones@[b] <= t,
            *rng == after_samples(rate@, x0, t as nat),
        decreases trials - t,
    {
        let ghost xs = *rng;
        let ghost prev = ones@;
        let rb = random_bytes(rng, rate.len());
        let x = make_state(rate, &rb);
        let y = permute_r(&x, rounds);
        proof {
            lemma_after_samples_step(rate@, x0, t as nat);
            lemma_permute_r_len(x@, rounds as nat);
        }
        let mut b: usize = 0;
        while b < rate_bits
            invariant
                rate_ok(rate@),
                rate_bits <= 8 * rate@.len(),
                t < trials,
                b <= rate_bits,
                prev.len() == rate_bits,
                ones@.len() == rate_bits,
                forall|j: int| 0 <= j < rate_bits ==> #[trigger] prev[j] <= t,
                forall|j: int| 0 <= j < b ==> #[trigger] ones@[j] == prev[j] + rate_bit_spec(y@, rate@, j),
                forall|j: int| 0 <= j < b ==> #[trigger] ones@[j] <= t + 1,
                forall|j: int| b <= j < rate_bits ==> #[trigger] ones@[j] == prev[j],
            decreases rate_bits - b,
        {
            let bit: u8 = get_rate_bit(&y, rate, b);
            let v: u64 = ones[b] + bit as u64;
            ones.set(b, v);
            b = b + 1;
        }
        assert(ones@ =~= bias_counts(rate@, rate_bits as nat, rounds, x0, (t + 1) as nat));
        t = t + 1;
    }
    ones
}

/// Test B of the distinguisher, counting part: over `trials` samples, how often
/// does each of the first `rate_bits` output rate bits flip when rate input bit
/// `input_bit` is flipped?
pub fn differential_counts(rate: &[usize], rate_bits: usize, rounds: u32, input_bit: usize, trials: usize, rng: &mut u64) -> (flips: Vec<u64>)
    requires
        rate_ok(rate@),
        rate_bits <= 8 * rate@.len(),
        input_bit / 8 < rate@.len(),
    ensures
        flips@ == flip_counts(rate@, rate_bits as nat, rounds, input_bit as int, *old(rng), trials as nat),
        *final(rng) == after_samples(rate@, *old(rng), trials as nat),
{
    let ghost x0 = *rng;
    let mut flips: Vec<u64> = vec![0u64; rate_bits];
    assert(flips@ =~= flip_counts(rate@, rate_bits as nat, rounds, input_bit as int, x0, 0));
    let mut t: usize = 0;
    while t < trials
        invariant
            rate_ok(rate@),
            rate_bits <= 8 * rate@.len(),
            input_bit / 8 < rate@.len(),
            t <= trials,
            flips@ == flip_counts(rate@, rate_bits as nat, rounds, input_bit as int, x0, t as nat),
            forall|b: int| 0 <= b < rate_bits ==> #[trigger] flips@[b] <= t,
            *rng == after_samples(rate@, x0, t as nat),
        decreases trials - t,
    {
        let ghost prev = flips@;
        let ghost xs = *rng;
        let rb = random_bytes(rng, rate.len());
        let x0s = make_state(rate, &rb);
        let mut x1: Cube = x0s;
        let c: usize = rate[input_bit / 8];
        x1[c] = x1[c] ^ (1u8 << ((input_bit % 8) as u8));
        assert(x1@ =~= flipped_input(rate@, input_bit as int, xs));
        let y0 = permute_r(&x0s, rounds);
        let y1 = permute_r(&x1, rounds);
        proof {
            lemma_after_samples_step(rate@, x0, t as nat);
            lemma_permute_r_len(x0s@, rounds as nat);
            lemma_permute_r_len(x1@, rounds as nat);
        }
        let mut b: usize = 0;
        while b < rate_bits
            invariant
                rate_ok(rate@),
                rate_bits <= 8 * rate@.len(),
                t < trials,
                b <= rate_bits,
                prev.len() == rate_bits,
                flips@.len() == rate_bits,
                forall|j: int| 0 <= j < rate_bits ==> #[trigger] prev[j] <= t,
                forall|j: int|
                    0 <= j < b ==> #[trigger] flips@[j] == prev[j] + (rate_bit_spec(y0@, rate@, j)
                        ^ rate_bit_spec(y1@, rate@, j)),
                forall|j: int| 0 <= j < b ==> #[trigger] flips@[j] <= t + 1,
                forall|j: int| b <= j < rate_bits ==> #[trigger] flips@[j] == prev[j],
            decreases rate_bits - b,
        {
            let d0: u8 = get_rate_bit(&y0, rate, b);
            let d1: u8 = get_rate_bit(&y1, rate, b);
            let d: u8 = d0 ^ d1;
            proof {
                assert(d0 <= 1 && d1 <= 1 ==> d0 ^ d1 <= 1) by (bit_vector);
            }
            let v: u64 = flips[b] + d as u64;
            flips.set(b, v);
            b = b + 1;
        }
        assert(flips@ =~= flip_counts(rate@, rate_bits as nat, rounds, input_bit as int, x0, (t + 1) as nat));
        t = t + 1;
    }
    flips
}

/// Test C of the distinguisher, counting part: over `samples` samples, how often is
/// parity(mask_in of the input) XOR parity(mask_out of the output) one?
pub fn linear_ones(rate: &[usize], rounds: u32, mask_in: &[usize], mask_out: &[usize], samples: usize, rng: &mut u64) -> (ones: u64)
    requires
        rate_ok(rate@),
        forall|k: int| 0 <= k < mask_in@.len() ==> #[trigger] mask_in@[k] / 8 < rate@.len(),
        forall|k: int| 0 <= k < mask_out@.len() ==> #[trigger] mask_out@[k] / 8 < rate@.len(),
    ensures
        ones == linear_count(rate@, rounds, mask_in@, mask_out@, *old(rng), samples as nat),
        *final(rng) == after_samples(rate@, *old(rng), samples as nat),
        mask_in@.len() == 0 && mask_out@.len() == 1 ==> ones == bias_counts(
            rate@,
            (mask_out@[0] + 1) as nat,
            rounds,
            *old(rng),
            samples as nat,
        )[mask_out@[0] as int],
{
    proof {
        if mask_in@.len() == 0 && mask_out@.len() == 1 {
            assert(mask_in@ == Seq::<usize>::empty());
            assert(mask_out@ == seq![mask_out@[0]]);
            lemma_linear_single_bit_is_bias(rate@, (mask_out@[0] + 1) as nat, rounds, mask_out@[0], *old(rng), samples as nat);
        }
    }
    let ghost x0 = *rng;
    let mut ones: u64 = 0;
    let mut t: usize = 0;
    while t < samples
        invariant
            rate_ok(rate@),
            forall|k: int| 0 <= k < mask_in@.len() ==> #[trigger] mask_in@[k] / 8 < rate@.len(),
            forall|k: int| 0 <= k < mask_out@.len() ==> #[trigger] mask_out@[k] / 8 < rate@.len(),
            t <= samples,
            ones == linear_count(rate@, rounds, mask_in@, mask_out@, x0, t as nat),
            ones <= t,
            *rng == after_samples(rate@, x0, t as nat),
        decreases samples - t,
    {
        let rb = random_bytes(rng, rate.len());
        let x = make_state(rate, &rb);
        let y = permute_r(&x, rounds);
        proof {
            lemma_after_samples_step(rate@, x0, t as nat);
            lemma_permute_r_len(x@, rounds as nat);
        }
        let pin: u8 = parity_over_mask(&x, rate, mask_in);
        let pout: u8 = parity_over_mask(&y, rate, mask_out);
        let bit: u8 = pin ^ pout;
        proof {
            lemma_parity_bit(x@, rate@, mask_in@, mask_in@.len() as int);
            lemma_parity_bit(y@, rate@, mask_out@, mask_out@.len() as int);
            assert(pin <= 1 && pout <= 1 ==> pin ^ pout <= 1) by (bit_vector);
        }
        ones = ones + bit as u64;
        t = t + 1;
    }
    ones
}

/// A parity is a single bit.
proof fn lemma_parity_bit(state: Seq<u8>, rate: Seq<usize>, mask: Seq<usize>, n: int)
    ensures
        parity_upto(state, rate, mask, n) <= 1,
    decreases n,
{
    if n > 0 {
        lemma_parity_bit(state, rate, mask, n - 1);
        let p = parity_upto(state, rate, mask, n - 1);
        let bit = mask[n - 1] as int;
        let x = state[rate[bit / 8] as int];
        let sh = (bit % 8) as u8;
        assert(p <= 1 ==> p ^ ((x >> sh) & 1u8) <= 1) by (bit_vector);
    }
}

/// Each linear sample adds one exactly when the in-mask parity of its random
/// input differs from the out-mask parity of that input after `rounds` rounds
/// (the distinguisher's sample output), and nothing otherwise.
pub proof fn lemma_linear_count_step(rate: Seq<usize>, rounds: u32, mask_in: Seq<usize>, mask_out: Seq<usize>, x: u64, t: nat)
    ensures
        ({
            let xs = after_samples(rate, x, t);
            let input = make_state_spec(rate, random_seq(xs, rate.len()));
            let pin = parity_upto(input, rate, mask_in, mask_in.len() as int);
            let pout = parity_upto(sample_output(rate, rounds, xs), rate, mask_out, mask_out.len() as int);
            linear_count(rate, rounds, mask_in, mask_out, x, t + 1) == linear_count(rate, rounds, mask_in, mask_out, x, t)
                + if pin == pout { 0nat } else { 1nat }
        }),
{
    let xs = after_samples(rate, x, t);
    let input = make_state_spec(rate, random_seq(xs, rate.len()));
    let y = permute_r_spec(input, rounds as nat);
    let pin = parity_upto(input, rate, mask_in, mask_in.len() as int);
    let pout = parity_upto(y, rate, mask_out, mask_out.len() as int);
    lemma_parity_bit(input, rate, mask_in, mask_in.len() as int);
    lemma_parity_bit(y, rate, mask_out, mask_out.len() as int);
    assert(pin <= 1 && pout <= 1 ==> (pin ^ pout) == (if pin == pout { 0u8 } else { 1u8 })) by (bit_vector);
    assert((t + 1 - 1) as nat == t);
}

/// The linear count with an empty in-mask and the single out-mask bit b is the
/// bias count of output bit b over the same samples: both count the samples
/// whose output bit b after `rounds` rounds is one.
pub proof fn lemma_linear_single_bit_is_bias(rate: Seq<usize>, rate_bits: nat, rounds: u32, b: usize, x: u64, t: nat)
    requires
        0 <= b < rate_bits,
        t <= 0xFFFF_FFFF_FFFF_FFFF,
    ensures
        linear_count(rate, rounds, Seq::empty(), seq![b], x, t) == bias_counts(rate, rate_bits, rounds, x, t)[b as int],
        bias_counts(rate, rate_bits, rounds, x, t)[b as int] <= t,
    decreases t,
{
    if t > 0 {
        let m = (t - 1) as nat;
        lemma_linear_single_bit_is_bias(rate, rate_bits, rounds, b, x, m);
        let xs = after_samples(rate, x, m);
        let y = sample_output(rate, rounds, xs);
        let mo = seq![b];
        let v = rate_bit_spec(y, rate, b as int);
        assert(mo[0] == b);
        assert(parity_upto(y, rate, mo, 1) == parity_upto(y, rate, mo, 0) ^ v);
        let cell = y[rate[b as int / 8] as int];
        let sh = ((b as int % 8) as u8);
        assert((cell >> sh) & 1u8 <= 1u8) by (bit_vector);
        assert(v <= 1 ==> (0u8 ^ (0u8 ^ v)) == v) by (bit_vector);
        assert(bias_counts(rate, rate_bits, rounds, x, t)[b as int] == (bias_counts(rate, rate_bits, rounds, x, m)[b as int] + v) as u64);
    }
}

/// How far a count of ones over `trials` lies from half the trials, doubled:
/// |2 count - trials|. The z-score of the count is this over sqrt(trials), so
/// comparing deviations compares the size of z-scores.
pub open spec fn deviation_spec(count: u64, trials: u64) -> int {
    let d = 2 * count - trials;
    if d >= 0 { d } else { -d }
}

/// |2 count - trials|.
pub fn deviation(count: u64, trials: u64) -> (d: u128)
    ensures
        d == deviation_spec(count, trials),
{
    let two: u128 = 2 * (count as u128);
    let t: u128 = trials as u128;
    if two >= t {
        two - t
    } else {
        t - two
    }
}

/// The most biased of several counts over `trials` each: the largest deviation
/// and the first index that has it, or (0, 0) when every deviation is 0 (no
/// count stands out from half).
pub fn worst_deviation(counts: &[u64], trials: u64) -> (r: (usize, u128))
    ensures
        forall|b: int| 0 <= b < counts@.len() ==> deviation_spec(#[trigger] counts@[b], trials) <= r.1,
        r.1 > 0 ==> r.0 < counts@.len() && deviation_spec(counts@[r.0 as int], trials) == r.1,
        r.1 > 0 ==> forall|b: int| 0 <= b < r.0 ==> deviation_spec(#[trigger] counts@[b], trials) < r.1,
        r.1 == 0 ==> r.0 == 0,
{
    let mut best: usize = 0;
    let mut best_dev: u128 = 0;
    let mut b: usize = 0;
    while b < counts.len()
        invariant
            b <= counts@.len(),
            forall|j: int| 0 <= j < b ==> deviation_spec(#[trigger] counts@[j], trials) <= best_dev,
            best_dev > 0 ==> best < b && deviation_spec(counts@[best as int], trials) == best_dev,
            best_dev > 0 ==> forall|j: int| 0 <= j < best ==> deviation_spec(#[trigger] counts@[j], trials) < best_dev,
            best_dev == 0 ==> best == 0,
        decreases counts@.len() - b,
    {
        let d = deviation(counts[b], trials);
        if d > best_dev {
            best = b;
            best_dev = d;
        }
        b = b + 1;
    }
    (best, best_dev)
}

} // verus!
