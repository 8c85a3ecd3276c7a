//! The two searches of the cube attack: picking target output bits whose
//! dependency cones reach both the key and the nonce, and trying cubes on those
//! targets to collect linear equations in the key.
use vstd::prelude::*;
use crate::cube_attack::{
    blr_linear, blr_spec, coeffs_upto, cube_sum, key_influence, key_influence_upto, nonce_influence,
    nonce_influence_upto, nonconstant_spec, out_bit_ok, pick_cube, pick_cube_from,
    superpoly, superpoly_coeffs, superpoly_nonconstant, zero_key, Key, key_parity, lemma_byte_bits,
    lemma_coeffs_are_linear_part, lemma_key_parity_same_bits, lemma_key_parity_unit, superpoly_affine,
    unit_key_spec,
};
use crate::gf2::has_bit;
use crate::rng::{xorshift, xorshift_step};

verus! {

// ---------------------------------------------------------------------------
// Mathematical model
// ---------------------------------------------------------------------------

/// The search stops collecting once it holds this many equations.
pub const MAX_EQUATIONS: usize = 136;

/// `count` output bits drawn as next() % total, and the generator state after.
pub open spec fn sampled_bits(total: u64, count: nat, x: u64) -> (Seq<usize>, u64)
    decreases count,
{
    if count == 0 {
        (Seq::empty(), x)
    } else {
        let prev = sampled_bits(total, (count - 1) as nat, x);
        let x1 = xorshift_step(prev.1);
        (prev.0.push((x1 % total) as usize), x1)
    }
}

/// A target as the model sees it: output bit, key cone, nonce cone.
pub open spec fn targets_view(t: Seq<(usize, Vec<usize>, Vec<usize>)>) -> Seq<(usize, Seq<usize>, Seq<usize>)> {
    t.map_values(|e: (usize, Vec<usize>, Vec<usize>)| (e.0, e.1@, e.2@))
}

/// A target the cube search can work on: its output bit is readable, its key
/// cone holds key bits and its nonce cone holds nonce bits.
pub open spec fn target_ok(t: (usize, Seq<usize>, Seq<usize>), rate: Seq<usize>) -> bool {
    &&& out_bit_ok(rate, t.0 as int)
    &&& forall|j: int| 0 <= j < t.1.len() ==> #[trigger] t.1[j] < 128
    &&& forall|j: int| 0 <= j < t.2.len() ==> #[trigger] t.2[j] < 512
}

/// Every target is one the cube search can work on.
pub open spec fn targets_ok(ts: Seq<(usize, Seq<usize>, Seq<usize>)>, rate: Seq<usize>) -> bool {
    forall|k: int| 0 <= k < ts.len() ==> target_ok(#[trigger] ts[k], rate)
}

/// Where the target scan stands: targets so far, output bits with a nonempty key
/// cone, the sum of their key-cone sizes, the sum and number of nonce cones
/// measured, and the generator state.
pub struct Scan {
    pub targets: Seq<(usize, Seq<usize>, Seq<usize>)>,
    pub with_key: nat,
    pub ksum: nat,
    pub nsum: nat,
    pub ncount: nat,
    pub x: u64,
}

/// The target scan over scan[k..]: for each output bit, measure its key cone;
/// skip it when empty; otherwise count it, and while fewer than `max_t` targets
/// are held, measure its nonce cone and keep the bit as a target when that cone
/// has at least two bits.
pub open spec fn scan_run(scan: Seq<usize>, k: nat, r: u32, rate: Seq<usize>, probes: nat, max_t: nat, s: Scan) -> Scan
    decreases scan.len() - k,
{
    if k >= scan.len() {
        s
    } else {
        let o = scan[k as int];
        let kp = key_influence_upto(o as int, r, rate, probes, s.x, 128);
        if kp.0.len() == 0 {
            scan_run(scan, k + 1, r, rate, probes, max_t,
                Scan { targets: s.targets, with_key: s.with_key, ksum: s.ksum, nsum: s.nsum, ncount: s.ncount, x: kp.1 })
        } else if s.targets.len() >= max_t {
            scan_run(scan, k + 1, r, rate, probes, max_t,
                Scan { targets: s.targets, with_key: s.with_key + 1, ksum: s.ksum + kp.0.len(), nsum: s.nsum, ncount: s.ncount, x: kp.1 })
        } else {
            let np = nonce_influence_upto(o as int, r, rate, probes, kp.1, 512);
            scan_run(scan, k + 1, r, rate, probes, max_t,
                Scan {
                    targets: if np.0.len() >= 2 { s.targets.push((o, kp.0, np.0)) } else { s.targets },
                    with_key: s.with_key + 1,
                    ksum: s.ksum + kp.0.len(),
                    nsum: s.nsum + np.0.len(),
                    ncount: s.ncount + 1,
                    x: np.1,
                })
        }
    }
}

/// Where the cube search stands: equations so far, cubes tried, linear
/// superpolys found, the generator state, and whether it has stopped.
pub struct Search {
    pub eqs: Seq<(u128, u8)>,
    pub tried: nat,
    pub found: nat,
    pub x: u64,
    pub done: bool,
}

/// The search state held in plain values.
pub open spec fn search_state(eqs: Seq<(u128, u8)>, tried: usize, found: usize, x: u64, done: bool) -> Search {
    Search { eqs: eqs, tried: tried as nat, found: found as nat, x: x, done: done }
}

/// One cube attempt on target (o, ki, ni) with `d` cube bits: draw a cube from
/// the nonce cone; a short draw tries nothing. Otherwise the cube counts as
/// tried; it yields an equation when its superpoly is nonconstant on three random
/// keys, passes five BLR linearity trials and has a nonzero linear part. The
/// equation is the linear part and the secret's superpoly value minus p(0).
pub open spec fn attempt(o: usize, ki: Seq<usize>, ni: Seq<usize>, r: u32, rate: Seq<usize>, secret: Seq<u8>, d: nat, s: Search) -> Search {
    let pc = pick_cube_from(ni, d, s.x, Seq::empty(), 0);
    let cube = pc.0;
    if cube.len() < d {
        Search { eqs: s.eqs, tried: s.tried, found: s.found, x: pc.1, done: s.done }
    } else {
        let c0 = superpoly(zero_key(), cube, r, o as int, rate);
        let nc = nonconstant_spec(cube, r, o as int, rate, c0, 3, pc.1);
        if !nc.0 {
            Search { eqs: s.eqs, tried: s.tried + 1, found: s.found, x: nc.1, done: s.done }
        } else {
            let lin = blr_spec(cube, r, o as int, rate, c0, 5, nc.1);
            let mask = coeffs_upto(cube, r, o as int, rate, ki, c0, ki.len() as int);
            if !lin.0 || mask == 0 {
                Search { eqs: s.eqs, tried: s.tried + 1, found: s.found, x: lin.1, done: s.done }
            } else {
                Search {
                    eqs: s.eqs.push((mask, superpoly(secret, cube, r, o as int, rate) ^ c0)),
                    tried: s.tried + 1,
                    found: s.found + 1,
                    x: lin.1,
                    done: s.done,
                }
            }
        }
    }
}

/// `n` more attempts with `d` cube bits; the search stops for good once the
/// budget of tried cubes is spent or MAX_EQUATIONS equations are held.
pub open spec fn reps_run(o: usize, ki: Seq<usize>, ni: Seq<usize>, r: u32, rate: Seq<usize>, secret: Seq<u8>, d: nat, budget: nat, n: nat, s: Search) -> Search
    decreases n,
{
    if n == 0 || s.done {
        s
    } else if s.tried >= budget || s.eqs.len() >= MAX_EQUATIONS {
        Search { eqs: s.eqs, tried: s.tried, found: s.found, x: s.x, done: true }
    } else {
        reps_run(o, ki, ni, r, rate, secret, d, budget, (n - 1) as nat, attempt(o, ki, ni, r, rate, secret, d, s))
    }
}

/// Attempts per cube size: the budget shared out over the targets and the cube
/// sizes d_lo..=hi, plus one.
pub open spec fn reps_count(budget: nat, ntargets: nat, hi: nat, d_lo: nat) -> nat {
    budget / (if ntargets == 0 { 1nat } else { ntargets }) / (if hi + 1 > d_lo { (hi + 1 - d_lo) as nat } else { 1nat }) + 1
}

/// The cube sizes d..=hi of one target, in increasing order.
pub open spec fn dims_run(o: usize, ki: Seq<usize>, ni: Seq<usize>, r: u32, rate: Seq<usize>, secret: Seq<u8>, d: nat, hi: nat, d_lo: nat, budget: nat, ntargets: nat, s: Search) -> Search
    decreases hi + 1 - d,
{
    if d > hi || s.done {
        s
    } else {
        dims_run(o, ki, ni, r, rate, secret, d + 1, hi, d_lo, budget, ntargets,
            reps_run(o, ki, ni, r, rate, secret, d, budget, reps_count(budget, ntargets, hi, d_lo), s))
    }
}

/// The cube search over targets ts[k..]: a target is worked on with cube sizes
/// d_lo ..= min(d_hi, size of its nonce cone), and skipped when that range is empty.
pub open spec fn targets_run(ts: Seq<(usize, Seq<usize>, Seq<usize>)>, k: nat, r: u32, rate: Seq<usize>, secret: Seq<u8>, d_lo: nat, d_hi: nat, budget: nat, s: Search) -> Search
    decreases ts.len() - k,
{
    if k >= ts.len() || s.done {
        s
    } else {
        let t = ts[k as int];
        let hi: nat = if d_hi < t.2.len() { d_hi } else { t.2.len() };
        if hi < d_lo {
            targets_run(ts, k + 1, r, rate, secret, d_lo, d_hi, budget, s)
        } else {
            targets_run(ts, k + 1, r, rate, secret, d_lo, d_hi, budget,
                dims_run(t.0, t.1, t.2, r, rate, secret, d_lo, hi, d_lo, budget, ts.len(), s))
        }
    }
}

// ---------------------------------------------------------------------------
// Proofs
// ---------------------------------------------------------------------------

/// The key-cone scan over bits 0..m reports at most m bits.
proof fn lemma_key_influence_len(o: int, r: u32, rate: Seq<usize>, probes: nat, x: u64, m: nat)
    ensures
        key_influence_upto(o, r, rate, probes, x, m).0.len() <= m,
    decreases m,
{
    if m > 0 {
        lemma_key_influence_len(o, r, rate, probes, x, (m - 1) as nat);
    }
}

/// The nonce-cone scan over bits 0..m reports at most m bits.
proof fn lemma_nonce_influence_len(o: int, r: u32, rate: Seq<usize>, probes: nat, x: u64, m: nat)
    ensures
        nonce_influence_upto(o, r, rate, probes, x, m).0.len() <= m,
    decreases m,
{
    if m > 0 {
        lemma_nonce_influence_len(o, r, rate, probes, x, (m - 1) as nat);
    }
}

// ---------------------------------------------------------------------------
// Laws of the equation search
// ---------------------------------------------------------------------------

/// Equation e comes from cube c on target tg: every cube bit is in the target's
/// nonce cone, the right-hand side is p(secret) XOR p(0) for the cube's
/// superpoly p, and the mask is the linear part of p on the key cone (bit j is
/// set exactly when j is in the key cone and p(e_j) XOR p(0) == 1), nonzero.
pub open spec fn equation_from_cube(e: (u128, u8), tg: (usize, Seq<usize>, Seq<usize>), c: Seq<usize>, r: u32, rate: Seq<usize>, secret: Seq<u8>) -> bool {
    let p0 = superpoly(zero_key(), c, r, tg.0 as int, rate);
    &&& forall|k: int| 0 <= k < c.len() ==> tg.2.contains(#[trigger] c[k])
    &&& e.1 == superpoly(secret, c, r, tg.0 as int, rate) ^ p0
    &&& e.0 != 0
    &&& forall|j: int|
        0 <= j < 128 ==> (#[trigger] has_bit(e.0, j) <==> tg.1.contains(j as usize) && superpoly(
            unit_key_spec(j),
            c,
            r,
            tg.0 as int,
            rate,
        ) ^ p0 == 1)
}

/// Equation e comes from some cube on some target.
pub open spec fn justified(e: (u128, u8), ts: Seq<(usize, Seq<usize>, Seq<usize>)>, r: u32, rate: Seq<usize>, secret: Seq<u8>) -> bool {
    exists|t: int, c: Seq<usize>| 0 <= t < ts.len() && #[trigger] equation_from_cube(e, ts[t], c, r, rate, secret)
}

/// Every equation comes from some cube on some target.
pub open spec fn equations_justified(eqs: Seq<(u128, u8)>, ts: Seq<(usize, Seq<usize>, Seq<usize>)>, r: u32, rate: Seq<usize>, secret: Seq<u8>) -> bool {
    forall|i: int| 0 <= i < eqs.len() ==> justified(#[trigger] eqs[i], ts, r, rate, secret)
}

/// A drawn cube takes its bits from the pool.
proof fn lemma_pick_cube_in_pool(pool: Seq<usize>, d: nat, x: u64, c: Seq<usize>, guard: nat)
    requires
        pool.len() > 0 || d == 0,
        pool.len() <= 0xFFFF_FFFF_FFFF_FFFF,
        forall|k: int| 0 <= k < c.len() ==> pool.contains(#[trigger] c[k]),
    ensures
        forall|k: int| 0 <= k < pick_cube_from(pool, d, x, c, guard).0.len() ==> pool.contains(
            #[trigger] pick_cube_from(pool, d, x, c, guard).0[k],
        ),
    decreases 10000 - guard,
{
    if !(c.len() >= d || guard >= 10000) {
        let x1 = xorshift_step(x);
        let idx = (x1 % (pool.len() as u64)) as int;
        assert(0 <= idx < pool.len());
        let b = pool[idx];
        assert(pool.contains(b));
        let c2 = if c.contains(b) { c } else { c.push(b) };
        assert forall|k: int| 0 <= k < c2.len() implies pool.contains(#[trigger] c2[k]) by {
            if k < c.len() {
                assert(c2[k] == c[k]);
            }
        }
        lemma_pick_cube_in_pool(pool, d, x1, c2, guard + 1);
        assert(pick_cube_from(pool, d, x, c, guard) == pick_cube_from(pool, d, x1, c2, guard + 1));
    } else {
        assert(pick_cube_from(pool, d, x, c, guard) == (c, x));
    }
}

/// Adding an equation that comes from a cube on a target keeps every equation
/// justified.
proof fn lemma_push_justified(eqs: Seq<(u128, u8)>, e: (u128, u8), ts: Seq<(usize, Seq<usize>, Seq<usize>)>, t: int, c: Seq<usize>, r: u32, rate: Seq<usize>, secret: Seq<u8>)
    requires
        equations_justified(eqs, ts, r, rate, secret),
        0 <= t < ts.len(),
        equation_from_cube(e, ts[t], c, r, rate, secret),
    ensures
        equations_justified(eqs.push(e), ts, r, rate, secret),
{
    let e2 = eqs.push(e);
    assert forall|i: int| 0 <= i < e2.len() implies justified(#[trigger] e2[i], ts, r, rate, secret) by {
        if i < eqs.len() {
            assert(e2[i] == eqs[i]);
        } else {
            assert(e2[i] == e);
            assert(equation_from_cube(e2[i], ts[t], c, r, rate, secret));
        }
    }
}

/// One cube attempt keeps every equation justified.
proof fn lemma_attempt_justified(ts: Seq<(usize, Seq<usize>, Seq<usize>)>, t: int, r: u32, rate: Seq<usize>, secret: Seq<u8>, d: nat, s: Search)
    requires
        ts[t].2.len() <= 0xFFFF_FFFF_FFFF_FFFF,
        0 <= t < ts.len(),
        target_ok(ts[t], rate),
        d <= ts[t].2.len(),
        equations_justified(s.eqs, ts, r, rate, secret),
    ensures
        equations_justified(attempt(ts[t].0, ts[t].1, ts[t].2, r, rate, secret, d, s).eqs, ts, r, rate, secret),
{
    let tg = ts[t];
    let o = tg.0;
    let ki = tg.1;
    let ni = tg.2;
    let s2 = attempt(o, ki, ni, r, rate, secret, d, s);
    let pc = pick_cube_from(ni, d, s.x, Seq::empty(), 0);
    let cube = pc.0;
    let c0 = superpoly(zero_key(), cube, r, o as int, rate);
    let nc = nonconstant_spec(cube, r, o as int, rate, c0, 3, pc.1);
    let lin = blr_spec(cube, r, o as int, rate, c0, 5, nc.1);
    let mask = coeffs_upto(cube, r, o as int, rate, ki, c0, ki.len() as int);
    if cube.len() >= d && nc.0 && lin.0 && mask != 0 {
        let e = (mask, superpoly(secret, cube, r, o as int, rate) ^ c0);
        assert(s2.eqs == s.eqs.push(e));
        lemma_pick_cube_in_pool(ni, d, s.x, Seq::empty(), 0);
        assert forall|j: int| 0 <= j < ki.len() implies #[trigger] ki[j] < 128 by {
            assert(tg.1[j] < 128);
        }
        lemma_coeffs_are_linear_part(cube, r, o as int, rate, ki);
        assert(equation_from_cube(e, tg, cube, r, rate, secret));
        lemma_push_justified(s.eqs, e, ts, t, cube, r, rate, secret);
    } else {
        assert(s2.eqs == s.eqs);
    }
}

/// Repeated attempts keep every equation justified.
proof fn lemma_reps_justified(ts: Seq<(usize, Seq<usize>, Seq<usize>)>, t: int, r: u32, rate: Seq<usize>, secret: Seq<u8>, d: nat, budget: nat, n: nat, s: Search)
    requires
        ts[t].2.len() <= 0xFFFF_FFFF_FFFF_FFFF,
        0 <= t < ts.len(),
        target_ok(ts[t], rate),
        d <= ts[t].2.len(),
        equations_justified(s.eqs, ts, r, rate, secret),
    ensures
        equations_justified(reps_run(ts[t].0, ts[t].1, ts[t].2, r, rate, secret, d, budget, n, s).eqs, ts, r, rate, secret),
    decreases n,
{
    if n > 0 && !s.done && !(s.tried >= budget || s.eqs.len() >= MAX_EQUATIONS) {
        lemma_attempt_justified(ts, t, r, rate, secret, d, s);
        lemma_reps_justified(ts, t, r, rate, secret, d, budget, (n - 1) as nat, attempt(ts[t].0, ts[t].1, ts[t].2, r, rate, secret, d, s));
    }
}

/// The cube sizes d..=hi of one target keep every equation justified.
proof fn lemma_dims_justified(ts: Seq<(usize, Seq<usize>, Seq<usize>)>, t: int, r: u32, rate: Seq<usize>, secret: Seq<u8>, d: nat, hi: nat, d_lo: nat, budget: nat, ntargets: nat, s: Search)
    requires
        ts[t].2.len() <= 0xFFFF_FFFF_FFFF_FFFF,
        0 <= t < ts.len(),
        target_ok(ts[t], rate),
        hi <= ts[t].2.len(),
        equations_justified(s.eqs, ts, r, rate, secret),
    ensures
        equations_justified(dims_run(ts[t].0, ts[t].1, ts[t].2, r, rate, secret, d, hi, d_lo, budget, ntargets, s).eqs, ts, r, rate, secret),
    decreases hi + 1 - d,
{
    if !(d > hi || s.done) {
        let n = reps_count(budget, ntargets, hi, d_lo);
        lemma_reps_justified(ts, t, r, rate, secret, d, budget, n, s);
        lemma_dims_justified(ts, t, r, rate, secret, d + 1, hi, d_lo, budget, ntargets,
            reps_run(ts[t].0, ts[t].1, ts[t].2, r, rate, secret, d, budget, n, s));
    }
}

/// The search over targets k.. keeps every equation justified.
proof fn lemma_targets_justified(ts: Seq<(usize, Seq<usize>, Seq<usize>)>, k: nat, r: u32, rate: Seq<usize>, secret: Seq<u8>, d_lo: nat, d_hi: nat, budget: nat, s: Search)
    requires
        forall|t: int| 0 <= t < ts.len() ==> (#[trigger] ts[t]).2.len() <= 0xFFFF_FFFF_FFFF_FFFF,
        targets_ok(ts, rate),
        equations_justified(s.eqs, ts, r, rate, secret),
    ensures
        equations_justified(targets_run(ts, k, r, rate, secret, d_lo, d_hi, budget, s).eqs, ts, r, rate, secret),
    decreases ts.len() - k,
{
    if !(k >= ts.len() || s.done) {
        let tg = ts[k as int];
        assert(target_ok(tg, rate));
        let hi: nat = if d_hi < tg.2.len() { d_hi } else { tg.2.len() };
        if hi < d_lo {
            lemma_targets_justified(ts, k + 1, r, rate, secret, d_lo, d_hi, budget, s);
        } else {
            lemma_dims_justified(ts, k as int, r, rate, secret, d_lo, hi, d_lo, budget, ts.len(), s);
            lemma_targets_justified(ts, k + 1, r, rate, secret, d_lo, d_hi, budget,
                dims_run(tg.0, tg.1, tg.2, r, rate, secret, d_lo, hi, d_lo, budget, ts.len(), s));
        }
    }
}

/// Every equation collect_equations returns comes from a cube drawn from a
/// target's nonce cone: its right-hand side is the secret's superpoly value
/// XOR the superpoly's constant term p(0), and its mask is the superpoly's
/// linear part on the target's key cone.
pub proof fn lemma_collect_equations_justified(ts: Seq<(usize, Seq<usize>, Seq<usize>)>, r: u32, rate: Seq<usize>, secret: Seq<u8>, d_lo: nat, d_hi: nat, budget: nat, x: u64)
    requires
        forall|t: int| 0 <= t < ts.len() ==> (#[trigger] ts[t]).2.len() <= 0xFFFF_FFFF_FFFF_FFFF,
        targets_ok(ts, rate),
    ensures
        equations_justified(
            targets_run(ts, 0, r, rate, secret, d_lo, d_hi, budget, search_state(Seq::empty(), 0, 0, x, false)).eqs,
            ts,
            r,
            rate,
            secret,
        ),
{
    lemma_targets_justified(ts, 0, r, rate, secret, d_lo, d_hi, budget, search_state(Seq::empty(), 0, 0, x, false));
}

/// An equation from a cube whose superpoly is affine, p(k) = p(0) XOR <m, k>,
/// with its linear part m inside the key cone, holds for the secret key:
/// the parity of the secret's bits under the mask is the right-hand side.
pub proof fn lemma_affine_equation_holds(e: (u128, u8), tg: (usize, Seq<usize>, Seq<usize>), c: Seq<usize>, r: u32, rate: Seq<usize>, secret: Seq<u8>, m: u128)
    requires
        equation_from_cube(e, tg, c, r, rate, secret),
        superpoly_affine(c, r, tg.0 as int, rate, m),
        forall|j: int| 0 <= j < 128 && #[trigger] has_bit(m, j) ==> tg.1.contains(j as usize),
        secret.len() == 16,
    ensures
        key_parity(e.0, secret, 128) == e.1,
{
    let o = tg.0 as int;
    let p0 = superpoly(zero_key(), c, r, o, rate);
    assert forall|j: int| 0 <= j < 128 implies #[trigger] has_bit(e.0, j) == has_bit(m, j) by {
        let ej = unit_key_spec(j);
        assert(ej.len() == 16);
        lemma_key_parity_unit(m, j, 128);
        let kp = key_parity(m, ej, 128);
        assert(superpoly(ej, c, r, o, rate) == p0 ^ kp);
        lemma_byte_bits(p0, kp, 0, 0);
    }
    lemma_key_parity_same_bits(e.0, m, secret, 128);
    let kps = key_parity(m, secret, 128);
    assert(superpoly(secret, c, r, o, rate) == p0 ^ kps);
    lemma_byte_bits(p0, kps, 0, 0);
}

// ---------------------------------------------------------------------------
// Executable
// ---------------------------------------------------------------------------

/// `count` output bits drawn uniformly (next() % total) from the generator.
pub fn sample_out_bits(count: usize, total: u64, rng: &mut u64) -> (v: Vec<usize>)
    requires
        total > 0,
    ensures
        (v@, *final(rng)) == sampled_bits(total, count as nat, *old(rng)),
{
    let mut v: Vec<usize> = Vec::new();
    let mut i: usize = 0;
    while i < count
        invariant
            i <= count,
            total > 0,
            (v@, *rng) == sampled_bits(total, i as nat, *old(rng)),
        decreases count - i,
    {
        let x = xorshift(rng);
        v.push((x % total) as usize);
        i = i + 1;
    }
    v
}

/// Phase A of the attack for one round count: scan the given output bits for
/// targets whose key cone is nonempty and whose nonce cone has at least two
/// bits, keeping at most `max_targets` of them. Returns the targets (output
/// bit, key cone, nonce cone), the number of bits with a nonempty key cone, the
/// sum of their key-cone sizes, and the sum and number of nonce cones measured.
/// The scan list is shorter than 2^23, so that the sums fit a 32-bit usize.
pub fn select_targets(scan: &[usize], r: u32, rate: &[usize], probes: usize, max_targets: usize, rng: &mut u64)
    -> (res: (Vec<(usize, Vec<usize>, Vec<usize>)>, usize, usize, usize, usize))
    requires
        scan@.len() < 0x80_0000,
        forall|k: int| 0 <= k < scan@.len() ==> out_bit_ok(rate@, #[trigger] scan@[k] as int),
    ensures
        ({
            let s = scan_run(scan@, 0, r, rate@, probes as nat, max_targets as nat,
                Scan { targets: Seq::empty(), with_key: 0, ksum: 0, nsum: 0, ncount: 0, x: *old(rng) });
            &&& targets_view(res.0@) == s.targets
            &&& res.1 == s.with_key
            &&& res.2 == s.ksum
            &&& res.3 == s.nsum
            &&& res.4 == s.ncount
            &&& *final(rng) == s.x
        }),
        targets_ok(targets_view(res.0@), rate@),
{
    let ghost goal = scan_run(scan@, 0, r, rate@, probes as nat, max_targets as nat,
        Scan { targets: Seq::empty(), with_key: 0, ksum: 0, nsum: 0, ncount: 0, x: *old(rng) });
    let mut targets: Vec<(usize, Vec<usize>, Vec<usize>)> = Vec::new();
    let mut with_key: usize = 0;
    let mut ksum: usize = 0;
    let mut nsum: usize = 0;
    let mut ncount: usize = 0;
    let mut k: usize = 0;
    assert(targets_view(targets@) =~= Seq::<(usize, Seq<usize>, Seq<usize>)>::empty());
    while k < scan.len()
        invariant
            k <= scan@.len() < 0x80_0000,
            forall|j: int| 0 <= j < scan@.len() ==> out_bit_ok(rate@, #[trigger] scan@[j] as int),
            with_key <= k,
            ncount <= k,
            ksum <= 128 * k,
            nsum <= 512 * k,
            targets_ok(targets_view(targets@), rate@),
            goal == scan_run(scan@, k as nat, r, rate@, probes as nat, max_targets as nat,
                Scan { targets: targets_view(targets@), with_key: with_key as nat, ksum: ksum as nat, nsum: nsum as nat, ncount: ncount as nat, x: *rng }),
        decreases scan@.len() - k,
    {
        let o = scan[k];
        let ghost x0 = *rng;
        proof {
            lemma_key_influence_len(o as int, r, rate@, probes as nat, x0, 128);
        }
        let ki = key_influence(o, r, rate, probes, rng);
        if ki.len() > 0 {
            with_key = with_key + 1;
            ksum = ksum + ki.len();
            if targets.len() < max_targets {
                let ghost x1 = *rng;
                proof {
                    lemma_nonce_influence_len(o as int, r, rate@, probes as nat, x1, 512);
                }
                let ni = nonce_influence(o, r, rate, probes, rng);
                nsum = nsum + ni.len();
                ncount = ncount + 1;
                if ni.len() >= 2 {
                    let ghost old_t = targets_view(targets@);
                    targets.push((o, ki, ni));
                    proof {
                        assert(targets_view(targets@) =~= old_t.push((o, ki@, ni@)));
                        assert forall|j: int| 0 <= j < targets_view(targets@).len() implies target_ok(#[trigger] targets_view(targets@)[j], rate@) by {
                            if j < old_t.len() {
                                assert(targets_view(targets@)[j] == old_t[j]);
                            }
                        }
                    }
                }
            }
        }
        k = k + 1;
    }
    (targets, with_key, ksum, nsum, ncount)
}

/// One cube attempt (see `attempt`), on the exec state.
fn try_cube(o: usize, ki: &[usize], ni: &[usize], r: u32, rate: &[usize], secret: &Key, d: usize,
    eqs: &mut Vec<(u128, u8)>, tried: &mut usize, found: &mut usize, rng: &mut u64)
    requires
        target_ok((o, ki@, ni@), rate@),
        d <= ni@.len(),
        d < 64,
        *old(found) <= *old(tried) < usize::MAX,
    ensures
        search_state(final(eqs)@, *final(tried), *final(found), *final(rng), false)
            == attempt(o, ki@, ni@, r, rate@, secret@, d as nat,
                search_state(old(eqs)@, *old(tried), *old(found), *old(rng), false)),
        *final(found) <= *final(tried) <= *old(tried) + 1,
{
    let ghost t = (o, ki@, ni@);
    assert forall|j: int| 0 <= j < ki@.len() implies #[trigger] ki@[j] < 128 by {
        assert(t.1[j] < 128);
    }
    let cube = pick_cube(ni, d, rng);
    if cube.len() >= d {
        proof {
            assert forall|j: int| 0 <= j < cube@.len() implies #[trigger] cube@[j] < 512 by {
                assert(ni@.contains(cube@[j]));
                let i = choose|i: int| 0 <= i < ni@.len() && ni@[i] == cube@[j];
                assert(t.2[i] < 512);
            }
        }
        *tried = *tried + 1;
        let zero: Key = [0u8; 16];
        assert(zero@ =~= zero_key());
        let c0 = cube_sum(&zero, cube.as_slice(), r, o, rate);
        let nc = superpoly_nonconstant(cube.as_slice(), r, o, rate, c0, 3, rng);
        if nc {
            let lin = blr_linear(cube.as_slice(), r, o, rate, c0, 5, rng);
            if lin {
                let mask = superpoly_coeffs(cube.as_slice(), r, o, rate, ki, c0);
                if mask != 0 {
                    *found = *found + 1;
                    let observed = cube_sum(secret, cube.as_slice(), r, o, rate);
                    eqs.push((mask, observed ^ c0));
                }
            }
        }
    }
}

/// Phase B of the attack for one round count: try cubes on the targets and
/// collect linear equations (key mask, right-hand side) in the secret key.
/// Target (o, ki, ni) is tried with cube sizes d_lo ..= min(d_hi, |ni|), each
/// size budget / |targets| / (number of sizes) + 1 times; the search stops once
/// `budget` cubes were tried or MAX_EQUATIONS equations are held. Returns the
/// equations, the cubes tried and the linear superpolys found. Cube sizes stay
/// below 64 and the budget below usize::MAX, as the per-size share adds one.
pub fn collect_equations(targets: &[(usize, Vec<usize>, Vec<usize>)], r: u32, rate: &[usize], secret: &Key,
    d_lo: usize, d_hi: usize, budget: usize, rng: &mut u64) -> (res: (Vec<(u128, u8)>, usize, usize))
    requires
        targets_ok(targets_view(targets@), rate@),
        d_hi < 64,
        budget < usize::MAX,
    ensures
        ({
            let s = targets_run(targets_view(targets@), 0, r, rate@, secret@, d_lo as nat, d_hi as nat, budget as nat,
                search_state(Seq::empty(), 0, 0, *old(rng), false));
            &&& res.0@ == s.eqs
            &&& res.1 == s.tried
            &&& res.2 == s.found
            &&& *final(rng) == s.x
        }),
        equations_justified(res.0@, targets_view(targets@), r, rate@, secret@),
{
    let ghost ts = targets_view(targets@);
    proof {
        assert forall|t: int| 0 <= t < ts.len() implies (#[trigger] ts[t]).2.len() <= 0xFFFF_FFFF_FFFF_FFFF by {
            let v = targets@[t].2;
            assert(ts[t].2 == v@);
            assert(v@.len() == v.len());
            assert(v.len() <= usize::MAX);
        }
        lemma_collect_equations_justified(ts, r, rate@, secret@, d_lo as nat, d_hi as nat, budget as nat, *old(rng));
    }
    let ghost goal = targets_run(ts, 0, r, rate@, secret@, d_lo as nat, d_hi as nat, budget as nat,
        search_state(Seq::empty(), 0, 0, *old(rng), false));
    let mut eqs: Vec<(u128, u8)> = Vec::new();
    let mut tried: usize = 0;
    let mut found: usize = 0;
    let mut done: bool = false;
    let mut k: usize = 0;
    assert(eqs@ =~= Seq::<(u128, u8)>::empty());
    while k < targets.len() && !done
        invariant
            k <= targets@.len(),
            ts == targets_view(targets@),
            targets_ok(ts, rate@),
            d_hi < 64,
            budget < usize::MAX,
            found <= tried <= budget,
            goal == targets_run(ts, k as nat, r, rate@, secret@, d_lo as nat, d_hi as nat, budget as nat,
                search_state(eqs@, tried, found, *rng, done)),
        decreases targets@.len() - k,
    {
        let o = targets[k].0;
        let ki = targets[k].1.as_slice();
        let ni = targets[k].2.as_slice();
        assert(ts[k as int] == (o, ki@, ni@));
        assert(target_ok(ts[k as int], rate@));
        let hi: usize = if d_hi < ni.len() { d_hi } else { ni.len() };
        if hi >= d_lo {
            let reps: usize = budget / targets.len() / (hi - d_lo + 1) + 1;
            assert(reps == reps_count(budget as nat, ts.len(), hi as nat, d_lo as nat));
            let mut d: usize = d_lo;
            while d <= hi && !done
                invariant
                    k < targets@.len(),
                    ts == targets_view(targets@),
                    targets_ok(ts, rate@),
                    target_ok((o, ki@, ni@), rate@),
                    d_lo <= d <= hi + 1,
                    hi <= d_hi < 64,
                    hi <= ni@.len(),
                    budget < usize::MAX,
                    found <= tried <= budget,
                    reps == reps_count(budget as nat, ts.len(), hi as nat, d_lo as nat),
                    goal == targets_run(ts, (k + 1) as nat, r, rate@, secret@, d_lo as nat, d_hi as nat, budget as nat,
                        dims_run(o, ki@, ni@, r, rate@, secret@, d as nat, hi as nat, d_lo as nat, budget as nat, ts.len(),
                            search_state(eqs@, tried, found, *rng, done))),
                decreases hi + 1 - d,
            {
                let mut rep: usize = 0;
                while rep < reps && !done
                    invariant
                        rep <= reps,
                        target_ok((o, ki@, ni@), rate@),
                        d_lo <= d <= hi,
                        hi <= d_hi < 64,
                        hi <= ni@.len(),
                        budget < usize::MAX,
                        found <= tried <= budget,
                        goal == targets_run(ts, (k + 1) as nat, r, rate@, secret@, d_lo as nat, d_hi as nat, budget as nat,
                            dims_run(o, ki@, ni@, r, rate@, secret@, (d + 1) as nat, hi as nat, d_lo as nat, budget as nat, ts.len(),
                                reps_run(o, ki@, ni@, r, rate@, secret@, d as nat, budget as nat, (reps - rep) as nat,
                                    search_state(eqs@, tried, found, *rng, done)))),
                    decreases reps - rep,
                {
                    if tried >= budget || eqs.len() >= MAX_EQUATIONS {
                        done = true;
                    } else {
                        try_cube(o, ki, ni, r, rate, secret, d, &mut eqs, &mut tried, &mut found, rng);
                    }
                    rep = rep + 1;
                }
                d = d + 1;
            }
        }
        k = k + 1;
    }
    (eqs, tried, found)
}

} // verus!
