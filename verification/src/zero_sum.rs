//! What the degree harness computes from the propagated bounds: the degree
//! profile of the output bits, the output bits with a proven zero-sum, and the
//! measurements that check the bounds against the permutation. Also the two
//! facts that make the bounds proofs: an output bit bounded by 0 ignores the
//! nonce, and one bounded below a cube's dimension sums to zero over the cube.
use vstd::prelude::*;
use crate::cube_attack::{
    attack_rate_ok, cube_ok, cube_sum_from, cube_sum_spec, cube_sum_upto, load_state, out_bit, out_bit_ok,
    out_bit_spec, toggle_bit_spec, write_cells, Key, Nonce,
};
use crate::algebraic_degree::{
    const_fn, cube_xor, deg_below, deriv, lemma_agree_deg, lemma_const_deg, lemma_cube_xor_vanishes,
    lemma_deg_mono_to, nonce_bits, NonceFn,
};
use crate::degree::{
    agree_where_constant, bit_fn, bounds_sound, lemma_bidx_split, lemma_bit_exprs, lemma_degree_bounds_sound,
    rounds_deg_spec, states_ok, bidx, bidx_spec, deg_wf, init_deg_spec, lemma_state_bit_cell, lemma_zero_bounds_sound,
    nonce_var_bit, propagate_spec, state_bit,
};
use crate::permutation::permute_r_spec;
use crate::rng::{random_key, random_nonce, random_seq, xorshift_iter};

verus! {

// ---------------------------------------------------------------------------
// Mathematical model
// ---------------------------------------------------------------------------

/// Every rate cell is a cell of the cube.
pub open spec fn rate_in_cube(rate: Seq<usize>) -> bool {
    forall|c: int| 0 <= c < rate.len() ==> #[trigger] rate[c] < 512
}

/// Degree bound of output bit `o`: bit o % 8 of rate cell o / 8.
pub open spec fn out_deg(dv: Seq<u32>, rate: Seq<usize>, o: int) -> u32 {
    dv[bidx_spec(rate[o / 8] as int, o % 8)]
}

/// The degree bounds of all output bits, in output-bit order.
pub open spec fn out_degs(dv: Seq<u32>, rate: Seq<usize>) -> Seq<u32> {
    Seq::new(8 * rate.len(), |o: int| out_deg(dv, rate, o))
}

/// The output bits among 0..n whose bound is below `d`, ascending.
pub open spec fn below_upto(dv: Seq<u32>, rate: Seq<usize>, d: u32, n: int) -> Seq<usize>
    decreases n,
{
    if n <= 0 {
        Seq::empty()
    } else {
        let p = below_upto(dv, rate, d, n - 1);
        if out_deg(dv, rate, n - 1) < d { p.push((n - 1) as usize) } else { p }
    }
}

/// How many of s[0..n] are below v.
pub open spec fn count_lt(s: Seq<u32>, v: u32, n: int) -> nat
    decreases n,
{
    if n <= 0 {
        0
    } else {
        count_lt(s, v, n - 1) + if s[n - 1] < v { 1nat } else { 0nat }
    }
}

/// How many of s[0..n] are at most v.
pub open spec fn count_le(s: Seq<u32>, v: u32, n: int) -> nat
    decreases n,
{
    if n <= 0 {
        0
    } else {
        count_le(s, v, n - 1) + if s[n - 1] <= v { 1nat } else { 0nat }
    }
}

/// `m` is the median of s: the value at index len / 2 once s is sorted, that
/// is, at most len / 2 entries lie below it and more than len / 2 at or below it.
pub open spec fn is_median(s: Seq<u32>, m: u32) -> bool {
    count_lt(s, m, s.len() as int) <= s.len() / 2 < count_le(s, m, s.len() as int)
}

/// The largest of s[0..n] below v, if any.
pub open spec fn max_below(s: Seq<u32>, v: u32, n: int) -> Option<u32>
    decreases n,
{
    if n <= 0 {
        None
    } else {
        let p = max_below(s, v, n - 1);
        if s[n - 1] < v {
            match p {
                Some(a) => Some(if a >= s[n - 1] { a } else { s[n - 1] }),
                None => Some(s[n - 1]),
            }
        } else {
            p
        }
    }
}

/// Does some fresh random nonce among `tries` move output bit `o` away from `b0`
/// under key k? Returns the answer and the generator state after.
pub open spec fn moves_within(k: Seq<u8>, b0: u8, r: u32, o: int, rate: Seq<usize>, tries: nat, x: u64) -> (bool, u64)
    decreases tries,
{
    if tries == 0 {
        (false, x)
    } else {
        let n2 = random_seq(x, 64);
        let x1 = xorshift_iter(x, 64);
        if out_bit_spec(k, n2, r, o, rate) != b0 {
            (true, x1)
        } else {
            moves_within(k, b0, r, o, rate, (tries - 1) as nat, x1)
        }
    }
}

/// Over sample[0..m]: for each output bit draw a key and a base nonce, read the
/// bit, and count the bits that some of `tries` fresh nonces move.
pub open spec fn violations_upto(sample: Seq<usize>, r: u32, rate: Seq<usize>, tries: nat, x: u64, m: int) -> (nat, u64)
    decreases m,
{
    if m <= 0 {
        (0, x)
    } else {
        let p = violations_upto(sample, r, rate, tries, x, m - 1);
        let k = random_seq(p.1, 16);
        let x1 = xorshift_iter(p.1, 16);
        let base = random_seq(x1, 64);
        let x2 = xorshift_iter(x1, 64);
        let o = sample[m - 1] as int;
        let mv = moves_within(k, out_bit_spec(k, base, r, o, rate), r, o, rate, tries, x2);
        (p.0 + if mv.0 { 1nat } else { 0nat }, mv.1)
    }
}

// ---------------------------------------------------------------------------
// Proofs
// ---------------------------------------------------------------------------

/// No more entries lie below v than at or below it, and neither count exceeds n.
proof fn lemma_counts_bounded(s: Seq<u32>, v: u32, n: int)
    requires
        0 <= n,
    ensures
        count_lt(s, v, n) <= count_le(s, v, n) <= n,
    decreases n,
{
    if n > 0 {
        lemma_counts_bounded(s, v, n - 1);
    }
}

/// When every entry of s[0..n] is at most v, all n are counted.
proof fn lemma_count_le_all(s: Seq<u32>, v: u32, n: int)
    requires
        0 <= n,
        forall|j: int| 0 <= j < n ==> s[j] <= v,
    ensures
        count_le(s, v, n) == n,
    decreases n,
{
    if n > 0 {
        lemma_count_le_all(s, v, n - 1);
    }
}

/// max_below finds the largest entry below v, and finds one whenever some entry
/// lies below v.
proof fn lemma_max_below(s: Seq<u32>, v: u32, n: int)
    requires
        0 <= n <= s.len(),
    ensures
        count_lt(s, v, n) > 0 ==> max_below(s, v, n) is Some,
        max_below(s, v, n) is None ==> forall|j: int| 0 <= j < n ==> s[j] >= v,
        max_below(s, v, n) is Some ==> max_below(s, v, n)->0 < v,
        max_below(s, v, n) is Some ==> exists|j: int| 0 <= j < n && s[j] == max_below(s, v, n)->0,
        max_below(s, v, n) is Some ==> forall|j: int| 0 <= j < n && s[j] < v ==> s[j] <= max_below(s, v, n)->0,
    decreases n,
{
    if n > 0 {
        lemma_max_below(s, v, n - 1);
        let p = max_below(s, v, n - 1);
        let r = max_below(s, v, n);
        if p is Some {
            let a = p->0;
            let j0 = choose|j: int| 0 <= j < n - 1 && s[j] == a;
            if r == Some(a) {
                assert(0 <= j0 < n && s[j0] == a);
            }
        }
        if s[n - 1] < v && r == Some(s[n - 1]) {
            assert(0 <= n - 1 < n && s[n - 1] == s[n - 1]);
        }
    }
}

/// When no entry lies strictly between w and v, the entries at most w are
/// exactly the entries below v.
proof fn lemma_count_gap(s: Seq<u32>, w: u32, v: u32, n: int)
    requires
        0 <= n <= s.len(),
        w < v,
        forall|j: int| 0 <= j < n && s[j] < v ==> s[j] <= w,
    ensures
        count_le(s, w, n) == count_lt(s, v, n),
    decreases n,
{
    if n > 0 {
        lemma_count_gap(s, w, v, n - 1);
    }
}

/// Every nonce bit as a variable.
pub open spec fn all_nonce_vars() -> Seq<usize> {
    Seq::new(512, |v: int| v as usize)
}

/// Writing the construction's 80 bytes keeps the state a cube.
proof fn lemma_load_len(z: Seq<u8>, rate: Seq<usize>, bytes: Seq<u8>, n: int)
    requires
        0 <= n <= 80,
        z.len() == 512,
        attack_rate_ok(rate),
    ensures
        write_cells(z, rate, bytes, n).len() == 512,
    decreases n,
{
    if n > 0 {
        lemma_load_len(z, rate, bytes, n - 1);
        assert(rate[n - 1] < 512);
    }
}

/// Loading two nonces under one key writes the same byte into every cell that
/// no nonce byte is written to.
proof fn lemma_load_agrees_off_nonce(z: Seq<u8>, rate: Seq<usize>, key: Seq<u8>, n1: Seq<u8>, n2: Seq<u8>, n: int, c: int)
    requires
        0 <= n <= 80,
        z.len() == 512,
        attack_rate_ok(rate),
        key.len() == 16,
        n1.len() == 64,
        n2.len() == 64,
        0 <= c < 512,
        forall|t: int| 16 <= t < n ==> #[trigger] rate[t] != c,
    ensures
        write_cells(z, rate, key + n1, n).len() == 512,
        write_cells(z, rate, key + n2, n).len() == 512,
        write_cells(z, rate, key + n1, n)[c] == write_cells(z, rate, key + n2, n)[c],
    decreases n,
{
    if n > 0 {
        lemma_load_agrees_off_nonce(z, rate, key, n1, n2, n - 1, c);
        assert(rate[n - 1] < 512);
        if n - 1 < 16 {
            assert((key + n1)[n - 1] == key[n - 1]);
            assert((key + n2)[n - 1] == key[n - 1]);
        } else {
            assert(rate[n - 1] != c);
        }
    }
}

/// The loaded states of two nonces under one key agree on every state bit that
/// is no nonce bit.
proof fn lemma_load_agree(key: Seq<u8>, n1: Seq<u8>, n2: Seq<u8>, rate: Seq<usize>)
    requires
        attack_rate_ok(rate),
        key.len() == 16,
        n1.len() == 64,
        n2.len() == 64,
    ensures
        load_state(key, n1, rate).len() == 512,
        load_state(key, n2, rate).len() == 512,
        agree_where_constant(init_deg_spec(all_nonce_vars(), rate), load_state(key, n1, rate), load_state(key, n2, rate)),
{
    let z = Seq::new(512, |i: int| 0u8);
    let vars = all_nonce_vars();
    let d = init_deg_spec(vars, rate);
    let l1 = load_state(key, n1, rate);
    let l2 = load_state(key, n2, rate);
    lemma_load_len(z, rate, key + n1, 80);
    lemma_load_len(z, rate, key + n2, 80);
    assert forall|b: int| 0 <= b < 4096 && d[b] == 0 implies #[trigger] state_bit(l1, b) == state_bit(l2, b) by {
        let c = b / 8;
        let k = b % 8;
        assert forall|t: int| 16 <= t < 80 implies #[trigger] rate[t] != c by {
            if rate[t] == c {
                let v = 8 * (t - 16) + k;
                assert(0 <= v < 512);
                assert(v / 8 == t - 16 && v % 8 == k) by {
                    vstd::arithmetic::div_mod::lemma_fundamental_div_mod_converse(v, 8, t - 16, k);
                }
                assert(vars[v] == v as usize);
                assert(nonce_var_bit(rate, vars[v] as int) == b) by {
                    vstd::arithmetic::div_mod::lemma_fundamental_div_mod(b, 8);
                }
                assert(false);
            }
        }
        lemma_load_agrees_off_nonce(z, rate, key, n1, n2, 80, c);
    }
}

/// A bound of 0 is a proof of independence: when the propagation with every
/// nonce bit as a variable (and a cap of at least 1) bounds output bit `o` by 0,
/// the output bit is the same for every two nonces under every key.
pub proof fn lemma_zero_bound_ignores_nonce(key: Seq<u8>, n1: Seq<u8>, n2: Seq<u8>, rounds: u32, o: int, rate: Seq<usize>, cap: u32)
    requires
        out_bit_ok(rate, o),
        key.len() == 16,
        n1.len() == 64,
        n2.len() == 64,
        1 <= cap <= 0x7FFF_FFFF,
        propagate_spec(all_nonce_vars(), rounds as nat, rate, cap)[bidx_spec(rate[o / 8] as int, o % 8)] == 0,
    ensures
        out_bit_spec(key, n1, rounds, o, rate) == out_bit_spec(key, n2, rounds, o, rate),
{
    reveal(out_bit_spec);
    let d = init_deg_spec(all_nonce_vars(), rate);
    assert(deg_wf(d));
    lemma_load_agree(key, n1, n2, rate);
    let l1 = load_state(key, n1, rate);
    let l2 = load_state(key, n2, rate);
    lemma_zero_bounds_sound(d, l1, l2, rounds as nat, cap);
    let y1 = permute_r_spec(l1, rounds as nat);
    let y2 = permute_r_spec(l2, rounds as nat);
    assert(0 <= o % 8 < 8);
    lemma_state_bit_cell(y1, rate[o / 8] as int, o % 8);
    lemma_state_bit_cell(y2, rate[o / 8] as int, o % 8);
}

/// The nonce bits of a cube, as a set.
pub open spec fn cube_vars(cube: Seq<usize>) -> Set<int> {
    Set::new(|v: int| exists|t: int| 0 <= t < cube.len() && cube[t] as int == v)
}

/// The last of the first t construction bytes written to cell c (-1 when none is).
pub open spec fn last_writer(rate: Seq<usize>, c: int, t: int) -> int
    decreases t,
{
    if t <= 0 {
        -1
    } else if rate[t - 1] as int == c {
        t - 1
    } else {
        last_writer(rate, c, t - 1)
    }
}

/// Nonce bit v, as a function of the nonce.
pub open spec fn nonce_bit_fn(v: int) -> NonceFn {
    |n: Seq<u8>| (n[v / 8] >> ((v % 8) as u8)) & 1u8
}

/// A cell of the loaded state holds the last construction byte written to it.
proof fn lemma_write_cells_cell(z: Seq<u8>, rate: Seq<usize>, bytes: Seq<u8>, t: int, c: int)
    requires
        0 <= t <= 80,
        z.len() == 512,
        attack_rate_ok(rate),
        0 <= c < 512,
    ensures
        -1 <= last_writer(rate, c, t) < t,
        last_writer(rate, c, t) >= 0 ==> rate[last_writer(rate, c, t)] == c,
        write_cells(z, rate, bytes, t)[c] == if last_writer(rate, c, t) < 0 {
            z[c]
        } else {
            bytes[last_writer(rate, c, t)]
        },
    decreases t,
{
    if t > 0 {
        lemma_write_cells_cell(z, rate, bytes, t - 1, c);
        lemma_load_len(z, rate, bytes, t - 1);
        assert(rate[t - 1] < 512);
    }
}

/// A nonce bit has degree at most 1, and degree 0 in bits other than itself.
proof fn lemma_nonce_bit_deg(v: int, vs: Set<int>)
    requires
        0 <= v < 512,
        nonce_bits(vs),
    ensures
        deg_below(nonce_bit_fn(v), 2, vs),
        !vs.contains(v) ==> deg_below(nonce_bit_fn(v), 1, vs),
{
    let f = nonce_bit_fn(v);
    assert forall|u: int| #[trigger] vs.contains(u) implies deg_below(deriv(f, u), 1, vs) && (u != v ==> deg_below(deriv(f, u), 0, vs)) by {
        let e: u8 = if u == v { 1u8 } else { 0u8 };
        assert forall|n: Seq<u8>| n.len() == 64 implies #[trigger] deriv(f, u)(n) == const_fn(e)(n) by {
            let x = n[v / 8];
            let tn = toggle_bit_spec(n, u);
            lemma_bit_exprs(x, 0, 0, 0, 0, 0, (v % 8) as u8, (u % 8) as u8);
            let bx = (x >> ((v % 8) as u8)) & 1u8;
            lemma_bit_exprs(bx, 0, 0, 0, 0, 0, 0, 0);
            if u / 8 == v / 8 {
                assert(tn[v / 8] == x ^ (1u8 << ((u % 8) as u8)));
                if u % 8 == v % 8 {
                    assert(u == v) by {
                        vstd::arithmetic::div_mod::lemma_fundamental_div_mod(u, 8);
                        vstd::arithmetic::div_mod::lemma_fundamental_div_mod(v, 8);
                    }
                } else {
                    assert(u != v);
                }
            } else {
                assert(tn[v / 8] == x);
                assert(u != v);
            }
        }
        lemma_const_deg(e, vs);
        lemma_agree_deg(const_fn(e), deriv(f, u), 1, vs);
        if u != v {
            assert forall|n: Seq<u8>| n.len() == 64 implies #[trigger] deriv(f, u)(n) == 0 by {
                assert(const_fn(e)(n) == 0);
            }
        }
    }
}

/// The loaded state's bits have degree at most their initial bounds: a cube bit
/// 1, every other bit 0.
proof fn lemma_load_bounds(key: Seq<u8>, rate: Seq<usize>, cube: Seq<usize>, cap: u32)
    requires
        attack_rate_ok(rate),
        key.len() == 16,
        cube_ok(cube),
    ensures
        states_ok(|n: Seq<u8>| load_state(key, n, rate)),
        bounds_sound(init_deg_spec(cube, rate), |n: Seq<u8>| load_state(key, n, rate), cap, cube_vars(cube)),
{
    let st0 = |n: Seq<u8>| load_state(key, n, rate);
    let vs = cube_vars(cube);
    let d0 = init_deg_spec(cube, rate);
    let z = Seq::new(512, |i: int| 0u8);
    assert forall|n: Seq<u8>| n.len() == 64 implies #[trigger] st0(n).len() == 512 by {
        lemma_load_len(z, rate, key + n, 80);
    }
    assert forall|b: int| 0 <= b < 4096 && d0[b] < cap implies deg_below(#[trigger] bit_fn(st0, b), (d0[b] + 1) as nat, vs) by {
        lemma_bidx_split(b);
        let c = b / 8;
        let k = b % 8;
        let w = last_writer(rate, c, 80);
        lemma_write_cells_cell(z, rate, key, 80, c);
        if w < 16 {
            let val: u8 = if w < 0 { 0u8 } else { key[w] };
            let cb: u8 = (val >> (k as u8)) & 1u8;
            assert forall|n: Seq<u8>| n.len() == 64 implies #[trigger] const_fn(cb)(n) == bit_fn(st0, b)(n) by {
                lemma_write_cells_cell(z, rate, key + n, 80, c);
                lemma_load_len(z, rate, key + n, 80);
                lemma_state_bit_cell(st0(n), c, k);
            }
            lemma_const_deg(cb, vs);
            lemma_agree_deg(const_fn(cb), bit_fn(st0, b), 1, vs);
            lemma_deg_mono_to(bit_fn(st0, b), 1, (d0[b] + 1) as nat, vs);
        } else {
            let v = 8 * (w - 16) + k;
            assert(v / 8 == w - 16 && v % 8 == k) by {
                vstd::arithmetic::div_mod::lemma_fundamental_div_mod_converse(v, 8, w - 16, k);
            }
            assert forall|n: Seq<u8>| n.len() == 64 implies #[trigger] nonce_bit_fn(v)(n) == bit_fn(st0, b)(n) by {
                lemma_write_cells_cell(z, rate, key + n, 80, c);
                lemma_load_len(z, rate, key + n, 80);
                lemma_state_bit_cell(st0(n), c, k);
            }
            lemma_nonce_bit_deg(v, vs);
            if d0[b] == 0 {
                if vs.contains(v) {
                    let t = choose|t: int| 0 <= t < cube.len() && cube[t] as int == v;
                    assert(nonce_var_bit(rate, cube[t] as int) == b) by {
                        vstd::arithmetic::div_mod::lemma_fundamental_div_mod(b, 8);
                    }
                    assert(false);
                }
                lemma_agree_deg(nonce_bit_fn(v), bit_fn(st0, b), 1, vs);
            } else {
                lemma_agree_deg(nonce_bit_fn(v), bit_fn(st0, b), 2, vs);
            }
        }
    }
}

/// The cube sum of the construction is the cube sum of its output-bit function.
proof fn lemma_cube_sum_as_xor(key: Seq<u8>, base: Seq<u8>, cube: Seq<usize>, rounds: u32, o: int, rate: Seq<usize>, m: nat)
    ensures
        cube_sum_upto(key, base, cube, rounds, o, rate, m)
            == cube_xor(|n: Seq<u8>| out_bit_spec(key, n, rounds, o, rate), base, cube, cube.len() as int, m),
    decreases m,
{
    if m > 0 {
        lemma_cube_sum_as_xor(key, base, cube, rounds, o, rate, (m - 1) as nat);
    }
}

/// The zero-sum law of the degree bounds: when the propagated bound of output
/// bit `o` is below both the cap and the cube's dimension, the cube sum of that
/// bit is 0 for every key and every base nonce.
pub proof fn lemma_degree_bound_zero_sum(key: Seq<u8>, base: Seq<u8>, cube: Seq<usize>, rounds: u32, o: int, rate: Seq<usize>, cap: u32)
    requires
        out_bit_ok(rate, o),
        key.len() == 16,
        base.len() == 64,
        cube_ok(cube),
        cap <= 0x7FFF_FFFF,
        propagate_spec(cube, rounds as nat, rate, cap)[bidx_spec(rate[o / 8] as int, o % 8)] < cap,
        propagate_spec(cube, rounds as nat, rate, cap)[bidx_spec(rate[o / 8] as int, o % 8)] < cube.len(),
    ensures
        cube_sum_spec(key, base, cube, rounds, o, rate) == 0,
{
    reveal(out_bit_spec);
    let vs = cube_vars(cube);
    assert(nonce_bits(vs));
    lemma_load_bounds(key, rate, cube, cap);
    let d0 = init_deg_spec(cube, rate);
    assert(deg_wf(d0));
    let st0 = |n: Seq<u8>| load_state(key, n, rate);
    lemma_degree_bounds_sound(d0, st0, rounds as nat, cap, vs);
    let st = |x: Seq<u8>| permute_r_spec(st0(x), rounds as nat);
    let c = rate[o / 8] as int;
    let k = o % 8;
    let bo = bidx_spec(c, k);
    let y0 = permute_r_spec(st0(base), rounds as nat);
    lemma_state_bit_cell(y0, c, k);
    let dv = propagate_spec(cube, rounds as nat, rate, cap);
    assert(dv == rounds_deg_spec(d0, rounds as nat, cap));
    assert(deg_below(bit_fn(st, bo), (dv[bo] + 1) as nat, vs));
    let out = |n: Seq<u8>| out_bit_spec(key, n, rounds, o, rate);
    assert forall|n: Seq<u8>| n.len() == 64 implies #[trigger] bit_fn(st, bo)(n) == out(n) by {
        lemma_state_bit_cell(st(n), c, k);
    }
    lemma_agree_deg(bit_fn(st, bo), out, (dv[bo] + 1) as nat, vs);
    lemma_deg_mono_to(out, (dv[bo] + 1) as nat, cube.len(), vs);
    assert forall|t: int| 0 <= t < cube.len() implies vs.contains(#[trigger] cube[t] as int) by {
        assert(0 <= t < cube.len() && cube[t] as int == cube[t] as int);
    }
    lemma_cube_xor_vanishes(out, base, cube, cube.len() as int, vs);
    lemma_cube_sum_as_xor(key, base, cube, rounds, o, rate, (1u64 << (cube.len() as u64)) as nat);
}

// ---------------------------------------------------------------------------
// Executable
// ---------------------------------------------------------------------------

/// The degree bounds of all output bits (bit o % 8 of rate cell o / 8).
pub fn out_degrees(dv: &Vec<u32>, rate: &[usize]) -> (degs: Vec<u32>)
    requires
        deg_wf(dv@),
        rate_in_cube(rate@),
        8 * rate@.len() <= usize::MAX,
    ensures
        degs@ == out_degs(dv@, rate@),
{
    let n = rate.len() * 8;
    let mut degs: Vec<u32> = Vec::new();
    let mut o: usize = 0;
    while o < n
        invariant
            n == 8 * rate@.len(),
            o <= n,
            deg_wf(dv@),
            rate_in_cube(rate@),
            degs@.len() == o,
            forall|j: int| 0 <= j < o ==> #[trigger] degs@[j] == out_deg(dv@, rate@, j),
        decreases n - o,
    {
        let c = rate[o / 8];
        let b = bidx(c, o % 8);
        degs.push(dv[b]);
        o = o + 1;
    }
    assert(degs@ =~= out_degs(dv@, rate@));
    degs
}

/// The output bits whose degree bound is below `d`, ascending: each of them
/// sums to zero over any cube of `d` of the bound's variables.
pub fn zero_sum_bits(dv: &Vec<u32>, rate: &[usize], d: u32) -> (zs: Vec<usize>)
    requires
        deg_wf(dv@),
        rate_in_cube(rate@),
        8 * rate@.len() <= usize::MAX,
    ensures
        zs@ == below_upto(dv@, rate@, d, 8 * rate@.len() as int),
{
    let n = rate.len() * 8;
    let mut zs: Vec<usize> = Vec::new();
    let mut o: usize = 0;
    while o < n
        invariant
            n == 8 * rate@.len(),
            o <= n,
            deg_wf(dv@),
            rate_in_cube(rate@),
            zs@ == below_upto(dv@, rate@, d, o as int),
        decreases n - o,
    {
        let c = rate[o / 8];
        let b = bidx(c, o % 8);
        if dv[b] < d {
            zs.push(o);
        }
        o = o + 1;
    }
    zs
}

/// The degree profile of the output bits: the largest bound, the median bound
/// and the number of bits with bound 0.
pub fn degree_profile(dv: &Vec<u32>, rate: &[usize]) -> (r: (u32, u32, usize))
    requires
        deg_wf(dv@),
        rate_in_cube(rate@),
        0 < rate@.len(),
        8 * rate@.len() <= usize::MAX,
    ensures
        ({
            let s = out_degs(dv@, rate@);
            &&& forall|o: int| 0 <= o < s.len() ==> s[o] <= r.0
            &&& exists|o: int| 0 <= o < s.len() && s[o] == r.0
            &&& is_median(s, r.1)
            &&& r.2 == count_le(s, 0, s.len() as int)
        }),
{
    let degs = out_degrees(dv, rate);
    let ghost s = degs@;
    let n = degs.len();
    let h = n / 2;
    // the largest bound and the count of zero bounds
    let mut mx: u32 = degs[0];
    let mut zeros: usize = 0;
    let mut i: usize = 0;
    while i < n
        invariant
            s == degs@,
            n == s.len() > 0,
            i <= n,
            forall|j: int| 0 <= j < i ==> s[j] <= mx,
            exists|j: int| 0 <= j < n && s[j] == mx,
            zeros == count_le(s, 0, i as int),
            zeros <= i,
        decreases n - i,
    {
        if degs[i] > mx {
            mx = degs[i];
        }
        if degs[i] == 0 {
            zeros = zeros + 1;
        }
        i = i + 1;
    }
    // the median: the least entry with more than n / 2 entries at or below it
    let mut found: bool = false;
    let mut best: u32 = 0;
    let mut i: usize = 0;
    while i < n
        invariant
            s == degs@,
            n == s.len() > 0,
            h == n / 2,
            i <= n,
            found ==> count_le(s, best, n as int) > h,
            found ==> exists|j: int| 0 <= j < n && s[j] == best,
            found ==> forall|j: int| 0 <= j < i && count_le(s, s[j], n as int) > h ==> best <= s[j],
            !found ==> forall|j: int| 0 <= j < i ==> count_le(s, s[j], n as int) <= h,
        decreases n - i,
    {
        let v = degs[i];
        let mut le: usize = 0;
        let mut t: usize = 0;
        while t < n
            invariant
                s == degs@,
                n == s.len(),
                t <= n,
                le == count_le(s, v, t as int),
                le <= t,
            decreases n - t,
        {
            if degs[t] <= v {
                le = le + 1;
            }
            t = t + 1;
        }
        if le > h && (!found || v < best) {
            found = true;
            best = v;
        }
        i = i + 1;
    }
    proof {
        let j0 = choose|j: int| 0 <= j < n && s[j] == mx;
        lemma_count_le_all(s, mx, n as int);
        assert(count_le(s, s[j0], n as int) > h);
        assert(found);
        lemma_max_below(s, best, n as int);
        if count_lt(s, best, n as int) > h {
            let w = max_below(s, best, n as int)->0;
            lemma_count_gap(s, w, best, n as int);
            let jw = choose|j: int| 0 <= j < n && s[j] == w;
            assert(count_le(s, s[jw], n as int) > h);
            assert(false);
        }
        assert(s.len() == n);
    }
    (mx, best, zeros)
}

/// Do all the given output bits sum to zero over the cube, at this key and
/// base nonce?
pub fn zero_sums_hold(key: &Key, base: &Nonce, cube: &[usize], r: u32, rate: &[usize], sample: &[usize]) -> (ok: bool)
    requires
        cube_ok(cube@),
        forall|k: int| 0 <= k < sample@.len() ==> out_bit_ok(rate@, #[trigger] sample@[k] as int),
    ensures
        ok == forall|k: int| 0 <= k < sample@.len() ==> cube_sum_spec(key@, base@, cube@, r, #[trigger] sample@[k] as int, rate@) == 0,
{
    let mut k: usize = 0;
    while k < sample.len()
        invariant
            k <= sample@.len(),
            cube_ok(cube@),
            forall|j: int| 0 <= j < sample@.len() ==> out_bit_ok(rate@, #[trigger] sample@[j] as int),
            forall|j: int| 0 <= j < k ==> cube_sum_spec(key@, base@, cube@, r, #[trigger] sample@[j] as int, rate@) == 0,
        decreases sample@.len() - k,
    {
        if cube_sum_from(key, base, cube, r, sample[k], rate) != 0 {
            return false;
        }
        k = k + 1;
    }
    true
}

/// Measure whether bits with a degree-0 bound really ignore the nonce: for each
/// sampled output bit, draw a key and a base nonce, then up to `tries` fresh
/// nonces; count the bits that some fresh nonce moves.
pub fn constancy_violations(sample: &[usize], r: u32, rate: &[usize], tries: usize, rng: &mut u64) -> (v: usize)
    requires
        forall|k: int| 0 <= k < sample@.len() ==> out_bit_ok(rate@, #[trigger] sample@[k] as int),
    ensures
        (v as nat, *final(rng)) == violations_upto(sample@, r, rate@, tries as nat, *old(rng), sample@.len() as int),
{
    let mut viol: usize = 0;
    let mut m: usize = 0;
    while m < sample.len()
        invariant
            m <= sample@.len(),
            viol <= m,
            forall|j: int| 0 <= j < sample@.len() ==> out_bit_ok(rate@, #[trigger] sample@[j] as int),
            (viol as nat, *rng) == violations_upto(sample@, r, rate@, tries as nat, *old(rng), m as int),
        decreases sample@.len() - m,
    {
        let o = sample[m];
        let k = random_key(rng);
        let base = random_nonce(rng);
        let b0 = out_bit(&k, &base, r, o, rate);
        let ghost x2 = *rng;
        let mut moved: bool = false;
        let mut t: usize = 0;
        while t < tries && !moved
            invariant
                t <= tries,
                out_bit_ok(rate@, o as int),
                moves_within(k@, b0, r, o as int, rate@, tries as nat, x2)
                    == (if moved { (true, *rng) } else { moves_within(k@, b0, r, o as int, rate@, (tries - t) as nat, *rng) }),
            decreases tries - t,
        {
            let n2 = random_nonce(rng);
            if out_bit(&k, &n2, r, o, rate) != b0 {
                moved = true;
            }
            t = t + 1;
        }
        if moved {
            viol = viol + 1;
        }
        m = m + 1;
    }
    viol
}

} // verus!
