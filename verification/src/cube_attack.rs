//! The cube attack on a deliberately weakened variant of the sponge: the state is
//! key (16 bytes) || nonce (64 bytes) in the first 80 rate cells, capacity zero,
//! one reduced-round permutation, and the rate is the output.
//!
//! Every output bit is a polynomial over GF(2) in the key and nonce bits. Summing
//! an output bit over all 2^d assignments of a chosen set of d nonce bits (the
//! cube) leaves the superpoly; where it is linear in the key it is a free linear
//! equation on the key, and enough of them are solved by Gaussian elimination.
use vstd::prelude::*;
use crate::geometry::Cube;
use crate::gf2::has_bit;
use crate::permutation::{permute_r, permute_r_spec};
use crate::rng::{random_key, random_nonce, random_seq, xorshift, xorshift_iter, xorshift_step};

verus! {

/// Key length in bytes.
pub const KEY_BYTES: usize = 16;

/// Key length in bits.
pub const KEY_BITS: usize = 128;

/// Nonce bytes used as attacker-controlled variables.
pub const NONCE_BYTES: usize = 64;

/// Nonce length in bits.
pub const NONCE_BITS: usize = 512;

/// A key.
pub type Key = [u8; KEY_BYTES];

/// A nonce.
pub type Nonce = [u8; NONCE_BYTES];

// ---------------------------------------------------------------------------
// Mathematical model
// ---------------------------------------------------------------------------

/// Bit `bit` of a byte string (little-endian within each byte), as 0 or 1.
pub open spec fn bit_of(s: Seq<u8>, bit: int) -> u8 {
    (s[bit / 8] >> ((bit % 8) as u8)) & 1u8
}

/// The key with only bit `bit` set.
pub open spec fn unit_key_spec(bit: int) -> Seq<u8> {
    Seq::new(16, |i: int| if i == bit / 8 { 1u8 << ((bit % 8) as u8) } else { 0u8 })
}

/// Bytewise XOR of two byte strings of length `n`.
pub open spec fn xor_seq(a: Seq<u8>, b: Seq<u8>, n: nat) -> Seq<u8> {
    Seq::new(n, |i: int| a[i] ^ b[i])
}

/// The byte string with bit `bit` flipped.
pub open spec fn toggle_bit_spec(s: Seq<u8>, bit: int) -> Seq<u8> {
    s.update(bit / 8, s[bit / 8] ^ (1u8 << ((bit % 8) as u8)))
}

/// The byte string with bit `bit` set to `v` (1 sets it, anything else clears it).
pub open spec fn set_bit_spec(s: Seq<u8>, bit: int, v: u8) -> Seq<u8> {
    let m = 1u8 << ((bit % 8) as u8);
    s.update(bit / 8, if v == 1 { s[bit / 8] | m } else { s[bit / 8] & !m })
}

/// Bytes written one after another into cells: byte t goes into cell cells[t],
/// for t < n, later writes winning.
pub open spec fn write_cells(s: Seq<u8>, cells: Seq<usize>, bytes: Seq<u8>, n: int) -> Seq<u8>
    decreases n,
{
    if n <= 0 {
        s
    } else {
        write_cells(s, cells, bytes, n - 1).update(cells[n - 1] as int, bytes[n - 1])
    }
}

/// A rate description usable by the attacked construction: at least 80 cells,
/// the first 80 of them (where key and nonce go) cells of the cube.
pub open spec fn attack_rate_ok(rate: Seq<usize>) -> bool {
    rate.len() >= 80 && forall|i: int| 0 <= i < 80 ==> #[trigger] rate[i] < 512
}

/// Output bit `o` can be read from this rate: the construction's cells are
/// cells of the cube, and so is the rate cell holding bit o.
pub open spec fn out_bit_ok(rate: Seq<usize>, o: int) -> bool {
    attack_rate_ok(rate) && 0 <= o / 8 < rate.len() && rate[o / 8] < 512
}

/// The attacked construction's input state: key in the first 16 rate cells,
/// nonce in the next 64, everything else zero.
pub open spec fn load_state(key: Seq<u8>, nonce: Seq<u8>, rate: Seq<usize>) -> Seq<u8> {
    write_cells(Seq::new(512, |i: int| 0u8), rate, key + nonce, 80)
}

/// Output bit `o` of the attacked construction: bit o % 8 of rate cell o / 8
/// after `rounds` rounds.
#[verifier::opaque]
pub open spec fn out_bit_spec(key: Seq<u8>, nonce: Seq<u8>, rounds: u32, o: int, rate: Seq<usize>) -> u8 {
    let y = permute_r_spec(load_state(key, nonce, rate), rounds as nat);
    (y[rate[o / 8] as int] >> ((o % 8) as u8)) & 1u8
}

/// The nonce used for cube assignment `mask`: starting from `base`, cube bit k
/// is set to bit k of `mask`, for k < n.
pub open spec fn cube_nonce(base: Seq<u8>, cube: Seq<usize>, mask: u64, n: int) -> Seq<u8>
    decreases n,
{
    if n <= 0 {
        base
    } else {
        set_bit_spec(
            cube_nonce(base, cube, mask, n - 1),
            cube[n - 1] as int,
            ((mask >> ((n - 1) as u64)) & 1u64) as u8,
        )
    }
}

/// XOR of output bit `o` over cube assignments 0..m.
pub open spec fn cube_sum_upto(
    key: Seq<u8>,
    base: Seq<u8>,
    cube: Seq<usize>,
    rounds: u32,
    o: int,
    rate: Seq<usize>,
    m: nat,
) -> u8
    decreases m,
{
    if m == 0 {
        0u8
    } else {
        cube_sum_upto(key, base, cube, rounds, o, rate, (m - 1) as nat) ^ out_bit_spec(
            key,
            cube_nonce(base, cube, (m - 1) as u64, cube.len() as int),
            rounds,
            o,
            rate,
        )
    }
}

/// The superpoly at `key`: XOR of output bit `o` over all 2^d assignments of the
/// cube, the other nonce bits held as in `base`.
pub open spec fn cube_sum_spec(
    key: Seq<u8>,
    base: Seq<u8>,
    cube: Seq<usize>,
    rounds: u32,
    o: int,
    rate: Seq<usize>,
) -> u8 {
    cube_sum_upto(key, base, cube, rounds, o, rate, (1u64 << (cube.len() as u64)) as nat)
}

/// The all-zero nonce.
pub open spec fn zero_nonce() -> Seq<u8> {
    Seq::new(64, |i: int| 0u8)
}

/// The all-zero key.
pub open spec fn zero_key() -> Seq<u8> {
    Seq::new(16, |i: int| 0u8)
}

/// Cube indices usable by the cube sum: fewer than 64 of them, all nonce bits.
pub open spec fn cube_ok(cube: Seq<usize>) -> bool {
    cube.len() < 64 && forall|k: int| 0 <= k < cube.len() ==> #[trigger] cube[k] < 512
}

/// Probing key bit `j` of output bit `o`: each probe draws a random key and a
/// random nonce and checks whether flipping key bit j flips the output. Returns
/// whether some probe saw it move, and the generator state afterwards.
pub open spec fn key_probe(o: int, rounds: u32, rate: Seq<usize>, j: int, probes: nat, x: u64) -> (bool, u64)
    decreases probes,
{
    if probes == 0 {
        (false, x)
    } else {
        let k = random_seq(x, 16);
        let x1 = xorshift_iter(x, 16);
        let n = random_seq(x1, 64);
        let x2 = xorshift_iter(x1, 64);
        let k2 = xor_seq(k, unit_key_spec(j), 16);
        if out_bit_spec(k, n, rounds, o, rate) != out_bit_spec(k2, n, rounds, o, rate) {
            (true, x2)
        } else {
            key_probe(o, rounds, rate, j, (probes - 1) as nat, x2)
        }
    }
}

/// The key bits among 0..m that some probe saw move output bit `o`, in
/// increasing order, and the generator state afterwards.
pub open spec fn key_influence_upto(o: int, rounds: u32, rate: Seq<usize>, probes: nat, x: u64, m: nat) -> (Seq<usize>, u64)
    decreases m,
{
    if m == 0 {
        (Seq::empty(), x)
    } else {
        let prev = key_influence_upto(o, rounds, rate, probes, x, (m - 1) as nat);
        let p = key_probe(o, rounds, rate, (m - 1) as int, probes, prev.1);
        (if p.0 { prev.0.push((m - 1) as usize) } else { prev.0 }, p.1)
    }
}

/// Probing nonce bit `b` of output bit `o`, as key_probe but flipping a nonce bit.
pub open spec fn nonce_probe(o: int, rounds: u32, rate: Seq<usize>, b: int, probes: nat, x: u64) -> (bool, u64)
    decreases probes,
{
    if probes == 0 {
        (false, x)
    } else {
        let k = random_seq(x, 16);
        let x1 = xorshift_iter(x, 16);
        let n = random_seq(x1, 64);
        let x2 = xorshift_iter(x1, 64);
        let n2 = toggle_bit_spec(n, b);
        if out_bit_spec(k, n, rounds, o, rate) != out_bit_spec(k, n2, rounds, o, rate) {
            (true, x2)
        } else {
            nonce_probe(o, rounds, rate, b, (probes - 1) as nat, x2)
        }
    }
}

/// The nonce bits among 0..m that some probe saw move output bit `o`.
pub open spec fn nonce_influence_upto(o: int, rounds: u32, rate: Seq<usize>, probes: nat, x: u64, m: nat) -> (Seq<usize>, u64)
    decreases m,
{
    if m == 0 {
        (Seq::empty(), x)
    } else {
        let prev = nonce_influence_upto(o, rounds, rate, probes, x, (m - 1) as nat);
        let p = nonce_probe(o, rounds, rate, (m - 1) as int, probes, prev.1);
        (if p.0 { prev.0.push((m - 1) as usize) } else { prev.0 }, p.1)
    }
}

/// Drawing a cube of `d` distinct bits from `pool`: each draw takes
/// pool[next output % pool.len()] and keeps it if new, for at most 10000 draws.
pub open spec fn pick_cube_from(pool: Seq<usize>, d: nat, x: u64, c: Seq<usize>, guard: nat) -> (Seq<usize>, u64)
    decreases 10000 - guard,
{
    if c.len() >= d || guard >= 10000 {
        (c, x)
    } else {
        let x1 = xorshift_step(x);
        let b = pool[(x1 % (pool.len() as u64)) as int];
        pick_cube_from(pool, d, x1, if c.contains(b) { c } else { c.push(b) }, guard + 1)
    }
}

/// The superpoly at a key, other nonce bits zero.
pub open spec fn superpoly(key: Seq<u8>, cube: Seq<usize>, rounds: u32, o: int, rate: Seq<usize>) -> u8 {
    cube_sum_spec(key, zero_nonce(), cube, rounds, o, rate)
}

/// The Blum-Luby-Rubinfeld test over `trials` random key pairs x, y: does
/// p(x) ^ p(y) ^ p(0) == p(x ^ y) hold every time? Returns the outcome and the
/// generator state afterwards.
pub open spec fn blr_spec(cube: Seq<usize>, rounds: u32, o: int, rate: Seq<usize>, c0: u8, trials: nat, x: u64) -> (bool, u64)
    decreases trials,
{
    if trials == 0 {
        (true, x)
    } else {
        let kx = random_seq(x, 16);
        let x1 = xorshift_iter(x, 16);
        let ky = random_seq(x1, 16);
        let x2 = xorshift_iter(x1, 16);
        let kxy = xor_seq(kx, ky, 16);
        if superpoly(kx, cube, rounds, o, rate) ^ superpoly(ky, cube, rounds, o, rate) ^ c0
            != superpoly(kxy, cube, rounds, o, rate) {
            (false, x2)
        } else {
            blr_spec(cube, rounds, o, rate, c0, (trials - 1) as nat, x2)
        }
    }
}

/// Does some random key among `trials` give a superpoly value other than `c0`?
pub open spec fn nonconstant_spec(cube: Seq<usize>, rounds: u32, o: int, rate: Seq<usize>, c0: u8, trials: nat, x: u64) -> (bool, u64)
    decreases trials,
{
    if trials == 0 {
        (false, x)
    } else {
        let k = random_seq(x, 16);
        let x1 = xorshift_iter(x, 16);
        if superpoly(k, cube, rounds, o, rate) != c0 {
            (true, x1)
        } else {
            nonconstant_spec(cube, rounds, o, rate, c0, (trials - 1) as nat, x1)
        }
    }
}

/// Linear coefficients of the superpoly over key_pool[0..m]: bit j is set when
/// p(e_j) ^ p(0) == 1.
pub open spec fn coeffs_upto(cube: Seq<usize>, rounds: u32, o: int, rate: Seq<usize>, pool: Seq<usize>, c0: u8, m: int) -> u128
    decreases m,
{
    if m <= 0 {
        0u128
    } else {
        let prev = coeffs_upto(cube, rounds, o, rate, pool, c0, m - 1);
        let j = pool[m - 1];
        if superpoly(unit_key_spec(j as int), cube, rounds, o, rate) ^ c0 == 1 {
            prev | (1u128 << (j as u128))
        } else {
            prev
        }
    }
}

/// Key bit `j` really influences output bit `o`: some key and nonce give a
/// different output once key bit j is flipped.
pub open spec fn key_bit_influences(o: int, rounds: u32, rate: Seq<usize>, j: int) -> bool {
    exists|k: Seq<u8>, n: Seq<u8>|
        k.len() == 16 && n.len() == 64 && #[trigger] out_bit_spec(k, n, rounds, o, rate)
            != out_bit_spec(xor_seq(k, unit_key_spec(j), 16), n, rounds, o, rate)
}

/// Nonce bit `b` really influences output bit `o`.
pub open spec fn nonce_bit_influences(o: int, rounds: u32, rate: Seq<usize>, b: int) -> bool {
    exists|k: Seq<u8>, n: Seq<u8>|
        k.len() == 16 && n.len() == 64 && #[trigger] out_bit_spec(k, n, rounds, o, rate)
            != out_bit_spec(k, toggle_bit_spec(n, b), rounds, o, rate)
}

/// A probe that reports movement has seen a real influence.
proof fn lemma_key_probe_sound(o: int, rounds: u32, rate: Seq<usize>, j: int, probes: nat, x: u64)
    ensures
        key_probe(o, rounds, rate, j, probes, x).0 ==> key_bit_influences(o, rounds, rate, j),
    decreases probes,
{
    if probes > 0 {
        let k = random_seq(x, 16);
        let x1 = xorshift_iter(x, 16);
        let n = random_seq(x1, 64);
        let x2 = xorshift_iter(x1, 64);
        let k2 = xor_seq(k, unit_key_spec(j), 16);
        if out_bit_spec(k, n, rounds, o, rate) != out_bit_spec(k2, n, rounds, o, rate) {
            assert(k.len() == 16 && n.len() == 64);
        } else {
            lemma_key_probe_sound(o, rounds, rate, j, (probes - 1) as nat, x2);
        }
    }
}

/// A nonce probe that reports movement has seen a real influence.
proof fn lemma_nonce_probe_sound(o: int, rounds: u32, rate: Seq<usize>, b: int, probes: nat, x: u64)
    ensures
        nonce_probe(o, rounds, rate, b, probes, x).0 ==> nonce_bit_influences(o, rounds, rate, b),
    decreases probes,
{
    if probes > 0 {
        let k = random_seq(x, 16);
        let x1 = xorshift_iter(x, 16);
        let n = random_seq(x1, 64);
        let x2 = xorshift_iter(x1, 64);
        if out_bit_spec(k, n, rounds, o, rate) != out_bit_spec(k, toggle_bit_spec(n, b), rounds, o, rate) {
            assert(k.len() == 16 && n.len() == 64);
        } else {
            lemma_nonce_probe_sound(o, rounds, rate, b, (probes - 1) as nat, x2);
        }
    }
}

/// A key-bit report is sound: a strictly increasing list of bits below m, each
/// of which really influences output bit `o`.
pub open spec fn key_report_sound(r: Seq<usize>, m: int, o: int, rounds: u32, rate: Seq<usize>) -> bool {
    &&& forall|t: int| 0 <= t < r.len() ==> #[trigger] r[t] < m && key_bit_influences(o, rounds, rate, r[t] as int)
    &&& forall|t1: int, t2: int| 0 <= t1 < t2 < r.len() ==> #[trigger] r[t1] < #[trigger] r[t2]
}

/// A nonce-bit report is sound: a strictly increasing list of bits below m, each
/// of which really influences output bit `o`.
pub open spec fn nonce_report_sound(r: Seq<usize>, m: int, o: int, rounds: u32, rate: Seq<usize>) -> bool {
    &&& forall|t: int| 0 <= t < r.len() ==> #[trigger] r[t] < m && nonce_bit_influences(o, rounds, rate, r[t] as int)
    &&& forall|t1: int, t2: int| 0 <= t1 < t2 < r.len() ==> #[trigger] r[t1] < #[trigger] r[t2]
}

/// Every key bit reported by the influence scan over 0..m really influences the
/// output bit, and the report is strictly increasing.
pub proof fn lemma_key_influence_sound(o: int, rounds: u32, rate: Seq<usize>, probes: nat, x: u64, m: nat)
    requires
        m <= 4096,
    ensures
        key_report_sound(key_influence_upto(o, rounds, rate, probes, x, m).0, m as int, o, rounds, rate),
    decreases m,
{
    if m > 0 {
        lemma_key_influence_sound(o, rounds, rate, probes, x, (m - 1) as nat);
        let prev = key_influence_upto(o, rounds, rate, probes, x, (m - 1) as nat);
        let p = key_probe(o, rounds, rate, (m - 1) as int, probes, prev.1);
        lemma_key_probe_sound(o, rounds, rate, (m - 1) as int, probes, prev.1);
        let r = key_influence_upto(o, rounds, rate, probes, x, m).0;
        if p.0 {
            assert(r == prev.0.push((m - 1) as usize));
            assert forall|t: int| 0 <= t < r.len() implies #[trigger] r[t] < m && key_bit_influences(o, rounds, rate, r[t] as int) by {
                if t < prev.0.len() {
                    assert(r[t] == prev.0[t]);
                }
            }
        } else {
            assert(r == prev.0);
        }
    }
}

/// Every nonce bit reported by the influence scan over 0..m really influences the
/// output bit, and the report is strictly increasing.
pub proof fn lemma_nonce_influence_sound(o: int, rounds: u32, rate: Seq<usize>, probes: nat, x: u64, m: nat)
    requires
        m <= 4096,
    ensures
        nonce_report_sound(nonce_influence_upto(o, rounds, rate, probes, x, m).0, m as int, o, rounds, rate),
    decreases m,
{
    if m > 0 {
        lemma_nonce_influence_sound(o, rounds, rate, probes, x, (m - 1) as nat);
        let prev = nonce_influence_upto(o, rounds, rate, probes, x, (m - 1) as nat);
        let p = nonce_probe(o, rounds, rate, (m - 1) as int, probes, prev.1);
        lemma_nonce_probe_sound(o, rounds, rate, (m - 1) as int, probes, prev.1);
        let r = nonce_influence_upto(o, rounds, rate, probes, x, m).0;
        if p.0 {
            assert(r == prev.0.push((m - 1) as usize));
            assert forall|t: int| 0 <= t < r.len() implies #[trigger] r[t] < m && nonce_bit_influences(o, rounds, rate, r[t] as int) by {
                if t < prev.0.len() {
                    assert(r[t] == prev.0[t]);
                }
            }
        } else {
            assert(r == prev.0);
        }
    }
}

// ---------------------------------------------------------------------------
// Executable building blocks
// ---------------------------------------------------------------------------

/// The key with only bit `bit` set.
pub fn unit_key(bit: usize) -> (k: Key)
    requires
        bit < KEY_BITS,
    ensures
        k@ == unit_key_spec(bit as int),
{
    let mut k: Key = [0u8; 16];
    k[bit / 8] = 1u8 << ((bit % 8) as u8);
    assert(k@ =~= unit_key_spec(bit as int));
    k
}

/// Bytewise XOR of two keys.
pub fn xor_keys(a: &Key, b: &Key) -> (o: Key)
    ensures
        o@ == xor_seq(a@, b@, 16),
{
    let mut o: Key = [0u8; 16];
    let mut i: usize = 0;
    while i < KEY_BYTES
        invariant
            i <= 16,
            forall|j: int| 0 <= j < i ==> #[trigger] o@[j] == a@[j] ^ b@[j],
        decreases 16 - i,
    {
        o[i] = a[i] ^ b[i];
        i = i + 1;
    }
    assert(o@ =~= xor_seq(a@, b@, 16));
    o
}

/// Bit `bit` of a key, as 0 or 1.
pub fn key_bit(k: &Key, bit: usize) -> (r: u8)
    requires
        bit < KEY_BITS,
    ensures
        r == bit_of(k@, bit as int),
{
    (k[bit / 8] >> ((bit % 8) as u8)) & 1
}

/// Flip bit `bit` of a nonce.
pub fn toggle_nonce_bit(n: &mut Nonce, bit: usize)
    requires
        bit < NONCE_BITS,
    ensures
        final(n)@ == toggle_bit_spec(old(n)@, bit as int),
{
    let i: usize = bit / 8;
    n[i] = n[i] ^ (1u8 << ((bit % 8) as u8));
    assert(n@ =~= toggle_bit_spec(old(n)@, bit as int));
}

/// Set bit `bit` of a nonce to `v` (1 sets it, anything else clears it).
pub fn set_nonce_bit(n: &mut Nonce, bit: usize, v: u8)
    requires
        bit < NONCE_BITS,
    ensures
        final(n)@ == set_bit_spec(old(n)@, bit as int, v),
{
    let m: u8 = 1u8 << ((bit % 8) as u8);
    let i: usize = bit / 8;
    if v == 1 {
        n[i] = n[i] | m;
    } else {
        n[i] = n[i] & !m;
    }
    assert(n@ =~= set_bit_spec(old(n)@, bit as int, v));
}

/// The attacked construction: key in the first 16 rate cells, nonce in the next
/// 64 rate cells, capacity zero, one reduced-round permutation; the output is
/// bit o % 8 of rate cell o / 8.
pub fn out_bit(key: &Key, nonce: &Nonce, rounds: u32, o: usize, rate: &[usize]) -> (r: u8)
    requires
        out_bit_ok(rate@, o as int),
    ensures
        r == out_bit_spec(key@, nonce@, rounds, o as int, rate@),
{
    let ghost bytes = key@ + nonce@;
    let mut s: Cube = [0u8; 512];
    assert(s@ =~= write_cells(Seq::new(512, |i: int| 0u8), rate@, bytes, 0));
    let mut i: usize = 0;
    while i < KEY_BYTES
        invariant
            attack_rate_ok(rate@),
            bytes == key@ + nonce@,
            i <= 16,
            s@ == write_cells(Seq::new(512, |i: int| 0u8), rate@, bytes, i as int),
        decreases 16 - i,
    {
        s[rate[i]] = key[i];
        assert(s@ =~= write_cells(Seq::new(512, |i: int| 0u8), rate@, bytes, i + 1));
        i = i + 1;
    }
    let mut i: usize = 0;
    while i < NONCE_BYTES
        invariant
            attack_rate_ok(rate@),
            bytes == key@ + nonce@,
            i <= 64,
            s@ == write_cells(Seq::new(512, |i: int| 0u8), rate@, bytes, 16 + i),
        decreases 64 - i,
    {
        s[rate[KEY_BYTES + i]] = nonce[i];
        assert(s@ =~= write_cells(Seq::new(512, |i: int| 0u8), rate@, bytes, 16 + i + 1));
        i = i + 1;
    }
    let y = permute_r(&s, rounds);
    proof {
        crate::permutation::lemma_permute_r_len(s@, rounds as nat);
        reveal(out_bit_spec);
    }
    (y[rate[o / 8]] >> ((o % 8) as u8)) & 1
}

/// Which key bits actually influence output bit `o` at this round count? Each key
/// bit gets up to `probes` random (key, nonce) probes; it is reported as soon as
/// one probe sees the output move.
pub fn key_influence(o: usize, rounds: u32, rate: &[usize], probes: usize, rng: &mut u64) -> (infl: Vec<usize>)
    requires
        out_bit_ok(rate@, o as int),
    ensures
        (infl@, *final(rng)) == key_influence_upto(o as int, rounds, rate@, probes as nat, *old(rng), 128),
        key_report_sound(infl@, 128, o as int, rounds, rate@),
{
    proof {
        lemma_key_influence_sound(o as int, rounds, rate@, probes as nat, *rng, 128);
    }
    let ghost x0 = *rng;
    let mut infl: Vec<usize> = Vec::new();
    let mut j: usize = 0;
    while j < KEY_BITS
        invariant
            out_bit_ok(rate@, o as int),
            j <= 128,
            (infl@, *rng) == key_influence_upto(o as int, rounds, rate@, probes as nat, x0, j as nat),
        decreases 128 - j,
    {
        let ghost xj = *rng;
        let mut moves = false;
        let mut p: usize = 0;
        while p < probes && !moves
            invariant
                out_bit_ok(rate@, o as int),
                j < 128,
                p <= probes,
                !moves ==> key_probe(o as int, rounds, rate@, j as int, (probes - p) as nat, *rng)
                    == key_probe(o as int, rounds, rate@, j as int, probes as nat, xj),
                moves ==> key_probe(o as int, rounds, rate@, j as int, probes as nat, xj) == (true, *rng),
            decreases probes - p + (if moves { 0int } else { 1int }),
        {
            let k = random_key(rng);
            let n = random_nonce(rng);
            let k2 = xor_keys(&k, &unit_key(j));
            if out_bit(&k, &n, rounds, o, rate) != out_bit(&k2, &n, rounds, o, rate) {
                moves = true;
            } else {
                p = p + 1;
            }
        }
        if moves {
            infl.push(j);
        }
        j = j + 1;
    }
    infl
}

/// Which nonce bits actually influence output bit `o` at this round count?
pub fn nonce_influence(o: usize, rounds: u32, rate: &[usize], probes: usize, rng: &mut u64) -> (infl: Vec<usize>)
    requires
        out_bit_ok(rate@, o as int),
    ensures
        (infl@, *final(rng)) == nonce_influence_upto(o as int, rounds, rate@, probes as nat, *old(rng), 512),
        nonce_report_sound(infl@, 512, o as int, rounds, rate@),
{
    proof {
        lemma_nonce_influence_sound(o as int, rounds, rate@, probes as nat, *rng, 512);
    }
    let ghost x0 = *rng;
    let mut infl: Vec<usize> = Vec::new();
    let mut b: usize = 0;
    while b < NONCE_BITS
        invariant
            out_bit_ok(rate@, o as int),
            b <= 512,
            (infl@, *rng) == nonce_influence_upto(o as int, rounds, rate@, probes as nat, x0, b as nat),
        decreases 512 - b,
    {
        let ghost xb = *rng;
        let mut moves = false;
        let mut p: usize = 0;
        while p < probes && !moves
            invariant
                out_bit_ok(rate@, o as int),
                b < 512,
                p <= probes,
                !moves ==> nonce_probe(o as int, rounds, rate@, b as int, (probes - p) as nat, *rng)
                    == nonce_probe(o as int, rounds, rate@, b as int, probes as nat, xb),
                moves ==> nonce_probe(o as int, rounds, rate@, b as int, probes as nat, xb) == (true, *rng),
            decreases probes - p + (if moves { 0int } else { 1int }),
        {
            let k = random_key(rng);
            let n = random_nonce(rng);
            let mut n2: Nonce = n;
            toggle_nonce_bit(&mut n2, b);
            if out_bit(&k, &n, rounds, o, rate) != out_bit(&k, &n2, rounds, o, rate) {
                moves = true;
            } else {
                p = p + 1;
            }
        }
        if moves {
            infl.push(b);
        }
        b = b + 1;
    }
    infl
}

/// Sum output bit `o` over all 2^d assignments of the cube bits, every other
/// nonce bit held as in `base`.
pub fn cube_sum_from(key: &Key, base: &Nonce, cube: &[usize], rounds: u32, o: usize, rate: &[usize]) -> (acc: u8)
    requires
        cube_ok(cube@),
        out_bit_ok(rate@, o as int),
    ensures
        acc == cube_sum_spec(key@, base@, cube@, rounds, o as int, rate@),
{
    let d: usize = cube.len();
    let limit: u64 = 1u64 << (d as u64);
    let mut acc: u8 = 0;
    let mut mask: u64 = 0;
    while mask < limit
        invariant
            cube_ok(cube@),
            out_bit_ok(rate@, o as int),
            d == cube@.len(),
            limit == 1u64 << (d as u64),
            mask <= limit,
            acc == cube_sum_upto(key@, base@, cube@, rounds, o as int, rate@, mask as nat),
        decreases limit - mask,
    {
        let mut n: Nonce = *base;
        let mut k: usize = 0;
        while k < d
            invariant
                cube_ok(cube@),
                d == cube@.len(),
                k <= d,
                n@ == cube_nonce(base@, cube@, mask, k as int),
            decreases d - k,
        {
            set_nonce_bit(&mut n, cube[k], ((mask >> (k as u64)) & 1) as u8);
            k = k + 1;
        }
        acc = acc ^ out_bit(key, &n, rounds, o, rate);
        mask = mask + 1;
    }
    acc
}

/// Sum output bit `o` over all 2^d assignments of the cube bits, every other
/// nonce bit zero. This is the superpoly evaluated at `key`.
pub fn cube_sum(key: &Key, cube: &[usize], rounds: u32, o: usize, rate: &[usize]) -> (acc: u8)
    requires
        cube_ok(cube@),
        out_bit_ok(rate@, o as int),
    ensures
        acc == superpoly(key@, cube@, rounds, o as int, rate@),
{
    let n: Nonce = [0u8; 64];
    assert(n@ =~= zero_nonce());
    cube_sum_from(key, &n, cube, rounds, o, rate)
}

/// Whether `v` holds `b`.
fn contains_usize(v: &Vec<usize>, b: usize) -> (r: bool)
    ensures
        r == v@.contains(b),
{
    let mut i: usize = 0;
    while i < v.len()
        invariant
            i <= v@.len(),
            forall|t: int| 0 <= t < i ==> v@[t] != b,
        decreases v@.len() - i,
    {
        if v[i] == b {
            return true;
        }
        i = i + 1;
    }
    false
}

/// Draw a cube of up to `d` distinct bits from `pool` (at most 10000 draws).
pub fn pick_cube(pool: &[usize], d: usize, rng: &mut u64) -> (c: Vec<usize>)
    requires
        pool@.len() > 0 || d == 0,
    ensures
        (c@, *final(rng)) == pick_cube_from(pool@, d as nat, *old(rng), Seq::empty(), 0),
        c@.len() <= d,
        forall|k1: int, k2: int| 0 <= k1 < k2 < c@.len() ==> c@[k1] != c@[k2],
        forall|k: int| 0 <= k < c@.len() ==> pool@.contains(#[trigger] c@[k]),
{
    let ghost x0 = *rng;
    let mut c: Vec<usize> = Vec::with_capacity(d);
    let mut guard: usize = 0;
    while c.len() < d && guard < 10_000
        invariant
            pool@.len() > 0 || d == 0,
            guard <= 10000,
            c@.len() <= d,
            pick_cube_from(pool@, d as nat, *rng, c@, guard as nat) == pick_cube_from(pool@, d as nat, x0, Seq::empty(), 0),
            forall|k1: int, k2: int| 0 <= k1 < k2 < c@.len() ==> c@[k1] != c@[k2],
            forall|k: int| 0 <= k < c@.len() ==> pool@.contains(#[trigger] c@[k]),
        decreases 10000 - guard,
    {
        guard = guard + 1;
        let x: u64 = xorshift(rng);
        let pos: usize = (x % (pool.len() as u64)) as usize;
        let b: usize = pool[pos];
        if !contains_usize(&c, b) {
            c.push(b);
        }
    }
    c
}

/// Blum-Luby-Rubinfeld linearity test: a linear p satisfies p(x)^p(y)^p(0) == p(x^y).
/// Random sampling, so passing is evidence, not proof.
pub fn blr_linear(cube: &[usize], rounds: u32, o: usize, rate: &[usize], c0: u8, trials: usize, rng: &mut u64) -> (r: bool)
    requires
        cube_ok(cube@),
        out_bit_ok(rate@, o as int),
    ensures
        (r, *final(rng)) == blr_spec(cube@, rounds, o as int, rate@, c0, trials as nat, *old(rng)),
{
    let ghost x0 = *rng;
    let mut t: usize = 0;
    while t < trials
        invariant
            cube_ok(cube@),
            out_bit_ok(rate@, o as int),
            t <= trials,
            x0 == *old(rng),
            blr_spec(cube@, rounds, o as int, rate@, c0, (trials - t) as nat, *rng) == blr_spec(cube@, rounds, o as int, rate@, c0, trials as nat, x0),
        decreases trials - t,
    {
        let ghost xb = *rng;
        let x = random_key(rng);
        let y = random_key(rng);
        let xy = xor_keys(&x, &y);
        let px: u8 = cube_sum(&x, cube, rounds, o, rate);
        let py: u8 = cube_sum(&y, cube, rounds, o, rate);
        let pxy: u8 = cube_sum(&xy, cube, rounds, o, rate);
        if px ^ py ^ c0 != pxy {
            assert(blr_spec(cube@, rounds, o as int, rate@, c0, (trials - t) as nat, xb) == (false, *rng));
            return false;
        }
        t = t + 1;
    }
    true
}

/// Cheap pre-filter: is the superpoly non-constant in the key? A random key among
/// `trials` whose superpoly differs from `c0` says yes.
pub fn superpoly_nonconstant(cube: &[usize], rounds: u32, o: usize, rate: &[usize], c0: u8, trials: usize, rng: &mut u64) -> (r: bool)
    requires
        cube_ok(cube@),
        out_bit_ok(rate@, o as int),
    ensures
        (r, *final(rng)) == nonconstant_spec(cube@, rounds, o as int, rate@, c0, trials as nat, *old(rng)),
{
    let ghost x0 = *rng;
    let mut t: usize = 0;
    while t < trials
        invariant
            cube_ok(cube@),
            out_bit_ok(rate@, o as int),
            t <= trials,
            x0 == *old(rng),
            nonconstant_spec(cube@, rounds, o as int, rate@, c0, (trials - t) as nat, *rng) == nonconstant_spec(cube@, rounds, o as int, rate@, c0, trials as nat, x0),
        decreases trials - t,
    {
        let ghost xb = *rng;
        let k = random_key(rng);
        if cube_sum(&k, cube, rounds, o, rate) != c0 {
            assert(nonconstant_spec(cube@, rounds, o as int, rate@, c0, (trials - t) as nat, xb) == (true, *rng));
            return true;
        }
        t = t + 1;
    }
    false
}

/// Superpoly linear coefficients, coeff_j = p(e_j) ^ p(0), for each key bit j in
/// `key_pool`, as a bit mask.
pub fn superpoly_coeffs(cube: &[usize], rounds: u32, o: usize, rate: &[usize], key_pool: &[usize], c0: u8) -> (mask: u128)
    requires
        cube_ok(cube@),
        out_bit_ok(rate@, o as int),
        forall|k: int| 0 <= k < key_pool@.len() ==> #[trigger] key_pool@[k] < 128,
    ensures
        mask == coeffs_upto(cube@, rounds, o as int, rate@, key_pool@, c0, key_pool@.len() as int),
        c0 == superpoly(zero_key(), cube@, rounds, o as int, rate@) ==> forall|j: int|
            0 <= j < 128 ==> (#[trigger] has_bit(mask, j) <==> key_pool@.contains(j as usize) && superpoly(
                unit_key_spec(j),
                cube@,
                rounds,
                o as int,
                rate@,
            ) ^ c0 == 1),
{
    proof {
        lemma_coeffs_are_linear_part(cube@, rounds, o as int, rate@, key_pool@);
    }
    let mut mask: u128 = 0;
    let mut t: usize = 0;
    while t < key_pool.len()
        invariant
            cube_ok(cube@),
            out_bit_ok(rate@, o as int),
            forall|k: int| 0 <= k < key_pool@.len() ==> #[trigger] key_pool@[k] < 128,
            t <= key_pool@.len(),
            mask == coeffs_upto(cube@, rounds, o as int, rate@, key_pool@, c0, t as int),
        decreases key_pool@.len() - t,
    {
        let j: usize = key_pool[t];
        if cube_sum(&unit_key(j), cube, rounds, o, rate) ^ c0 == 1 {
            mask = mask | (1u128 << (j as u128));
        }
        t = t + 1;
    }
    mask
}

// ---------------------------------------------------------------------------
// Laws of the superpoly analysis
// ---------------------------------------------------------------------------

/// The parity of the key bits selected by mask m among bits 0..n: the value of
/// the linear form with coefficient mask m at `key`.
pub open spec fn key_parity(m: u128, key: Seq<u8>, n: int) -> u8
    decreases n,
{
    if n <= 0 {
        0u8
    } else {
        key_parity(m, key, n - 1) ^ if has_bit(m, n - 1) { bit_of(key, n - 1) } else { 0u8 }
    }
}

/// The superpoly is affine in the key with linear part m: p(k) = p(0) XOR <m, k>
/// for every key.
pub open spec fn superpoly_affine(cube: Seq<usize>, rounds: u32, o: int, rate: Seq<usize>, m: u128) -> bool {
    forall|key: Seq<u8>|
        key.len() == 16 ==> #[trigger] superpoly(key, cube, rounds, o, rate) == superpoly(zero_key(), cube, rounds, o, rate)
            ^ key_parity(m, key, 128)
}

proof fn lemma_or_bit(p: u128, j: u128, i: u128)
    by (bit_vector)
    requires
        j < 128,
        i < 128,
    ensures
        (((p | (1u128 << j)) >> i) & 1u128 == 1u128) == (((p >> i) & 1u128 == 1u128) || i == j),
        ((0u128 >> i) & 1u128) != 1u128,
{
}

pub(crate) proof fn lemma_byte_bits(a: u8, b: u8, s: u8, t: u8)
    by (bit_vector)
    requires
        s < 8,
        t < 8,
    ensures
        ((1u8 << s) >> t) & 1u8 == (if s == t { 1u8 } else { 0u8 }),
        (0u8 >> t) & 1u8 == 0u8,
        (a ^ b) ^ a == b,
        a ^ 0u8 == a,
        0u8 ^ a == a,
{
}

/// The coefficients found among key_pool[0..m], against c0 = p(0): bit j is set
/// exactly when j is in that part of the pool and p(e_j) XOR p(0) == 1.
proof fn lemma_coeffs_upto_bits(cube: Seq<usize>, rounds: u32, o: int, rate: Seq<usize>, pool: Seq<usize>, m: int)
    requires
        0 <= m <= pool.len(),
        forall|k: int| 0 <= k < pool.len() ==> #[trigger] pool[k] < 128,
    ensures
        forall|j: int|
            0 <= j < 128 ==> (#[trigger] has_bit(
                coeffs_upto(cube, rounds, o, rate, pool, superpoly(zero_key(), cube, rounds, o, rate), m),
                j,
            ) <==> exists|t: int|
                0 <= t < m && pool[t] as int == j && superpoly(unit_key_spec(j), cube, rounds, o, rate) ^ superpoly(
                    zero_key(),
                    cube,
                    rounds,
                    o,
                    rate,
                ) == 1),
    decreases m,
{
    let c0 = superpoly(zero_key(), cube, rounds, o, rate);
    if m == 0 {
        assert forall|j: int| 0 <= j < 128 implies !#[trigger] has_bit(coeffs_upto(cube, rounds, o, rate, pool, c0, m), j) by {
            lemma_or_bit(0, 0, j as u128);
        }
    } else {
        lemma_coeffs_upto_bits(cube, rounds, o, rate, pool, m - 1);
        let prev = coeffs_upto(cube, rounds, o, rate, pool, c0, m - 1);
        let jj = pool[m - 1];
        let cond = superpoly(unit_key_spec(jj as int), cube, rounds, o, rate) ^ c0 == 1;
        let cur = coeffs_upto(cube, rounds, o, rate, pool, c0, m);
        assert(cur == if cond { prev | (1u128 << (jj as u128)) } else { prev });
        assert forall|j: int| 0 <= j < 128 implies (#[trigger] has_bit(cur, j)
            <==> exists|t: int| 0 <= t < m && pool[t] as int == j && superpoly(unit_key_spec(j), cube, rounds, o, rate) ^ c0 == 1) by {
            lemma_or_bit(prev, jj as u128, j as u128);
            let pj = superpoly(unit_key_spec(j), cube, rounds, o, rate) ^ c0 == 1;
            if has_bit(cur, j) {
                if has_bit(prev, j) {
                    let t = choose|t: int| 0 <= t < m - 1 && pool[t] as int == j && superpoly(unit_key_spec(j), cube, rounds, o, rate) ^ c0 == 1;
                    assert(0 <= t < m && pool[t] as int == j && pj);
                } else {
                    assert(cond && j == jj as int);
                    assert(0 <= m - 1 < m && pool[m - 1] as int == j && pj);
                }
            }
            if exists|t: int| 0 <= t < m && pool[t] as int == j && superpoly(unit_key_spec(j), cube, rounds, o, rate) ^ c0 == 1 {
                let t = choose|t: int| 0 <= t < m && pool[t] as int == j && superpoly(unit_key_spec(j), cube, rounds, o, rate) ^ c0 == 1;
                if t < m - 1 {
                    assert(has_bit(prev, j));
                } else {
                    assert(j == jj as int && cond);
                }
            }
        }
    }
}

/// superpoly_coeffs computes the linear part of the superpoly on the key pool:
/// with c0 = p(0), bit j of the mask is set exactly when j is in the pool and
/// p(e_j) XOR p(0) == 1, and no bit outside the pool is set.
pub proof fn lemma_coeffs_are_linear_part(cube: Seq<usize>, rounds: u32, o: int, rate: Seq<usize>, pool: Seq<usize>)
    requires
        forall|k: int| 0 <= k < pool.len() ==> #[trigger] pool[k] < 128,
    ensures
        forall|j: int|
            0 <= j < 128 ==> (#[trigger] has_bit(
                coeffs_upto(cube, rounds, o, rate, pool, superpoly(zero_key(), cube, rounds, o, rate), pool.len() as int),
                j,
            ) <==> pool.contains(j as usize) && superpoly(unit_key_spec(j), cube, rounds, o, rate) ^ superpoly(
                zero_key(),
                cube,
                rounds,
                o,
                rate,
            ) == 1),
{
    lemma_coeffs_upto_bits(cube, rounds, o, rate, pool, pool.len() as int);
    let c0 = superpoly(zero_key(), cube, rounds, o, rate);
    assert forall|j: int| 0 <= j < 128 implies (#[trigger] has_bit(
        coeffs_upto(cube, rounds, o, rate, pool, c0, pool.len() as int), j)
        <==> pool.contains(j as usize) && superpoly(unit_key_spec(j), cube, rounds, o, rate) ^ c0 == 1) by {
        if pool.contains(j as usize) && superpoly(unit_key_spec(j), cube, rounds, o, rate) ^ c0 == 1 {
            let t = choose|t: int| 0 <= t < pool.len() && pool[t] == j as usize;
            assert(pool[t] as int == j);
        }
    }
}

/// The linear form of mask m at the unit key e_j is bit j of m.
pub(crate) proof fn lemma_key_parity_unit(m: u128, j: int, n: int)
    requires
        0 <= j < 128,
        0 <= n <= 128,
    ensures
        key_parity(m, unit_key_spec(j), n) == if j < n && has_bit(m, j) { 1u8 } else { 0u8 },
    decreases n,
{
    if n > 0 {
        lemma_key_parity_unit(m, j, n - 1);
        let i = n - 1;
        let e = unit_key_spec(j);
        let term: u8 = if has_bit(m, i) { bit_of(e, i) } else { 0u8 };
        lemma_byte_bits(key_parity(m, e, i), 0u8, (j % 8) as u8, (i % 8) as u8);
        lemma_byte_bits(term, 0u8, 0, 0);
        assert(key_parity(m, e, n) == key_parity(m, e, i) ^ term);
        if i / 8 == j / 8 && i % 8 == j % 8 {
            assert(i == j) by {
                vstd::arithmetic::div_mod::lemma_fundamental_div_mod(i, 8);
                vstd::arithmetic::div_mod::lemma_fundamental_div_mod(j, 8);
            }
        }
        if i == j {
            assert(bit_of(e, i) == 1u8);
        } else {
            assert(bit_of(e, i) == 0u8);
        }
    }
}

/// Masks with the same bits below n give the same linear form.
pub(crate) proof fn lemma_key_parity_same_bits(m1: u128, m2: u128, key: Seq<u8>, n: int)
    requires
        n <= 128,
        forall|j: int| 0 <= j < n ==> #[trigger] has_bit(m1, j) == has_bit(m2, j),
    ensures
        key_parity(m1, key, n) == key_parity(m2, key, n),
    decreases n,
{
    if n > 0 {
        lemma_key_parity_same_bits(m1, m2, key, n - 1);
        assert(has_bit(m1, n - 1) == has_bit(m2, n - 1));
    }
}

/// For an affine superpoly p(k) = p(0) XOR <m, k> whose linear part m lies in
/// the key pool, superpoly_coeffs (given c0 = p(0)) finds exactly m, whatever
/// the constant p(0) is.
pub proof fn lemma_coeffs_of_affine_superpoly(cube: Seq<usize>, rounds: u32, o: int, rate: Seq<usize>, pool: Seq<usize>, m: u128)
    requires
        forall|k: int| 0 <= k < pool.len() ==> #[trigger] pool[k] < 128,
        superpoly_affine(cube, rounds, o, rate, m),
        forall|j: int| 0 <= j < 128 && #[trigger] has_bit(m, j) ==> pool.contains(j as usize),
    ensures
        forall|j: int|
            0 <= j < 128 ==> #[trigger] has_bit(
                coeffs_upto(cube, rounds, o, rate, pool, superpoly(zero_key(), cube, rounds, o, rate), pool.len() as int),
                j,
            ) == has_bit(m, j),
{
    lemma_coeffs_are_linear_part(cube, rounds, o, rate, pool);
    let c0 = superpoly(zero_key(), cube, rounds, o, rate);
    assert forall|j: int| 0 <= j < 128 implies #[trigger] has_bit(
        coeffs_upto(cube, rounds, o, rate, pool, c0, pool.len() as int), j) == has_bit(m, j) by {
        let e = unit_key_spec(j);
        assert(e.len() == 16);
        lemma_key_parity_unit(m, j, 128);
        let kp = key_parity(m, e, 128);
        assert(superpoly(e, cube, rounds, o, rate) == c0 ^ kp);
        lemma_byte_bits(c0, kp, 0, 0);
    }
}

} // verus!
