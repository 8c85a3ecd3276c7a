//! Algebraic degree over GF(2) of functions of the nonce, defined through
//! derivatives: f has degree below k in a set of nonce bits when every k-fold
//! derivative along those bits vanishes. XOR keeps the degree, AND adds the
//! degrees, and a cube sum over more bits than the degree vanishes.
use vstd::prelude::*;
use crate::cube_attack::{cube_nonce, set_bit_spec, toggle_bit_spec};

verus! {

// ---------------------------------------------------------------------------
// Mathematical model
// ---------------------------------------------------------------------------

/// A function of the nonce with a byte value (a bit in the uses below).
pub type NonceFn = spec_fn(Seq<u8>) -> u8;

/// Every bit of `vs` is a nonce bit.
pub open spec fn nonce_bits(vs: Set<int>) -> bool {
    forall|v: int| #[trigger] vs.contains(v) ==> 0 <= v < 512
}

/// The derivative of f along nonce bit v: f(n) ^ f(n with bit v flipped).
pub open spec fn deriv(f: NonceFn, v: int) -> NonceFn {
    |n: Seq<u8>| f(n) ^ f(toggle_bit_spec(n, v))
}

/// f has algebraic degree below k in the nonce bits `vs`: for k == 0, f is zero
/// on every nonce; otherwise every derivative of f along a bit of vs has degree
/// below k - 1.
pub open spec fn deg_below(f: NonceFn, k: nat, vs: Set<int>) -> bool
    decreases k,
{
    if k == 0 {
        forall|n: Seq<u8>| n.len() == 64 ==> #[trigger] f(n) == 0
    } else {
        forall|v: int| #[trigger] vs.contains(v) ==> deg_below(deriv(f, v), (k - 1) as nat, vs)
    }
}

/// Pointwise XOR of two functions.
pub open spec fn xor_fn(f: NonceFn, g: NonceFn) -> NonceFn {
    |n: Seq<u8>| f(n) ^ g(n)
}

/// Pointwise AND of two functions.
pub open spec fn and_fn(f: NonceFn, g: NonceFn) -> NonceFn {
    |n: Seq<u8>| f(n) & g(n)
}

/// f after flipping nonce bit u of its argument.
pub open spec fn shift_fn(f: NonceFn, u: int) -> NonceFn {
    |n: Seq<u8>| f(toggle_bit_spec(n, u))
}

/// The zero function.
pub open spec fn zero_fn() -> NonceFn {
    |n: Seq<u8>| 0u8
}

/// A constant function.
pub open spec fn const_fn(c: u8) -> NonceFn {
    |n: Seq<u8>| c
}

// ---------------------------------------------------------------------------
// Byte identities
// ---------------------------------------------------------------------------

proof fn lemma_xor_regroup(a: u8, b: u8, c: u8, d: u8)
    by (bit_vector)
    ensures
        (a ^ b) ^ (c ^ d) == (a ^ c) ^ (b ^ d),
        a ^ a == 0,
        a ^ 0 == a,
        c ^ c ^ c == c,
        (a ^ b) ^ c == a ^ (b ^ c),
        a ^ b == b ^ a,
        (a ^ b) ^ b == a,
        (a ^ b) ^ c == (a ^ c) ^ b,
{
}

/// The product rule for bytes: ab ^ cd == (a ^ c)b ^ c(b ^ d).
proof fn lemma_and_product(a: u8, b: u8, c: u8, d: u8)
    by (bit_vector)
    ensures
        (a & b) ^ (c & d) == ((a ^ c) & b) ^ (c & (b ^ d)),
        (0u8 & b) == 0,
        (a & 0u8) == 0,
{
}


// ---------------------------------------------------------------------------
// Flipping nonce bits
// ---------------------------------------------------------------------------

/// Flipping a nonce bit keeps a nonce a nonce, flipping it twice undoes it, and
/// flips along two bits commute.
proof fn lemma_toggle_facts(n: Seq<u8>, u: int, v: int)
    requires
        n.len() == 64,
        0 <= u < 512,
        0 <= v < 512,
    ensures
        toggle_bit_spec(n, u).len() == 64,
        toggle_bit_spec(toggle_bit_spec(n, u), u) == n,
        toggle_bit_spec(toggle_bit_spec(n, u), v) == toggle_bit_spec(toggle_bit_spec(n, v), u),
{
    let mu = 1u8 << ((u % 8) as u8);
    let mv = 1u8 << ((v % 8) as u8);
    let nu = toggle_bit_spec(n, u);
    lemma_xor_regroup(n[u / 8], mu, mu, 0u8);
    assert(toggle_bit_spec(nu, u) =~= n);
    let a = toggle_bit_spec(nu, v);
    let b = toggle_bit_spec(toggle_bit_spec(n, v), u);
    if u / 8 == v / 8 {
        lemma_xor_regroup(n[u / 8], mu, mv, 0u8);
    }
    assert(a =~= b);
}

// ---------------------------------------------------------------------------
// Degree calculus
// ---------------------------------------------------------------------------

/// The zero function has degree below every k.
pub proof fn lemma_zero_deg(k: nat, vs: Set<int>)
    ensures
        deg_below(zero_fn(), k, vs),
    decreases k,
{
    if k > 0 {
        assert forall|v: int| #[trigger] vs.contains(v) implies deg_below(deriv(zero_fn(), v), (k - 1) as nat, vs) by {
            lemma_zero_deg((k - 1) as nat, vs);
            assert forall|n: Seq<u8>| true implies #[trigger] deriv(zero_fn(), v)(n) == zero_fn()(n) by {
                lemma_xor_regroup(0u8, 0u8, 0u8, 0u8);
            }
            assert(deriv(zero_fn(), v) =~= zero_fn());
        }
    }
}

/// A function that is zero on every nonce has degree below every k.
pub proof fn lemma_vanishing_deg(f: NonceFn, k: nat, vs: Set<int>)
    requires
        nonce_bits(vs),
        forall|n: Seq<u8>| n.len() == 64 ==> #[trigger] f(n) == 0,
    ensures
        deg_below(f, k, vs),
    decreases k,
{
    if k > 0 {
        assert forall|v: int| #[trigger] vs.contains(v) implies deg_below(deriv(f, v), (k - 1) as nat, vs) by {
            assert forall|n: Seq<u8>| n.len() == 64 implies #[trigger] deriv(f, v)(n) == 0 by {
                lemma_toggle_facts(n, v, v);
                lemma_xor_regroup(0u8, 0u8, 0u8, 0u8);
                assert(f(n) == 0 && f(toggle_bit_spec(n, v)) == 0);
            }
            lemma_vanishing_deg(deriv(f, v), (k - 1) as nat, vs);
        }
    }
}

/// Degree below k implies degree below k + 1.
pub proof fn lemma_deg_mono(f: NonceFn, k: nat, vs: Set<int>)
    requires
        nonce_bits(vs),
        deg_below(f, k, vs),
    ensures
        deg_below(f, k + 1, vs),
    decreases k,
{
    if k == 0 {
        assert forall|v: int| #[trigger] vs.contains(v) implies deg_below(deriv(f, v), 0, vs) by {
            assert forall|n: Seq<u8>| n.len() == 64 implies #[trigger] deriv(f, v)(n) == 0 by {
                lemma_toggle_facts(n, v, v);
                assert(f(n) == 0 && f(toggle_bit_spec(n, v)) == 0);
                lemma_xor_regroup(0u8, 0u8, 0u8, 0u8);
            }
        }
    } else {
        assert forall|v: int| #[trigger] vs.contains(v) implies deg_below(deriv(f, v), k, vs) by {
            lemma_deg_mono(deriv(f, v), (k - 1) as nat, vs);
        }
    }
}

/// Degree below j implies degree below every k >= j.
pub proof fn lemma_deg_mono_to(f: NonceFn, j: nat, k: nat, vs: Set<int>)
    requires
        nonce_bits(vs),
        deg_below(f, j, vs),
        j <= k,
    ensures
        deg_below(f, k, vs),
    decreases k - j,
{
    if j < k {
        lemma_deg_mono(f, j, vs);
        lemma_deg_mono_to(f, j + 1, k, vs);
    }
}

/// XOR keeps the degree: below k for both, below k for the XOR.
pub proof fn lemma_xor_deg(f: NonceFn, g: NonceFn, k: nat, vs: Set<int>)
    requires
        nonce_bits(vs),
        deg_below(f, k, vs),
        deg_below(g, k, vs),
    ensures
        deg_below(xor_fn(f, g), k, vs),
    decreases k,
{
    if k == 0 {
        assert forall|n: Seq<u8>| n.len() == 64 implies #[trigger] xor_fn(f, g)(n) == 0 by {
            assert(f(n) == 0 && g(n) == 0);
            lemma_xor_regroup(0u8, 0u8, 0u8, 0u8);
        }
    } else {
        assert forall|v: int| #[trigger] vs.contains(v) implies deg_below(deriv(xor_fn(f, g), v), (k - 1) as nat, vs) by {
            lemma_xor_deg(deriv(f, v), deriv(g, v), (k - 1) as nat, vs);
            assert forall|n: Seq<u8>| true implies #[trigger] deriv(xor_fn(f, g), v)(n) == xor_fn(deriv(f, v), deriv(g, v))(n) by {
                lemma_xor_regroup(f(n), g(n), f(toggle_bit_spec(n, v)), g(toggle_bit_spec(n, v)));
            }
            assert(deriv(xor_fn(f, g), v) =~= xor_fn(deriv(f, v), deriv(g, v)));
        }
    }
}

/// Flipping a nonce bit of the argument keeps the degree.
pub proof fn lemma_shift_deg(f: NonceFn, u: int, k: nat, vs: Set<int>)
    requires
        nonce_bits(vs),
        0 <= u < 512,
        deg_below(f, k, vs),
    ensures
        deg_below(shift_fn(f, u), k, vs),
    decreases k,
{
    if k == 0 {
        assert forall|n: Seq<u8>| n.len() == 64 implies #[trigger] shift_fn(f, u)(n) == 0 by {
            lemma_toggle_facts(n, u, u);
            assert(f(toggle_bit_spec(n, u)) == 0);
        }
    } else {
        assert forall|v: int| #[trigger] vs.contains(v) implies deg_below(deriv(shift_fn(f, u), v), (k - 1) as nat, vs) by {
            lemma_shift_deg(deriv(f, v), u, (k - 1) as nat, vs);
            assert forall|n: Seq<u8>| #![auto] deriv(shift_fn(f, u), v)(n) == shift_fn(deriv(f, v), u)(n) || n.len() != 64 by {
                if n.len() == 64 {
                    lemma_toggle_facts(n, u, v);
                }
            }
            assert(deg_below(deriv(shift_fn(f, u), v), (k - 1) as nat, vs)) by {
                lemma_agree_deg(shift_fn(deriv(f, v), u), deriv(shift_fn(f, u), v), (k - 1) as nat, vs);
            }
        }
    }
}

/// Functions that agree on every nonce have the same degree bounds.
pub proof fn lemma_agree_deg(f: NonceFn, g: NonceFn, k: nat, vs: Set<int>)
    requires
        nonce_bits(vs),
        deg_below(f, k, vs),
        forall|n: Seq<u8>| n.len() == 64 ==> #[trigger] f(n) == g(n),
    ensures
        deg_below(g, k, vs),
    decreases k,
{
    if k == 0 {
        assert forall|n: Seq<u8>| n.len() == 64 implies #[trigger] g(n) == 0 by {
            assert(f(n) == g(n));
        }
    } else {
        assert forall|v: int| #[trigger] vs.contains(v) implies deg_below(deriv(g, v), (k - 1) as nat, vs) by {
            assert forall|n: Seq<u8>| n.len() == 64 implies #[trigger] deriv(f, v)(n) == deriv(g, v)(n) by {
                lemma_toggle_facts(n, v, v);
                assert(f(n) == g(n));
                assert(f(toggle_bit_spec(n, v)) == g(toggle_bit_spec(n, v)));
            }
            lemma_agree_deg(deriv(f, v), deriv(g, v), (k - 1) as nat, vs);
        }
    }
}

/// AND adds the degrees: degree below a + 1 and below b + 1 give degree below
/// a + b + 1 for the product.
pub proof fn lemma_and_deg(f: NonceFn, g: NonceFn, a: nat, b: nat, vs: Set<int>)
    requires
        nonce_bits(vs),
        deg_below(f, a + 1, vs),
        deg_below(g, b + 1, vs),
    ensures
        deg_below(and_fn(f, g), a + b + 1, vs),
    decreases a + b,
{
    assert forall|v: int| #[trigger] vs.contains(v) implies deg_below(deriv(and_fn(f, g), v), a + b, vs) by {
        let df = deriv(f, v);
        let dg = deriv(g, v);
        let sf = shift_fn(f, v);
        // D_v(fg) = (D_v f) g ^ (f shifted) (D_v g)
        assert(deg_below(df, a, vs));
        assert(deg_below(dg, b, vs));
        // first term
        if a == 0 {
            assert forall|n: Seq<u8>| n.len() == 64 implies #[trigger] and_fn(df, g)(n) == 0 by {
                assert(df(n) == 0);
                lemma_and_product(0u8, g(n), 0u8, 0u8);
            }
            lemma_vanishing_deg(and_fn(df, g), a + b, vs);
        } else {
            lemma_and_deg(df, g, (a - 1) as nat, b, vs);
        }
        // second term
        lemma_shift_deg(f, v, a + 1, vs);
        if b == 0 {
            assert forall|n: Seq<u8>| n.len() == 64 implies #[trigger] and_fn(sf, dg)(n) == 0 by {
                assert(dg(n) == 0);
                lemma_and_product(sf(n), 0u8, 0u8, 0u8);
            }
            lemma_vanishing_deg(and_fn(sf, dg), a + b, vs);
        } else {
            lemma_and_deg(sf, dg, a, (b - 1) as nat, vs);
        }
        lemma_xor_deg(and_fn(df, g), and_fn(sf, dg), a + b, vs);
        assert forall|n: Seq<u8>| n.len() == 64 implies #[trigger] xor_fn(and_fn(df, g), and_fn(sf, dg))(n)
            == deriv(and_fn(f, g), v)(n) by {
            lemma_and_product(f(n), g(n), f(toggle_bit_spec(n, v)), g(toggle_bit_spec(n, v)));
        }
        lemma_agree_deg(xor_fn(and_fn(df, g), and_fn(sf, dg)), deriv(and_fn(f, g), v), a + b, vs);
    }
}

/// A constant function has degree below 1.
pub proof fn lemma_const_deg(c: u8, vs: Set<int>)
    requires
        nonce_bits(vs),
    ensures
        deg_below(const_fn(c), 1, vs),
{
    assert forall|v: int| #[trigger] vs.contains(v) implies deg_below(deriv(const_fn(c), v), 0, vs) by {
        assert forall|n: Seq<u8>| n.len() == 64 implies #[trigger] deriv(const_fn(c), v)(n) == 0 by {
            lemma_xor_regroup(c, c, c, c);
        }
    }
}

// ---------------------------------------------------------------------------
// Cube sums
// ---------------------------------------------------------------------------

/// XOR of f over the cube assignments 0..m of the first k cube bits, the other
/// nonce bits as in `base`.
pub open spec fn cube_xor(f: NonceFn, base: Seq<u8>, cube: Seq<usize>, k: int, m: nat) -> u8
    decreases m,
{
    if m == 0 {
        0u8
    } else {
        cube_xor(f, base, cube, k, (m - 1) as nat) ^ f(cube_nonce(base, cube, (m - 1) as u64, k))
    }
}

/// XOR of f over the assignments h..h+j of the first k cube bits.
spec fn cube_xor_from(f: NonceFn, base: Seq<u8>, cube: Seq<usize>, k: int, h: nat, j: nat) -> u8
    decreases j,
{
    if j == 0 {
        0u8
    } else {
        cube_xor_from(f, base, cube, k, h, (j - 1) as nat) ^ f(cube_nonce(base, cube, (h + j - 1) as u64, k))
    }
}

/// Setting a bit to 1 is flipping it after setting it to 0, and one of the two
/// settings leaves the byte string as it is while the other flips the bit.
proof fn lemma_set_bit_pair(y: Seq<u8>, c: int)
    requires
        y.len() == 64,
        0 <= c < 512,
    ensures
        set_bit_spec(y, c, 1) == toggle_bit_spec(set_bit_spec(y, c, 0), c),
        (set_bit_spec(y, c, 0) == y && set_bit_spec(y, c, 1) == toggle_bit_spec(y, c))
            || (set_bit_spec(y, c, 1) == y && set_bit_spec(y, c, 0) == toggle_bit_spec(y, c)),
        set_bit_spec(y, c, 0).len() == 64,
{
    let x = y[c / 8];
    let sh = (c % 8) as u8;
    lemma_single_bit(x, sh);
    let m = 1u8 << sh;
    assert(set_bit_spec(y, c, 1) =~= toggle_bit_spec(set_bit_spec(y, c, 0), c));
    if x & m == 0 {
        assert(set_bit_spec(y, c, 0) =~= y);
        assert(set_bit_spec(y, c, 1) =~= toggle_bit_spec(y, c));
    } else {
        assert(set_bit_spec(y, c, 1) =~= y);
        assert(set_bit_spec(y, c, 0) =~= toggle_bit_spec(y, c));
    }
}

proof fn lemma_single_bit(x: u8, sh: u8)
    by (bit_vector)
    requires
        sh < 8,
    ensures
        (x & !(1u8 << sh)) ^ (1u8 << sh) == x | (1u8 << sh),
        x & (1u8 << sh) == 0 ==> x & !(1u8 << sh) == x && x | (1u8 << sh) == x ^ (1u8 << sh),
        x & (1u8 << sh) != 0 ==> x | (1u8 << sh) == x && x & !(1u8 << sh) == x ^ (1u8 << sh),
{
}

proof fn lemma_mask_bits(m: u64, mh: u64, k1: u64, i: u64)
    by (bit_vector)
    requires
        k1 < 63,
        m < (1u64 << k1),
        mh == m + (1u64 << k1),
        i < 64,
    ensures
        i < k1 ==> (mh >> i) & 1 == (m >> i) & 1,
        (m >> k1) & 1 == 0,
        (mh >> k1) & 1 == 1,
{
}

/// Masks that agree on their low j bits give the same nonce on the first j cube bits.
proof fn lemma_cube_nonce_low_bits(base: Seq<u8>, cube: Seq<usize>, m1: u64, m2: u64, j: int)
    requires
        0 <= j,
        forall|i: int| 0 <= i < j ==> #[trigger] ((m1 >> (i as u64)) & 1u64) == ((m2 >> (i as u64)) & 1u64),
    ensures
        cube_nonce(base, cube, m1, j) == cube_nonce(base, cube, m2, j),
    decreases j,
{
    if j > 0 {
        lemma_cube_nonce_low_bits(base, cube, m1, m2, j - 1);
        assert(((m1 >> ((j - 1) as u64)) & 1u64) == ((m2 >> ((j - 1) as u64)) & 1u64));
    }
}

/// The cube sums keep nonces the right length.
proof fn lemma_cube_nonce_len(base: Seq<u8>, cube: Seq<usize>, m: u64, k: int)
    requires
        base.len() == 64,
        0 <= k <= cube.len(),
        forall|t: int| 0 <= t < cube.len() ==> #[trigger] cube[t] < 512,
    ensures
        cube_nonce(base, cube, m, k).len() == 64,
    decreases k,
{
    if k > 0 {
        lemma_cube_nonce_len(base, cube, m, k - 1);
        assert(cube[k - 1] < 512);
    }
}

/// Summing over 0..h+j is summing over 0..h and then over h..h+j.
proof fn lemma_cube_xor_split(f: NonceFn, base: Seq<u8>, cube: Seq<usize>, k: int, h: nat, j: nat)
    ensures
        cube_xor(f, base, cube, k, h + j) == cube_xor(f, base, cube, k, h) ^ cube_xor_from(f, base, cube, k, h, j),
    decreases j,
{
    if j == 0 {
        lemma_xor_regroup(cube_xor(f, base, cube, k, h), 0u8, 0u8, 0u8);
    } else {
        lemma_cube_xor_split(f, base, cube, k, h, (j - 1) as nat);
        let a = cube_xor(f, base, cube, k, h);
        let b = cube_xor_from(f, base, cube, k, h, (j - 1) as nat);
        let x = f(cube_nonce(base, cube, (h + j - 1) as u64, k));
        lemma_xor_regroup(a, b, x, 0u8);
        assert(cube_xor(f, base, cube, k, h + j) == cube_xor(f, base, cube, k, (h + j - 1) as nat) ^ x);
    }
}

proof fn lemma_pow2(k1: u64)
    by (bit_vector)
    requires
        k1 < 63,
    ensures
        (1u64 << 0u64) == 1,
        (1u64 << k1) <= 0x4000_0000_0000_0000u64,
        (1u64 << (k1 + 1)) == (1u64 << k1) + (1u64 << k1),
{
}

/// Pairing assignment m with m + 2^(k-1): the sum over 2^k assignments of the
/// first k cube bits is the sum over 2^(k-1) assignments of the first k - 1 of
/// the pair differences, which is the derivative along cube bit k - 1.
proof fn lemma_cube_xor_pairs(f: NonceFn, base: Seq<u8>, cube: Seq<usize>, k: int, j: nat)
    requires
        1 <= k <= cube.len() < 64,
        base.len() == 64,
        forall|t: int| 0 <= t < cube.len() ==> #[trigger] cube[t] < 512,
        j <= (1u64 << ((k - 1) as u64)),
    ensures
        cube_xor(f, base, cube, k, j) ^ cube_xor_from(f, base, cube, k, (1u64 << ((k - 1) as u64)) as nat, j)
            == cube_xor(deriv(f, cube[k - 1] as int), base, cube, k - 1, j),
    decreases j,
{
    let h: u64 = 1u64 << ((k - 1) as u64);
    let c = cube[k - 1] as int;
    if j == 0 {
        lemma_xor_regroup(0u8, 0u8, 0u8, 0u8);
    } else {
        lemma_cube_xor_pairs(f, base, cube, k, (j - 1) as nat);
        let m: u64 = (j - 1) as u64;
        let k1: u64 = (k - 1) as u64;
        assert(m < h);
        lemma_pow2(k1);
        let mh: u64 = (m + h) as u64;
        assert forall|i: int| 0 <= i < k - 1 implies #[trigger] ((mh >> (i as u64)) & 1u64) == ((m >> (i as u64)) & 1u64) by {
            lemma_mask_bits(m, mh, k1, i as u64);
        }
        lemma_mask_bits(m, mh, k1, 0);
        lemma_cube_nonce_low_bits(base, cube, mh, m, k - 1);
        let y = cube_nonce(base, cube, m, k - 1);
        lemma_cube_nonce_len(base, cube, m, k - 1);
        assert(cube_nonce(base, cube, m, k) == set_bit_spec(y, c, 0));
        assert(cube_nonce(base, cube, mh, k) == set_bit_spec(y, c, 1));
        lemma_set_bit_pair(y, c);
        let f0 = f(set_bit_spec(y, c, 0));
        let f1 = f(set_bit_spec(y, c, 1));
        let fy = f(y);
        let ft = f(toggle_bit_spec(y, c));
        lemma_xor_regroup(fy, ft, 0u8, 0u8);
        assert(f0 ^ f1 == deriv(f, c)(y));
        let a = cube_xor(f, base, cube, k, (j - 1) as nat);
        let b = cube_xor_from(f, base, cube, k, h as nat, (j - 1) as nat);
        lemma_xor_regroup(a, f0, b, f1);
        assert(cube_xor_from(f, base, cube, k, h as nat, j) == b ^ f1);
    }
}

/// A cube sum over the first k cube bits vanishes for a function of degree
/// below k in (a set holding) those bits.
pub proof fn lemma_cube_xor_vanishes(f: NonceFn, base: Seq<u8>, cube: Seq<usize>, k: int, vs: Set<int>)
    requires
        0 <= k <= cube.len() < 64,
        base.len() == 64,
        forall|t: int| 0 <= t < cube.len() ==> #[trigger] cube[t] < 512,
        forall|t: int| 0 <= t < k ==> vs.contains(#[trigger] cube[t] as int),
        nonce_bits(vs),
        deg_below(f, k as nat, vs),
    ensures
        cube_xor(f, base, cube, k, (1u64 << (k as u64)) as nat) == 0,
    decreases k,
{
    if k == 0 {
        lemma_pow2(0);
        lemma_xor_regroup(0u8, f(base), 0u8, 0u8);
        assert(cube_xor(f, base, cube, 0, 0) == 0u8);
        assert(cube_xor(f, base, cube, 0, 1) == 0u8 ^ f(base));
    } else {
        let k1: u64 = (k - 1) as u64;
        let h: u64 = 1u64 << k1;
        lemma_pow2(k1);
        assert((1u64 << (k as u64)) == h + h);
        let c = cube[k - 1] as int;
        assert(vs.contains(c));
        let g = deriv(f, c);
        assert(deg_below(g, (k - 1) as nat, vs));
        lemma_cube_xor_vanishes(g, base, cube, k - 1, vs);
        lemma_cube_xor_split(f, base, cube, k, h as nat, h as nat);
        lemma_cube_xor_pairs(f, base, cube, k, h as nat);
    }
}

} // verus!
