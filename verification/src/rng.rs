//! The harnesses' pseudo-random source: Marsaglia's xorshift64 (13, 7, 17),
//! and the byte strings drawn from it (the low byte of each successive output).
use vstd::prelude::*;
use crate::geometry::Cube;

verus! {

// ---------------------------------------------------------------------------
// Mathematical model
// ---------------------------------------------------------------------------

/// One xorshift64 step.
pub open spec fn xorshift_step(x: u64) -> u64 {
    let a = x ^ (x << 13u64);
    let b = a ^ (a >> 7u64);
    b ^ (b << 17u64)
}

/// The generator state after `n` steps.
pub open spec fn xorshift_iter(x: u64, n: nat) -> u64
    decreases n,
{
    if n == 0 {
        x
    } else {
        xorshift_step(xorshift_iter(x, (n - 1) as nat))
    }
}

/// The low byte of a generator output.
pub open spec fn low_byte(x: u64) -> u8 {
    (x & 0xFFu64) as u8
}

/// The `n` bytes drawn from generator state `x`: byte i is the low byte of the
/// (i+1)-th output.
pub open spec fn random_seq(x: u64, n: nat) -> Seq<u8> {
    Seq::new(n, |i: int| low_byte(xorshift_iter(x, (i + 1) as nat)))
}

/// Running the generator for a steps and then b steps is running it for a + b steps.
pub proof fn lemma_xorshift_iter_add(x: u64, a: nat, b: nat)
    ensures
        xorshift_iter(xorshift_iter(x, a), b) == xorshift_iter(x, a + b),
    decreases b,
{
    if b > 0 {
        lemma_xorshift_iter_add(x, a, (b - 1) as nat);
    }
}

// ---------------------------------------------------------------------------
// Executable generator
// ---------------------------------------------------------------------------

/// Advance the generator one step and return the new state.
pub fn xorshift(state: &mut u64) -> (r: u64)
    ensures
        *final(state) == xorshift_step(*old(state)),
        r == *final(state),
{
    let mut x: u64 = *state;
    x = x ^ (x << 13);
    x = x ^ (x >> 7);
    x = x ^ (x << 17);
    *state = x;
    x
}

/// `n` random bytes.
pub fn random_bytes(rng: &mut u64, n: usize) -> (v: Vec<u8>)
    ensures
        v@ == random_seq(*old(rng), n as nat),
        *final(rng) == xorshift_iter(*old(rng), n as nat),
{
    let ghost x0 = *rng;
    let mut v: Vec<u8> = Vec::new();
    let mut i: usize = 0;
    while i < n
        invariant
            i <= n,
            *rng == xorshift_iter(x0, i as nat),
            v@ =~= random_seq(x0, i as nat),
        decreases n - i,
    {
        let x = xorshift(rng);
        v.push((x & 0xFF) as u8);
        i = i + 1;
    }
    v
}

/// A random key.
pub fn random_key(rng: &mut u64) -> (k: [u8; 16])
    ensures
        k@ == random_seq(*old(rng), 16),
        *final(rng) == xorshift_iter(*old(rng), 16),
{
    let ghost x0 = *rng;
    let mut k: [u8; 16] = [0u8; 16];
    let mut i: usize = 0;
    while i < 16
        invariant
            i <= 16,
            *rng == xorshift_iter(x0, i as nat),
            forall|j: int| 0 <= j < i ==> #[trigger] k@[j] == random_seq(x0, 16)[j],
        decreases 16 - i,
    {
        let x = xorshift(rng);
        k[i] = (x & 0xFF) as u8;
        i = i + 1;
    }
    assert(k@ =~= random_seq(x0, 16));
    k
}

/// A random nonce.
pub fn random_nonce(rng: &mut u64) -> (k: [u8; 64])
    ensures
        k@ == random_seq(*old(rng), 64),
        *final(rng) == xorshift_iter(*old(rng), 64),
{
    let ghost x0 = *rng;
    let mut k: [u8; 64] = [0u8; 64];
    let mut i: usize = 0;
    while i < 64
        invariant
            i <= 64,
            *rng == xorshift_iter(x0, i as nat),
            forall|j: int| 0 <= j < i ==> #[trigger] k@[j] == random_seq(x0, 64)[j],
        decreases 64 - i,
    {
        let x = xorshift(rng);
        k[i] = (x & 0xFF) as u8;
        i = i + 1;
    }
    assert(k@ =~= random_seq(x0, 64));
    k
}

/// A random cube state.
pub fn random_cube(rng: &mut u64) -> (c: Cube)
    ensures
        c@ == random_seq(*old(rng), 512),
        *final(rng) == xorshift_iter(*old(rng), 512),
{
    let ghost x0 = *rng;
    let mut c: Cube = [0u8; 512];
    let mut i: usize = 0;
    while i < 512
        invariant
            i <= 512,
            *rng == xorshift_iter(x0, i as nat),
            forall|j: int| 0 <= j < i ==> #[trigger] c@[j] == random_seq(x0, 512)[j],
        decreases 512 - i,
    {
        let x = xorshift(rng);
        c[i] = (x & 0xFF) as u8;
        i = i + 1;
    }
    assert(c@ =~= random_seq(x0, 512));
    c
}

} // verus!
