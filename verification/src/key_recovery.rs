//! Reading key bits out of the reduced equation system: a row whose mask has a
//! single set bit j pins key bit j to the row's right-hand side.
use vstd::prelude::*;
use crate::cube_attack::{bit_of, key_bit, Key};
use crate::gf2::has_bit;

verus! {

// ---------------------------------------------------------------------------
// Mathematical model
// ---------------------------------------------------------------------------

/// Number of set bits of a mask among bits 0..c.
pub open spec fn bit_count(m: u128, c: nat) -> nat
    decreases c,
{
    if c == 0 {
        0
    } else {
        bit_count(m, (c - 1) as nat) + if has_bit(m, c - 1) { 1nat } else { 0nat }
    }
}

/// The lowest set bit of a mask at or above bit c (128 when there is none).
pub open spec fn lowest_from(m: u128, c: int) -> int
    decreases 128 - c,
{
    if c >= 128 {
        128
    } else if has_bit(m, c) {
        c
    } else {
        lowest_from(m, c + 1)
    }
}

/// Over rows 0..n: how many single-bit rows pin their key bit to the right value
/// (first) and how many to the wrong one (second).
pub open spec fn recovered_upto(rows: Seq<(u128, u8)>, key: Seq<u8>, n: int) -> (nat, nat)
    decreases n,
{
    if n <= 0 {
        (0, 0)
    } else {
        let prev = recovered_upto(rows, key, n - 1);
        let m = rows[n - 1].0;
        let j = lowest_from(m, 0);
        if bit_count(m, 128) == 1 && j < 128 {
            if bit_of(key, j) == rows[n - 1].1 {
                (prev.0 + 1, prev.1)
            } else {
                (prev.0, prev.1 + 1)
            }
        } else {
            prev
        }
    }
}

/// The lowest set bit from c on is at least c and at most 128.
proof fn lemma_lowest_from_bounds(m: u128, c: int)
    requires
        0 <= c <= 128,
    ensures
        c <= lowest_from(m, c) <= 128,
    decreases 128 - c,
{
    if c < 128 {
        lemma_lowest_from_bounds(m, c + 1);
    }
}

// ---------------------------------------------------------------------------
// Executable
// ---------------------------------------------------------------------------

/// Number of set bits of a mask, and its lowest set bit (128 when zero).
fn count_and_lowest(m: u128) -> (r: (u32, usize))
    ensures
        r.0 == bit_count(m, 128),
        r.1 == lowest_from(m, 0),
{
    let mut cnt: u32 = 0;
    let mut c: usize = 0;
    while c < 128
        invariant
            c <= 128,
            cnt == bit_count(m, c as nat),
            cnt <= c,
        decreases 128 - c,
    {
        if (m >> (c as u128)) & 1 == 1 {
            cnt = cnt + 1;
        }
        c = c + 1;
    }
    let mut low: usize = 128;
    let mut c: usize = 128;
    while c > 0
        invariant
            c <= 128,
            low == lowest_from(m, c as int),
        decreases c,
    {
        c = c - 1;
        if (m >> (c as u128)) & 1 == 1 {
            low = c;
        }
    }
    (cnt, low)
}

/// Check the key bits pinned by single-bit rows against the real key: returns
/// (rows that pin the right value, rows that pin a wrong one).
pub fn recovered_bits(rows: &[(u128, u8)], secret: &Key) -> (r: (usize, usize))
    ensures
        r.0 == recovered_upto(rows@, secret@, rows@.len() as int).0,
        r.1 == recovered_upto(rows@, secret@, rows@.len() as int).1,
{
    let mut verified: usize = 0;
    let mut wrong: usize = 0;
    let mut t: usize = 0;
    while t < rows.len()
        invariant
            t <= rows@.len(),
            verified == recovered_upto(rows@, secret@, t as int).0,
            wrong == recovered_upto(rows@, secret@, t as int).1,
            verified + wrong <= t,
        decreases rows@.len() - t,
    {
        let (m, rhs) = rows[t];
        let (cnt, j) = count_and_lowest(m);
        if cnt == 1 && j < 128 {
            if key_bit(secret, j) == rhs {
                verified = verified + 1;
            } else {
                wrong = wrong + 1;
            }
        }
        t = t + 1;
    }
    (verified, wrong)
}

} // verus!
