//! A duplex sponge over the cube, and the XOR keystream cipher built on it.
//!
//! absorb() and squeeze() only ever touch rate cells (radius == OUTER_RADIUS);
//! the capacity is only ever reached through the permutation's mixing. There is
//! no authentication tag: this is a keystream generator and nothing more.
use vstd::prelude::*;
use crate::geometry::{
    in_cube, is_rate_spec, lemma_rate_prefix, lemma_shell_and_color_sizes, rate_cells, rate_seq, capacity_cells,
    capacity_seq, Cube, CELLS,
};
use crate::permutation::{lemma_round_len, permute, permute_r_spec, permute_spec};

verus! {

// ---------------------------------------------------------------------------
// Mathematical model
// ---------------------------------------------------------------------------

/// Number of rate cells, the sponge's block size.
pub open spec fn rate_len_spec() -> int {
    rate_seq().len() as int
}

/// The all-zero state a sponge starts from.
pub open spec fn zero_state() -> Seq<u8> {
    Seq::new(512, |i: int| 0u8)
}

/// The state after XOR-ing the first `n` bytes of `block` into the first `n`
/// rate cells.
pub open spec fn xor_prefix(s: Seq<u8>, block: Seq<u8>, n: int) -> Seq<u8>
    decreases n,
{
    if n <= 0 {
        s
    } else {
        let p = xor_prefix(s, block, n - 1);
        let c = rate_seq()[n - 1] as int;
        p.update(c, p[c] ^ block[n - 1])
    }
}

/// XOR a block of at most one rate into the rate cells, byte n into rate cell n.
pub open spec fn xor_in(s: Seq<u8>, block: Seq<u8>) -> Seq<u8> {
    xor_prefix(s, block, block.len() as int)
}

/// One absorb: XOR the block into the rate, then permute.
pub open spec fn absorb_spec(s: Seq<u8>, block: Seq<u8>) -> Seq<u8> {
    permute_spec(xor_in(s, block))
}

/// The permutation applied k times.
pub open spec fn permute_pow(s: Seq<u8>, k: nat) -> Seq<u8>
    decreases k,
{
    if k == 0 {
        s
    } else {
        permute_spec(permute_pow(s, (k - 1) as nat))
    }
}

/// The bytes squeezed out of state `s`: the rate cells of s, then of permute(s),
/// then of permute(permute(s)), and so on, cut to `len` bytes.
pub open spec fn squeeze_output(s: Seq<u8>, len: nat) -> Seq<u8> {
    Seq::new(
        len,
        |j: int| permute_pow(s, (j / rate_len_spec()) as nat)[rate_seq()[j % rate_len_spec()] as int],
    )
}

/// The state after squeezing `len` bytes: one permutation per full rate block read.
pub open spec fn squeeze_state(s: Seq<u8>, len: nat) -> Seq<u8> {
    permute_pow(s, (len as int / rate_len_spec()) as nat)
}

/// Absorb `data` in chunks of one rate each, the last chunk possibly shorter.
/// Nothing is absorbed for empty data.
pub open spec fn absorb_chunks(s: Seq<u8>, data: Seq<u8>) -> Seq<u8>
    decreases data.len(),
{
    if data.len() == 0 || rate_len_spec() <= 0 {
        s
    } else {
        let c = if data.len() <= rate_len_spec() {
            data.len() as int
        } else {
            rate_len_spec()
        };
        absorb_chunks(absorb_spec(s, data.take(c)), data.skip(c))
    }
}

/// The keystream for a key and a nonce: absorb the key, then the nonce, then squeeze.
pub open spec fn keystream_spec(key: Seq<u8>, nonce: Seq<u8>, len: nat) -> Seq<u8> {
    squeeze_output(absorb_chunks(absorb_chunks(zero_state(), key), nonce), len)
}

/// The XOR keystream cipher.
pub open spec fn encrypt_spec(key: Seq<u8>, nonce: Seq<u8>, plaintext: Seq<u8>) -> Seq<u8> {
    let ks = keystream_spec(key, nonce, plaintext.len());
    Seq::new(plaintext.len(), |i: int| plaintext[i] ^ ks[i])
}

// ---------------------------------------------------------------------------
// Lemmas
// ---------------------------------------------------------------------------

/// Facts about the rate used throughout: its cells are rate cells of the cube,
/// in strictly increasing order, and there is at least one of them.
pub proof fn lemma_rate_facts()
    ensures
        rate_len_spec() >= 1,
        forall|k: int|
            0 <= k < rate_len_spec() ==> in_cube(#[trigger] rate_seq()[k] as int) && is_rate_spec(
                rate_seq()[k] as int,
            ),
        forall|k1: int, k2: int|
            0 <= k1 < k2 < rate_len_spec() ==> #[trigger] rate_seq()[k1] < #[trigger] rate_seq()[k2],
{
    lemma_rate_prefix(512);
}

/// XOR-ing into the rate keeps the state a cube.
proof fn lemma_xor_prefix_len(s: Seq<u8>, block: Seq<u8>, n: int)
    requires
        s.len() == 512,
        n <= rate_len_spec(),
    ensures
        xor_prefix(s, block, n).len() == 512,
    decreases n,
{
    lemma_rate_facts();
    if n > 0 {
        lemma_xor_prefix_len(s, block, n - 1);
    }
}

/// XOR-ing a block in leaves every capacity cell untouched: the capacity is
/// never written by the outside world.
pub proof fn lemma_xor_in_keeps_capacity(s: Seq<u8>, block: Seq<u8>, c: int)
    requires
        s.len() == 512,
        block.len() <= rate_len_spec(),
        in_cube(c),
        !is_rate_spec(c),
    ensures
        xor_in(s, block)[c] == s[c],
{
    lemma_xor_prefix_keeps_capacity(s, block, block.len() as int, c);
}

proof fn lemma_xor_prefix_keeps_capacity(s: Seq<u8>, block: Seq<u8>, n: int, c: int)
    requires
        s.len() == 512,
        n <= rate_len_spec(),
        in_cube(c),
        !is_rate_spec(c),
    ensures
        xor_prefix(s, block, n)[c] == s[c],
    decreases n,
{
    lemma_rate_facts();
    if n > 0 {
        lemma_xor_prefix_keeps_capacity(s, block, n - 1, c);
        lemma_xor_prefix_len(s, block, n - 1);
        assert(is_rate_spec(rate_seq()[n - 1] as int));
    }
}

/// XOR-ing the same keystream byte twice gives the byte back.
proof fn lemma_xor_twice(p: u8, k: u8)
    ensures
        p ^ k ^ k == p,
{
    assert(p ^ k ^ k == p) by (bit_vector);
}

/// Decryption undoes encryption: for every key, nonce and plaintext,
/// decrypt(key, nonce, encrypt(key, nonce, p)) == p. (decrypt is encrypt.)
pub proof fn lemma_decrypt_encrypt(key: Seq<u8>, nonce: Seq<u8>, plaintext: Seq<u8>)
    ensures
        encrypt_spec(key, nonce, encrypt_spec(key, nonce, plaintext)) == plaintext,
{
    let c = encrypt_spec(key, nonce, plaintext);
    let ks = keystream_spec(key, nonce, plaintext.len());
    assert forall|i: int| 0 <= i < plaintext.len() implies #[trigger] encrypt_spec(
        key,
        nonce,
        c,
    )[i] == plaintext[i] by {
        lemma_xor_twice(plaintext[i], ks[i]);
    }
    assert(encrypt_spec(key, nonce, c) =~= plaintext);
}

/// A shorter squeeze is a prefix of a longer one from the same state: byte j of
/// the keystream does not depend on how many bytes are asked for.
pub proof fn lemma_squeeze_prefix(s: Seq<u8>, len1: nat, len2: nat)
    requires
        len1 <= len2,
    ensures
        squeeze_output(s, len1) == squeeze_output(s, len2).take(len1 as int),
{
    assert(squeeze_output(s, len1) =~= squeeze_output(s, len2).take(len1 as int));
}

/// A shorter keystream is a prefix of a longer one for the same key and nonce.
pub proof fn lemma_keystream_prefix(key: Seq<u8>, nonce: Seq<u8>, len1: nat, len2: nat)
    requires
        len1 <= len2,
    ensures
        keystream_spec(key, nonce, len1) == keystream_spec(key, nonce, len2).take(len1 as int),
{
    lemma_squeeze_prefix(absorb_chunks(absorb_chunks(zero_state(), key), nonce), len1, len2);
}

/// XOR-ing a prefix in reads only that prefix of the block.
proof fn lemma_xor_prefix_agree(s: Seq<u8>, b1: Seq<u8>, b2: Seq<u8>, n: int)
    requires
        forall|i: int| 0 <= i < n ==> b1[i] == b2[i],
    ensures
        xor_prefix(s, b1, n) == xor_prefix(s, b2, n),
    decreases n,
{
    if n > 0 {
        lemma_xor_prefix_agree(s, b1, b2, n - 1);
    }
}

/// Absorbing data whose last chunk is partial, and the same data with one zero
/// byte appended, reach the same state: the zero byte lands in the last chunk
/// and XORs in as nothing. There is no padding to tell the two apart.
proof fn lemma_absorb_trailing_zero(s: Seq<u8>, data: Seq<u8>)
    requires
        s.len() == 512,
        data.len() as int % rate_len_spec() != 0,
    ensures
        absorb_chunks(s, data.push(0u8)) == absorb_chunks(s, data),
    decreases data.len(),
{
    lemma_rate_facts();
    let r = rate_len_spec();
    let d2 = data.push(0u8);
    if data.len() > r {
        assert(d2.take(r) =~= data.take(r));
        assert(d2.skip(r) =~= data.skip(r).push(0u8));
        let s1 = absorb_spec(s, data.take(r));
        lemma_round_len(permute_r_spec(xor_in(s, data.take(r)), 11), 11, true);
        assert(data.skip(r).len() as int % r == data.len() as int % r) by {
            vstd::arithmetic::div_mod::lemma_mod_sub_multiples_vanish(data.len() as int, r);
        }
        assert(s1.len() == 512);
        lemma_absorb_trailing_zero(s1, data.skip(r));
        assert(absorb_chunks(s, data) == absorb_chunks(s1, data.skip(r)));
        assert(absorb_chunks(s, d2) == absorb_chunks(s1, d2.skip(r)));
    } else {
        // 0 < data.len() < r, so data and data + [0] are each one last chunk
        let n = data.len() as int;
        assert(data.len() != 0) by {
            assert(0int % r == 0);
        }
        if n == r {
            vstd::arithmetic::div_mod::lemma_mod_self_0(r);
        }
        assert(n < r);
        assert(d2.take(n + 1) =~= d2);
        assert(data.take(n) =~= data);
        assert(d2.skip(n + 1).len() == 0);
        assert(data.skip(n).len() == 0);
        lemma_xor_prefix_agree(s, d2, data, n);
        lemma_xor_prefix_len(s, data, n);
        let p = xor_prefix(s, data, n);
        let c = rate_seq()[n] as int;
        assert(in_cube(c));
        let pc: u8 = p[c];
        assert(pc ^ 0u8 == pc) by (bit_vector);
        assert(xor_prefix(s, d2, n + 1) =~= p);
        assert(xor_in(s, d2) == xor_in(s, data));
        assert(absorb_chunks(s, data) == absorb_chunks(absorb_spec(s, data), data.skip(n)));
        assert(absorb_chunks(s, d2) == absorb_chunks(absorb_spec(s, d2), d2.skip(n + 1)));
    }
}

/// A zero key byte appended inside the key's last, partial chunk leaves the
/// keystream unchanged: for every key whose length is not a multiple of the
/// rate, every nonce and every length, keystream(key || 0) == keystream(key).
pub proof fn lemma_keystream_trailing_zero_key_byte(key: Seq<u8>, nonce: Seq<u8>, len: nat)
    requires
        key.len() as int % rate_len_spec() != 0,
    ensures
        keystream_spec(key.push(0u8), nonce, len) == keystream_spec(key, nonce, len),
{
    assert(zero_state().len() == 512);
    lemma_absorb_trailing_zero(zero_state(), key);
}

// ---------------------------------------------------------------------------
// Executable sponge
// ---------------------------------------------------------------------------

/// A duplex sponge over the cube.
pub struct Sponge {
    pub state: Cube,
}

impl Sponge {
    /// A sponge with the all-zero state.
    pub fn new() -> (sp: Self)
        ensures
            sp.state@ == zero_state(),
    {
        let sp = Sponge { state: [0u8; 512] };
        assert(sp.state@ =~= zero_state());
        sp
    }

    /// Number of rate cells (bytes per absorbed or squeezed block).
    pub fn rate_len() -> (r: usize)
        ensures
            r == rate_len_spec(),
            r == 296,
    {
        proof {
            lemma_rate_facts();
            lemma_shell_and_color_sizes();
        }
        rate_cells().len()
    }

    /// Number of capacity cells.
    pub fn capacity_len() -> (r: usize)
        ensures
            r == capacity_seq().len(),
            r + rate_len_spec() == CELLS,
            r == 216,
    {
        proof {
            lemma_rate_prefix(512);
            lemma_shell_and_color_sizes();
        }
        capacity_cells().len()
    }

    /// XOR data[start..end] into the rate and permute.
    fn absorb_range(&mut self, data: &[u8], start: usize, end: usize)
        requires
            start <= end <= data@.len(),
            end - start <= rate_len_spec(),
        ensures
            final(self).state@ == absorb_spec(old(self).state@, data@.subrange(
                start as int,
                end as int,
            )),
    {
        let rate = rate_cells();
        let ghost block = data@.subrange(start as int, end as int);
        let ghost s0 = self.state@;
        proof {
            lemma_rate_facts();
        }
        let mut n: usize = 0;
        while n < end - start
            invariant
                start <= end <= data@.len(),
                end - start <= rate_len_spec(),
                rate@ == rate_seq(),
                block == data@.subrange(start as int, end as int),
                0 <= n <= end - start,
                self.state@ == xor_prefix(s0, block, n as int),
                forall|k: int|
                    0 <= k < rate_len_spec() ==> in_cube(#[trigger] rate_seq()[k] as int),
            decreases end - start - n,
        {
            let cell: usize = rate[n];
            self.state[cell] = self.state[cell] ^ data[start + n];
            proof {
                assert(self.state@ =~= xor_prefix(s0, block, n + 1));
            }
            n = n + 1;
        }
        self.state = permute(&self.state);
    }

    /// Absorb one block of at most one rate: XOR byte n into rate cell n, then
    /// permute. Longer blocks must be chunked first.
    pub fn absorb(&mut self, data: &[u8])
        requires
            data@.len() <= rate_len_spec(),
        ensures
            final(self).state@ == absorb_spec(old(self).state@, data@),
    {
        self.absorb_range(data, 0, data.len());
        assert(data@.subrange(0, data@.len() as int) =~= data@);
    }

    /// Squeeze `out_len` bytes: read the rate cells in order, permuting after each
    /// full block.
    pub fn squeeze(&mut self, out_len: usize) -> (out: Vec<u8>)
        ensures
            out@ == squeeze_output(old(self).state@, out_len as nat),
            final(self).state@ == squeeze_state(old(self).state@, out_len as nat),
    {
        let rate = rate_cells();
        let ghost s0 = self.state@;
        let ghost r = rate_len_spec();
        proof {
            lemma_rate_facts();
        }
        let mut out: Vec<u8> = Vec::with_capacity(out_len);
        let mut n: usize = 0;
        let ghost mut b: nat = 0;
        while out.len() < out_len
            invariant
                rate@ == rate_seq(),
                r == rate_len_spec(),
                r >= 1,
                forall|k: int| 0 <= k < r ==> in_cube(#[trigger] rate_seq()[k] as int),
                out@.len() <= out_len,
                0 <= n < r,
                out@.len() == b * r + n,
                self.state@ == permute_pow(s0, b),
                out@ =~= squeeze_output(s0, out@.len() as nat),
            decreases out_len - out@.len(),
        {
            proof {
                vstd::arithmetic::div_mod::lemma_fundamental_div_mod_converse(
                    out@.len() as int,
                    r,
                    b as int,
                    n as int,
                );
            }
            let cell: usize = rate[n];
            out.push(self.state[cell]);
            n = n + 1;
            if n == rate.len() {
                self.state = permute(&self.state);
                n = 0;
                proof {
                    b = b + 1;
                    assert(out@.len() == b * r + n) by (nonlinear_arith)
                        requires
                            out@.len() == (b - 1) * r + r,
                            n == 0,
                    ;
                }
            }
        }
        proof {
            vstd::arithmetic::div_mod::lemma_fundamental_div_mod_converse(
                out_len as int,
                r,
                b as int,
                n as int,
            );
        }
        out
    }
}

impl Default for Sponge {
    fn default() -> (sp: Self)
        ensures
            sp.state@ == zero_state(),
    {
        Self::new()
    }
}

/// Absorb all of `data`, one rate-sized chunk at a time (the last chunk may be
/// shorter; empty data absorbs nothing).
fn absorb_all(sp: &mut Sponge, data: &[u8], rate: usize)
    requires
        rate == rate_len_spec(),
        rate >= 1,
    ensures
        final(sp).state@ == absorb_chunks(old(sp).state@, data@),
{
    let mut start: usize = 0;
    assert(data@.skip(0) =~= data@);
    while start < data.len()
        invariant
            rate == rate_len_spec(),
            rate >= 1,
            start <= data@.len(),
            absorb_chunks(sp.state@, data@.skip(start as int)) == absorb_chunks(
                old(sp).state@,
                data@,
            ),
        decreases data@.len() - start,
    {
        let end: usize = if data.len() - start <= rate {
            data.len()
        } else {
            start + rate
        };
        let ghost rest = data@.skip(start as int);
        let ghost before = sp.state@;
        sp.absorb_range(data, start, end);
        proof {
            assert(rest.take(end - start) =~= data@.subrange(start as int, end as int));
            assert(rest.skip(end - start) =~= data@.skip(end as int));
        }
        start = end;
    }
    assert(data@.skip(start as int) =~= Seq::<u8>::empty());
}

/// The keystream for `key` and `nonce`: a fresh sponge absorbs the key, then the
/// nonce, each chunked by the rate, and then squeezes `len` bytes.
pub fn keystream(key: &[u8], nonce: &[u8], len: usize) -> (ks: Vec<u8>)
    ensures
        ks@ == keystream_spec(key@, nonce@, len as nat),
{
    let mut sp = Sponge::new();
    let rate = Sponge::rate_len();
    absorb_all(&mut sp, key, rate);
    absorb_all(&mut sp, nonce, rate);
    sp.squeeze(len)
}

/// XOR keystream encryption.
pub fn encrypt(key: &[u8], nonce: &[u8], plaintext: &[u8]) -> (ct: Vec<u8>)
    ensures
        ct@ == encrypt_spec(key@, nonce@, plaintext@),
{
    let ks = keystream(key, nonce, plaintext.len());
    let mut out: Vec<u8> = Vec::with_capacity(plaintext.len());
    let mut i: usize = 0;
    while i < plaintext.len()
        invariant
            ks@ == keystream_spec(key@, nonce@, plaintext@.len()),
            ks@.len() == plaintext@.len(),
            i <= plaintext@.len(),
            out@ =~= Seq::new(i as nat, |j: int| plaintext@[j] ^ ks@[j]),
        decreases plaintext@.len() - i,
    {
        out.push(plaintext[i] ^ ks[i]);
        i = i + 1;
    }
    out
}

/// XOR keystream decryption: the cipher is its own inverse.
pub fn decrypt(key: &[u8], nonce: &[u8], ciphertext: &[u8]) -> (pt: Vec<u8>)
    ensures
        pt@ == encrypt_spec(key@, nonce@, ciphertext@),
{
    encrypt(key, nonce, ciphertext)
}

} // verus!
