//! Linear algebra over GF(2) for the cube attack's key equations: each equation
//! is a 128-bit coefficient mask (bit j is the coefficient of key bit j) and a
//! right-hand side bit.
use vstd::prelude::*;

verus! {

/// Number of key bits, and so of columns.
pub const COLS: usize = 128;

/// Bit `c` of a coefficient mask is set.
pub open spec fn has_bit(x: u128, c: int) -> bool {
    (x >> (c as u128)) & 1u128 == 1u128
}

/// The equations are in reduced row echelon form with pivot columns `piv`:
/// row k (k < rank) has its lowest set bit at column piv[k], the pivot columns
/// strictly increase, every other row has a zero in each pivot column, and
/// every row from `rank` on is zero in the first `cols` columns.
pub open spec fn rref_with(rows: Seq<(u128, u8)>, rank: int, piv: Seq<int>, cols: int) -> bool {
    &&& 0 <= rank <= rows.len()
    &&& piv.len() == rank
    &&& forall|k: int| 0 <= k < rank ==> 0 <= #[trigger] piv[k] < cols
    &&& forall|k: int| 0 <= k < rank ==> has_bit(rows[k].0, #[trigger] piv[k])
    &&& forall|k: int, c: int|
        0 <= k < rank && 0 <= c < piv[k] ==> !#[trigger] has_bit(rows[k].0, c)
    &&& forall|k1: int, k2: int| 0 <= k1 < k2 < rank ==> #[trigger] piv[k1] < #[trigger] piv[k2]
    &&& forall|k: int, k2: int|
        0 <= k < rank && 0 <= k2 < rows.len() && k2 != k ==> !has_bit(
            #[trigger] rows[k2].0,
            #[trigger] piv[k],
        )
    &&& forall|k: int, c: int|
        rank <= k < rows.len() && 0 <= c < cols ==> !#[trigger] has_bit(rows[k].0, c)
}

/// The rows are in reduced row echelon form of rank `rank` over all 128 columns.
pub open spec fn is_rref(rows: Seq<(u128, u8)>, rank: int) -> bool {
    exists|piv: Seq<int>| rref_with(rows, rank, piv, 128)
}

/// Parity of the lowest `n` bits.
pub open spec fn parity_upto(x: u128, n: nat) -> bool
    decreases n,
{
    if n == 0 {
        false
    } else {
        parity_upto(x, (n - 1) as nat) != has_bit(x, n - 1)
    }
}

/// Equation `row` holds for key `key`: the parity of the key bits selected by the
/// coefficient mask equals the right-hand side bit.
pub open spec fn satisfies(row: (u128, u8), key: u128) -> bool {
    parity_upto(row.0 & key, 128) == (row.1 & 1u8 == 1u8)
}

/// Every equation of the system holds for `key`.
pub open spec fn solves(rows: Seq<(u128, u8)>, key: u128) -> bool {
    forall|k: int| 0 <= k < rows.len() ==> satisfies(#[trigger] rows[k], key)
}

/// Parity is linear: parity(a ^ b) = parity(a) XOR parity(b).
proof fn lemma_parity_xor(a: u128, b: u128, n: nat)
    requires
        n <= 128,
    ensures
        parity_upto(a ^ b, n) == (parity_upto(a, n) != parity_upto(b, n)),
    decreases n,
{
    if n > 0 {
        lemma_parity_xor(a, b, (n - 1) as nat);
        lemma_has_bit_xor(a, b, n - 1);
    }
}

/// XOR-ing one equation into another keeps the set of keys that satisfy both.
proof fn lemma_satisfies_xor(r: (u128, u8), p: (u128, u8), key: u128)
    requires
        satisfies(p, key),
    ensures
        satisfies((r.0 ^ p.0, r.1 ^ p.1), key) == satisfies(r, key),
{
    let a = r.0 & key;
    let b = p.0 & key;
    let r0 = r.0;
    let p0 = p.0;
    assert((r0 ^ p0) & key == (r0 & key) ^ (p0 & key)) by (bit_vector);
    lemma_parity_xor(a, b, 128);
    let r1 = r.1;
    let p1 = p.1;
    assert(((r1 ^ p1) & 1u8 == 1u8) == ((r1 & 1u8 == 1u8) != (p1 & 1u8 == 1u8))) by (bit_vector);
}

/// Componentwise XOR of two equations.
pub open spec fn xor_eq(p: (u128, u8), q: (u128, u8)) -> (u128, u8) {
    (p.0 ^ q.0, p.1 ^ q.1)
}

/// XOR of the equations rows[t] with sel[t] set, for t < n.
pub open spec fn combo_upto(rows: Seq<(u128, u8)>, sel: Seq<bool>, n: int) -> (u128, u8)
    decreases n,
{
    if n <= 0 {
        (0u128, 0u8)
    } else {
        let p = combo_upto(rows, sel, n - 1);
        if sel[n - 1] {
            xor_eq(p, rows[n - 1])
        } else {
            p
        }
    }
}

/// The XOR of the equations of `rows` selected by `sel` (mask and right-hand
/// side alike): a GF(2) linear combination of the rows.
pub open spec fn combination(rows: Seq<(u128, u8)>, sel: Seq<bool>) -> (u128, u8) {
    combo_upto(rows, sel, rows.len() as int)
}

/// Equation `r` is a linear combination of the rows of `b`.
pub open spec fn is_combination(r: (u128, u8), b: Seq<(u128, u8)>) -> bool {
    exists|sel: Seq<bool>| sel.len() == b.len() && r == #[trigger] combination(b, sel)
}

/// Every row of `a` is a linear combination of the rows of `b`.
pub open spec fn rows_combine(a: Seq<(u128, u8)>, b: Seq<(u128, u8)>) -> bool {
    forall|k: int| 0 <= k < a.len() ==> #[trigger] is_combination(a[k], b)
}

/// Pointwise XOR of two selections.
pub open spec fn sel_xor(s1: Seq<bool>, s2: Seq<bool>) -> Seq<bool> {
    Seq::new(s1.len(), |t: int| s1[t] != s2[t])
}

/// The selection of row k alone.
pub open spec fn unit_sel(n: int, k: int) -> Seq<bool> {
    Seq::new(n as nat, |t: int| t == k)
}

/// The empty selection, or that of row k, depending on `on`.
pub open spec fn maybe_unit(n: int, k: int, on: bool) -> Seq<bool> {
    Seq::new(n as nat, |t: int| on && t == k)
}

/// A selection with positions a and b exchanged.
pub open spec fn sel_swap(sel: Seq<bool>, a: int, b: int) -> Seq<bool> {
    sel.update(a, sel[b]).update(b, sel[a])
}

/// XOR of equations is associative, commutative, has (0, 0) as unit, and every
/// equation is its own inverse.
proof fn lemma_xor_eq_laws(p: (u128, u8), q: (u128, u8), r: (u128, u8))
    ensures
        xor_eq(xor_eq(p, q), r) == xor_eq(p, xor_eq(q, r)),
        xor_eq(p, q) == xor_eq(q, p),
        xor_eq(p, (0u128, 0u8)) == p,
        xor_eq(p, p) == (0u128, 0u8),
{
    lemma_xor_laws_u128(p.0, q.0, r.0);
    lemma_xor_laws_u8(p.1, q.1, r.1);
}

/// XOR on masks is associative and commutative, with 0 as unit and every mask
/// its own inverse.
proof fn lemma_xor_laws_u128(a: u128, b: u128, c: u128)
    by (bit_vector)
    ensures
        (a ^ b) ^ c == a ^ (b ^ c),
        a ^ b == b ^ a,
        a ^ 0u128 == a,
        a ^ a == 0u128,
{
}

/// XOR on right-hand sides is associative and commutative, with 0 as unit and
/// every value its own inverse.
proof fn lemma_xor_laws_u8(a: u8, b: u8, c: u8)
    by (bit_vector)
    ensures
        (a ^ b) ^ c == a ^ (b ^ c),
        a ^ b == b ^ a,
        a ^ 0u8 == a,
        a ^ a == 0u8,
{
}

/// Combinations are linear in the selection.
proof fn lemma_combo_xor(rows: Seq<(u128, u8)>, s1: Seq<bool>, s2: Seq<bool>, n: int)
    requires
        s1.len() == s2.len(),
        n <= s1.len(),
    ensures
        combo_upto(rows, sel_xor(s1, s2), n) == xor_eq(combo_upto(rows, s1, n), combo_upto(rows, s2, n)),
    decreases n,
{
    if n <= 0 {
        lemma_xor_eq_laws((0u128, 0u8), (0u128, 0u8), (0u128, 0u8));
    } else {
        lemma_combo_xor(rows, s1, s2, n - 1);
        let a = combo_upto(rows, s1, n - 1);
        let b = combo_upto(rows, s2, n - 1);
        let r = rows[n - 1];
        lemma_xor_eq_laws(a, b, r);
        lemma_xor_eq_laws(a, r, b);
        lemma_xor_eq_laws(b, r, a);
        lemma_xor_eq_laws(xor_eq(a, b), r, r);
        lemma_xor_eq_laws(a, xor_eq(b, r), r);
        lemma_xor_eq_laws(r, r, b);
        lemma_xor_eq_laws(xor_eq(a, r), b, r);
        lemma_xor_eq_laws(a, r, xor_eq(b, r));
        lemma_xor_eq_laws(a, xor_eq(r, b), r);
        lemma_xor_eq_laws(b, r, r);
        lemma_xor_eq_laws(a, b, (0u128, 0u8));
        lemma_xor_eq_laws(r, b, r);
        lemma_xor_eq_laws(a, (0u128, 0u8), b);
    }
}

/// Rows outside the selection do not matter.
proof fn lemma_combo_agree(r1: Seq<(u128, u8)>, r2: Seq<(u128, u8)>, sel: Seq<bool>, n: int)
    requires
        forall|t: int| 0 <= t < n && sel[t] ==> r1[t] == r2[t],
    ensures
        combo_upto(r1, sel, n) == combo_upto(r2, sel, n),
    decreases n,
{
    if n > 0 {
        lemma_combo_agree(r1, r2, sel, n - 1);
    }
}

/// Selecting row k alone (or nothing) gives row k (or zero).
proof fn lemma_combo_unit(rows: Seq<(u128, u8)>, len: int, k: int, on: bool, n: int)
    requires
        0 <= k < len,
        n <= len,
    ensures
        combo_upto(rows, maybe_unit(len, k, on), n) == if on && k < n { rows[k] } else { (0u128, 0u8) },
    decreases n,
{
    if n > 0 {
        lemma_combo_unit(rows, len, k, on, n - 1);
        lemma_xor_eq_laws(rows[k], (0u128, 0u8), (0u128, 0u8));
        lemma_xor_eq_laws((0u128, 0u8), rows[k], (0u128, 0u8));
    }
}

/// Changing row i by XOR-ing v into it changes a combination by v exactly when
/// row i is selected.
proof fn lemma_combo_change(cur: Seq<(u128, u8)>, nxt: Seq<(u128, u8)>, sel: Seq<bool>, i: int, v: (u128, u8), n: int)
    requires
        0 <= i < cur.len(),
        cur.len() == nxt.len(),
        n <= cur.len(),
        nxt[i] == xor_eq(cur[i], v),
        forall|t: int| 0 <= t < cur.len() && t != i ==> nxt[t] == cur[t],
    ensures
        combo_upto(nxt, sel, n) == if sel[i] && i < n { xor_eq(combo_upto(cur, sel, n), v) } else { combo_upto(cur, sel, n) },
    decreases n,
{
    if n > 0 {
        lemma_combo_change(cur, nxt, sel, i, v, n - 1);
        let a = combo_upto(cur, sel, n - 1);
        lemma_xor_eq_laws(a, v, cur[n - 1]);
        lemma_xor_eq_laws(a, cur[n - 1], v);
        lemma_xor_eq_laws(v, cur[n - 1], a);
        lemma_xor_eq_laws(a, xor_eq(cur[n - 1], v), a);
        lemma_xor_eq_laws(cur[n - 1], v, a);
        lemma_xor_eq_laws(a, xor_eq(v, cur[n - 1]), a);
    }
}

/// Exchanging two rows exchanges their places in every selection.
proof fn lemma_combo_swap(rows: Seq<(u128, u8)>, a: int, b: int, sel: Seq<bool>)
    requires
        0 <= a < rows.len(),
        0 <= b < rows.len(),
        sel.len() == rows.len(),
    ensures
        combination(rows.update(a, rows[b]).update(b, rows[a]), sel) == combination(rows, sel_swap(sel, a, b)),
{
    let n = rows.len() as int;
    let rows2 = rows.update(a, rows[b]).update(b, rows[a]);
    if a == b {
        assert(rows2 =~= rows);
        assert(sel_swap(sel, a, b) =~= sel);
    } else {
        let rest = sel.update(a, false).update(b, false);
        let ua = maybe_unit(n, a, sel[a]);
        let ub = maybe_unit(n, b, sel[b]);
        let ua2 = maybe_unit(n, a, sel[b]);
        let ub2 = maybe_unit(n, b, sel[a]);
        assert(sel =~= sel_xor(sel_xor(rest, ua), ub));
        assert(sel_swap(sel, a, b) =~= sel_xor(sel_xor(rest, ua2), ub2));
        lemma_combo_xor(rows2, sel_xor(rest, ua), ub, n);
        lemma_combo_xor(rows2, rest, ua, n);
        lemma_combo_xor(rows, sel_xor(rest, ua2), ub2, n);
        lemma_combo_xor(rows, rest, ua2, n);
        lemma_combo_agree(rows2, rows, rest, n);
        lemma_combo_unit(rows2, n, a, sel[a], n);
        lemma_combo_unit(rows2, n, b, sel[b], n);
        lemma_combo_unit(rows, n, a, sel[b], n);
        lemma_combo_unit(rows, n, b, sel[a], n);
        let c = combo_upto(rows, rest, n);
        let x = combo_upto(rows2, ua, n);
        let y = combo_upto(rows2, ub, n);
        lemma_xor_eq_laws(c, x, y);
        lemma_xor_eq_laws(c, y, x);
        lemma_xor_eq_laws(x, y, c);
    }
}

/// A bit of an XOR is the XOR of the bits.
proof fn lemma_has_bit_xor(a: u128, b: u128, c: int)
    requires
        0 <= c < 128,
    ensures
        has_bit(a ^ b, c) == (has_bit(a, c) != has_bit(b, c)),
{
    let cu = c as u128;
    assert((((a ^ b) >> cu) & 1u128 == 1u128) == (((a >> cu) & 1u128 == 1u128) != ((b >> cu)
        & 1u128 == 1u128))) by (bit_vector)
        requires
            cu < 128,
    ;
}

/// The selections tracking how `cur` and `orig` are combinations of each other.
pub open spec fn linked(orig: Seq<(u128, u8)>, cur: Seq<(u128, u8)>, c: Seq<Seq<bool>>, d: Seq<Seq<bool>>) -> bool {
    &&& cur.len() == orig.len()
    &&& c.len() == orig.len()
    &&& d.len() == orig.len()
    &&& forall|k: int| 0 <= k < orig.len() ==> (#[trigger] c[k]).len() == orig.len() && cur[k] == combination(orig, c[k])
    &&& forall|k: int| 0 <= k < orig.len() ==> (#[trigger] d[k]).len() == orig.len() && orig[k] == combination(cur, d[k])
}

/// Linking selections witness that each system's rows combine the other's.
proof fn lemma_linked_combine(orig: Seq<(u128, u8)>, cur: Seq<(u128, u8)>, c: Seq<Seq<bool>>, d: Seq<Seq<bool>>)
    requires
        linked(orig, cur, c, d),
    ensures
        rows_combine(cur, orig),
        rows_combine(orig, cur),
{
    assert forall|k: int| 0 <= k < cur.len() implies #[trigger] is_combination(cur[k], orig) by {
        assert(c[k].len() == orig.len() && cur[k] == combination(orig, c[k]));
    }
    assert forall|k: int| 0 <= k < orig.len() implies #[trigger] is_combination(orig[k], cur) by {
        assert(d[k].len() == cur.len() && orig[k] == combination(cur, d[k]));
    }
}

/// A combination of equations whose right-hand sides are 0 or 1 has a
/// right-hand side 0 or 1.
proof fn lemma_combo_rhs_bit(rows: Seq<(u128, u8)>, sel: Seq<bool>, n: int)
    requires
        n <= rows.len(),
        forall|t: int| 0 <= t < rows.len() ==> #[trigger] rows[t].1 <= 1,
    ensures
        combo_upto(rows, sel, n).1 <= 1,
    decreases n,
{
    if n > 0 {
        lemma_combo_rhs_bit(rows, sel, n - 1);
        let a = combo_upto(rows, sel, n - 1).1;
        let b = rows[n - 1].1;
        assert(a <= 1 && b <= 1 ==> a ^ b <= 1) by (bit_vector);
    }
}

/// The first row at or after p whose mask has bit `col` set (rows.len() when
/// there is none).
pub open spec fn pivot_from(rows: Seq<(u128, u8)>, col: int, p: int) -> int
    decreases rows.len() - p,
{
    if p >= rows.len() {
        rows.len() as int
    } else if has_bit(rows[p].0, col) {
        p
    } else {
        pivot_from(rows, col, p + 1)
    }
}

/// One column of the elimination, with `rank` pivots found so far: take the
/// first row from `rank` on with bit `col` set, swap it into place `rank`, and
/// XOR it (mask and right-hand side) into every other row with bit `col` set.
/// Without such a row, nothing changes.
pub open spec fn elim_step(rows: Seq<(u128, u8)>, rank: int, col: int) -> (Seq<(u128, u8)>, int) {
    let p = pivot_from(rows, col, rank);
    if p >= rows.len() {
        (rows, rank)
    } else {
        let sw = rows.update(rank, rows[p]).update(p, rows[rank]);
        (
            Seq::new(
                rows.len(),
                |t: int| if t != rank && has_bit(sw[t].0, col) { xor_eq(sw[t], sw[rank]) } else { sw[t] },
            ),
            rank + 1,
        )
    }
}

/// The elimination over columns 0..c: the rows and the number of pivots found.
pub open spec fn elim_upto(rows: Seq<(u128, u8)>, c: int) -> (Seq<(u128, u8)>, int)
    decreases c,
{
    if c <= 0 {
        (rows, 0)
    } else {
        let prev = elim_upto(rows, c - 1);
        elim_step(prev.0, prev.1, c - 1)
    }
}

/// Gaussian elimination over GF(2) into reduced row echelon form, column by
/// column from bit 0 to bit 127, with row swaps and row XORs applied to the
/// right-hand sides alike. Returns the rank.
///
/// Every resulting row (mask and right-hand side) is a GF(2) combination of the
/// given rows and every given row is one of the resulting rows, so both systems
/// span the same equations; the first `rank` resulting rows are in reduced row
/// echelon form (hence independent) and the rest have zero masks, so `rank` is
/// the GF(2) rank of the given masks. The rows and the rank are exactly those
/// of the elimination `elim_upto` over all 128 columns, right-hand sides
/// included, on every system (consistent or not).
pub fn rref(rows: &mut Vec<(u128, u8)>) -> (rank: usize)
    ensures
        final(rows)@ == elim_upto(old(rows)@, 128).0,
        rank == elim_upto(old(rows)@, 128).1,
        final(rows)@.len() == old(rows)@.len(),
        rank <= final(rows)@.len(),
        rank <= COLS,
        is_rref(final(rows)@, rank as int),
        rows_combine(final(rows)@, old(rows)@),
        rows_combine(old(rows)@, final(rows)@),
        forall|key: u128| solves(final(rows)@, key) <==> solves(old(rows)@, key),
        (forall|t: int| 0 <= t < old(rows)@.len() ==> #[trigger] old(rows)@[t].1 <= 1) ==> (forall|t: int|
            0 <= t < final(rows)@.len() ==> #[trigger] final(rows)@[t].1 <= 1),
{
    let ghost orig = rows@;
    let ghost n0 = orig.len() as int;
    let ghost mut cs: Seq<Seq<bool>> = Seq::new(orig.len(), |k: int| maybe_unit(n0, k, true));
    let ghost mut ds: Seq<Seq<bool>> = Seq::new(orig.len(), |k: int| maybe_unit(n0, k, true));
    proof {
        assert forall|k: int| 0 <= k < n0 implies orig[k] == combination(orig, #[trigger] cs[k]) by {
            lemma_combo_unit(orig, n0, k, true, n0);
        }
    }
    let mut rank: usize = 0;
    let ghost mut piv: Seq<int> = Seq::empty();
    let ghost n = rows@.len();
    let mut col: usize = 0;
    while col < COLS
        invariant
            rows@.len() == n,
            col <= 128,
            rank <= col,
            rref_with(rows@, rank as int, piv, col as int),
            orig == old(rows)@,
            forall|key: u128| solves(rows@, key) <==> solves(orig, key),
            linked(orig, rows@, cs, ds),
            (rows@, rank as int) == elim_upto(orig, col as int),
        decreases 128 - col,
    {
        let mut p: usize = rank;
        let mut found = false;
        while p < rows.len() && !found
            invariant
                rows@.len() == n,
                rank <= p <= n,
                col < 128,
                forall|i: int| rank <= i < p ==> !has_bit(#[trigger] rows@[i].0, col as int),
                found ==> p < n && has_bit(rows@[p as int].0, col as int),
                found ==> pivot_from(rows@, col as int, rank as int) == p,
                !found ==> pivot_from(rows@, col as int, rank as int) == pivot_from(rows@, col as int, p as int),
            decreases n - p + (if found { 0int } else { 1int }),
        {
            if (rows[p].0 >> (col as u128)) & 1 == 1 {
                found = true;
            } else {
                p = p + 1;
            }
        }
        if found {
            let ghost before = rows@;
            // Bring the pivot row up to position `rank`.
            let tmp = rows[rank];
            let prow_entry = rows[p];
            rows.set(rank, prow_entry);
            rows.set(p, tmp);
            let ghost sw = rows@;
            proof {
                assert(sw == before.update(rank as int, before[p as int]).update(p as int, before[rank as int]));
                let ncs = cs.update(rank as int, cs[p as int]).update(p as int, cs[rank as int]);
                let nds = Seq::new(n as nat, |j: int| sel_swap(ds[j], rank as int, p as int));
                assert forall|j: int| 0 <= j < n implies (#[trigger] nds[j]).len() == n && orig[j] == combination(sw, nds[j]) by {
                    lemma_combo_swap(before, rank as int, p as int, nds[j]);
                    assert(sel_swap(nds[j], rank as int, p as int) =~= ds[j]);
                }
                cs = ncs;
                ds = nds;
            }
            let (prow, prhs) = rows[rank];
            let mut i: usize = 0;
            while i < rows.len()
                invariant
                    rows@.len() == n,
                    sw.len() == n,
                    rank < n,
                    col < 128,
                    prow == sw[rank as int].0,
                    prhs == sw[rank as int].1,
                    i <= n,
                    forall|t: int|
                        0 <= t < i ==> #[trigger] rows@[t] == (if t != rank && has_bit(sw[t].0, col as int) {
                            (sw[t].0 ^ prow, sw[t].1 ^ prhs)
                        } else {
                            sw[t]
                        }),
                    forall|t: int| i <= t < n ==> #[trigger] rows@[t] == sw[t],
                    orig.len() == n,
                    linked(orig, rows@, cs, ds),
                decreases n - i,
            {
                if i != rank && (rows[i].0 >> (col as u128)) & 1 == 1 {
                    let entry = rows[i];
                    let ghost cur = rows@;
                    rows.set(i, (entry.0 ^ prow, entry.1 ^ prhs));
                    proof {
                        let v = (prow, prhs);
                        let nxt = rows@;
                        assert(cur[rank as int] == v);
                        assert(nxt[i as int] == xor_eq(cur[i as int], v));
                        let ncs = cs.update(i as int, sel_xor(cs[i as int], cs[rank as int]));
                        lemma_combo_xor(orig, cs[i as int], cs[rank as int], n as int);
                        assert forall|k: int| 0 <= k < n implies (#[trigger] ncs[k]).len() == n && nxt[k] == combination(orig, ncs[k]) by {
                            if k == i {
                                assert(ncs[k].len() == n);
                            }
                        }
                        let nds = Seq::new(n as nat, |j: int| sel_xor(ds[j], maybe_unit(n as int, rank as int, ds[j][i as int])));
                        assert forall|j: int| 0 <= j < n implies (#[trigger] nds[j]).len() == n && orig[j] == combination(nxt, nds[j]) by {
                            let dj = ds[j];
                            assert(dj.len() == n && orig[j] == combination(cur, dj));
                            let mu = maybe_unit(n as int, rank as int, dj[i as int]);
                            assert(nds[j] == sel_xor(dj, mu));
                            assert(nxt[rank as int] == v);
                            assert(forall|t: int| 0 <= t < cur.len() && t != i ==> nxt[t] == cur[t]);
                            lemma_combo_change(cur, nxt, dj, i as int, v, n as int);
                            lemma_combo_xor(nxt, dj, mu, n as int);
                            lemma_combo_unit(nxt, n as int, rank as int, dj[i as int], n as int);
                            let c0 = combination(cur, dj);
                            lemma_xor_eq_laws(c0, v, v);
                            lemma_xor_eq_laws(c0, (0u128, 0u8), (0u128, 0u8));
                            let a1 = combination(nxt, dj);
                            let a2 = combination(nxt, mu);
                            assert(nxt.len() == n);
                            assert(a1 == if dj[i as int] { xor_eq(c0, v) } else { c0 });
                            assert(a2 == if dj[i as int] { v } else { (0u128, 0u8) });
                            assert(combination(nxt, nds[j]) == xor_eq(a1, a2));
                            if dj[i as int] {
                                lemma_xor_eq_laws(v, v, v);
                                assert(xor_eq(xor_eq(c0, v), v) == c0);
                            } else {
                                assert(xor_eq(c0, (0u128, 0u8)) == c0);
                            }
                        }
                        cs = ncs;
                        ds = nds;
                    }
                }
                i = i + 1;
            }
            proof {
                let after = rows@;
                let c = col as int;
                assert(sw[rank as int] == before[p as int]);
                assert forall|t: int| 0 <= t < n && t != rank implies (sw[t] == before[t] || (t
                    == p && sw[t] == before[rank as int])) by {}
                // Every row at or after `rank` is zero below `col`, so the pivot row is too.
                assert forall|cc: int| 0 <= cc < c implies !has_bit(prow, cc) by {}
                assert forall|t: int, cc: int|
                    0 <= t < n && 0 <= cc < 128 implies #[trigger] has_bit(after[t].0, cc) == (
                    if t != rank && has_bit(sw[t].0, c) {
                        has_bit(sw[t].0, cc) != has_bit(prow, cc)
                    } else {
                        has_bit(sw[t].0, cc)
                    }) by {
                    if t != rank && has_bit(sw[t].0, c) {
                        lemma_has_bit_xor(sw[t].0, prow, cc);
                    }
                }
                let piv2 = piv.push(c);
                assert forall|k: int| 0 <= k < rank implies !has_bit(prow, #[trigger] piv[k]) by {}
                assert(rref_with(after, rank + 1, piv2, c + 1));
                piv = piv2;
                assert(pivot_from(before, c, rank as int) == p);
                assert(after =~= elim_step(before, rank as int, c).0);
                // Row swaps and row XORs keep the solutions of the system.
                assert forall|key: u128| solves(sw, key) <==> solves(before, key) by {
                    if solves(sw, key) {
                        assert forall|k: int| 0 <= k < before.len() implies satisfies(#[trigger] before[k], key) by {
                            if k == rank {
                                assert(before[k] == sw[p as int]);
                            } else if k == p {
                                assert(before[k] == sw[rank as int]);
                            } else {
                                assert(before[k] == sw[k]);
                            }
                        }
                    }
                    if solves(before, key) {
                        assert forall|k: int| 0 <= k < sw.len() implies satisfies(#[trigger] sw[k], key) by {
                            if k == rank {
                                assert(sw[k] == before[p as int]);
                            } else if k == p {
                                assert(sw[k] == before[rank as int]);
                            } else {
                                assert(sw[k] == before[k]);
                            }
                        }
                    }
                }
                assert forall|key: u128| solves(after, key) <==> solves(sw, key) by {
                    if solves(sw, key) {
                        assert(satisfies(sw[rank as int], key));
                        assert forall|k: int| 0 <= k < after.len() implies satisfies(#[trigger] after[k], key) by {
                            if k != rank && has_bit(sw[k].0, c) {
                                lemma_satisfies_xor(sw[k], sw[rank as int], key);
                            }
                        }
                    }
                    if solves(after, key) {
                        assert(after[rank as int] == sw[rank as int]);
                        assert(satisfies(sw[rank as int], key));
                        assert forall|k: int| 0 <= k < sw.len() implies satisfies(#[trigger] sw[k], key) by {
                            assert(satisfies(after[k], key));
                            if k != rank && has_bit(sw[k].0, c) {
                                assert(after[k] == (sw[k].0 ^ prow, sw[k].1 ^ prhs));
                                lemma_satisfies_xor(sw[k], sw[rank as int], key);
                            } else {
                                assert(after[k] == sw[k]);
                            }
                        }
                    }
                }
            }
            rank = rank + 1;
        } else {
            proof {
                assert(rref_with(rows@, rank as int, piv, col + 1));
                assert(pivot_from(rows@, col as int, rank as int) == n);
            }
        }
        col = col + 1;
    }
    proof {
        lemma_linked_combine(orig, rows@, cs, ds);
        if forall|t: int| 0 <= t < orig.len() ==> #[trigger] orig[t].1 <= 1 {
            assert forall|t: int| 0 <= t < rows@.len() implies #[trigger] rows@[t].1 <= 1 by {
                lemma_combo_rhs_bit(orig, cs[t], n0);
            }
        }
    }
    rank
}

} // verus!
