//! The cube's geometry: cell addressing, the concentric shells that split the
//! state into rate and capacity, the checkerboard colouring, the toroidal
//! neighbourhood, and the two per-cell maps (rho offsets and the pi shear).
use vstd::prelude::*;

verus! {

/// Side length of the cube. It is even, so the checkerboard colouring stays
/// consistent across the torus wrap-around.
pub const N: usize = 8;

/// Number of cells (bytes) in the state.
pub const CELLS: usize = N * N * N;

/// The permutation state: one byte per cell.
pub type Cube = [u8; CELLS];

/// Number of rounds of the full permutation.
pub const ROUNDS: u32 = 12;

/// Shell index of the outermost shell, which is the sponge rate.
pub const OUTER_RADIUS: usize = 3;

// ---------------------------------------------------------------------------
// Mathematical model of the geometry
// ---------------------------------------------------------------------------

/// Linear index of the cell at coordinates (x, y, z).
pub open spec fn idx_spec(x: int, y: int, z: int) -> int {
    x + y * 8 + z * 64
}

/// x coordinate of cell `i`.
pub open spec fn cx(i: int) -> int {
    i % 8
}

/// y coordinate of cell `i`.
pub open spec fn cy(i: int) -> int {
    (i / 8) % 8
}

/// z coordinate of cell `i`.
pub open spec fn cz(i: int) -> int {
    i / 64
}

/// Distance from a value to the nearer element of the centre pair {3, 4}.
pub open spec fn axis_shell_spec(v: int) -> int {
    let a = if v >= 3 { v - 3 } else { 3 - v };
    let b = if v >= 4 { v - 4 } else { 4 - v };
    if a <= b { a } else { b }
}

/// Larger of two integers.
pub open spec fn max_int(a: int, b: int) -> int {
    if a >= b { a } else { b }
}

/// Concentric-cube shell index of cell `i` (0 = the central 2x2x2 cube).
pub open spec fn radius_spec(i: int) -> int {
    max_int(max_int(axis_shell_spec(cx(i)), axis_shell_spec(cy(i))), axis_shell_spec(cz(i)))
}

/// Checkerboard colour of cell `i`: parity of x + y + z.
pub open spec fn color_spec(i: int) -> int {
    (cx(i) + cy(i) + cz(i)) % 2
}

/// Whether cell `i` lies in the outermost shell (the sponge rate).
pub open spec fn is_rate_spec(i: int) -> bool {
    radius_spec(i) == 3
}

/// Whether `i` addresses a cell of the cube.
pub open spec fn in_cube(i: int) -> bool {
    0 <= i < 512
}

/// The `k`-th toroidal face-neighbour of cell `i`, in the order +x, -x, +y, -y, +z, -z.
pub closed spec fn neighbor_spec(i: int, k: int) -> int {
    let x = cx(i);
    let y = cy(i);
    let z = cz(i);
    if k == 0 {
        idx_spec((x + 1) % 8, y, z)
    } else if k == 1 {
        idx_spec((x + 7) % 8, y, z)
    } else if k == 2 {
        idx_spec(x, (y + 1) % 8, z)
    } else if k == 3 {
        idx_spec(x, (y + 7) % 8, z)
    } else if k == 4 {
        idx_spec(x, y, (z + 1) % 8)
    } else {
        idx_spec(x, y, (z + 7) % 8)
    }
}

/// Rotation offset of cell `i` for the rho step, in 0..8.
pub open spec fn rho_offset_spec(i: int) -> int {
    (cx(i) + 3 * cy(i) + 5 * cz(i)) % 8
}

/// The pi shear: where cell `i` is moved to.
pub open spec fn pi_map_spec(i: int) -> int {
    let x = cx(i);
    let y = cy(i);
    let z = cz(i);
    let x1 = (x + y) % 8;
    let y1 = (y + z) % 8;
    let z1 = (z + x1) % 8;
    idx_spec(x1, y1, z1)
}

/// The inverse shear, unwound in reverse order.
pub open spec fn pi_unmap_spec(i: int) -> int {
    let x1 = cx(i);
    let y1 = cy(i);
    let z1 = cz(i);
    let z = (z1 + 8 - x1) % 8;
    let y = (y1 + 8 - z) % 8;
    let x = (x1 + 8 - y) % 8;
    idx_spec(x, y, z)
}

/// The cells 0..n of the cube, in order.
pub open spec fn cells_upto(n: int) -> Seq<usize> {
    Seq::new(n as nat, |i: int| i as usize)
}

/// The rate cells among 0..n, in increasing order.
pub open spec fn rate_prefix(n: int) -> Seq<usize> {
    cells_upto(n).filter(|c: usize| is_rate_spec(c as int))
}

/// The capacity cells among 0..n, in increasing order.
pub open spec fn capacity_prefix(n: int) -> Seq<usize> {
    cells_upto(n).filter(|c: usize| !is_rate_spec(c as int))
}

/// The cells of one colour among 0..n, in increasing order.
pub open spec fn color_prefix(n: int, c: int) -> Seq<usize> {
    cells_upto(n).filter(|i: usize| color_spec(i as int) == c)
}

/// The rate cells in increasing order.
pub open spec fn rate_seq() -> Seq<usize> {
    rate_prefix(512)
}

/// The capacity cells in increasing order.
pub open spec fn capacity_seq() -> Seq<usize> {
    capacity_prefix(512)
}

// ---------------------------------------------------------------------------
// Lemmas about the geometry
// ---------------------------------------------------------------------------

/// Coordinates and linear index are inverse to each other inside the cube.
pub proof fn lemma_coords_idx(x: int, y: int, z: int)
    requires
        0 <= x < 8,
        0 <= y < 8,
        0 <= z < 8,
    ensures
        cx(idx_spec(x, y, z)) == x,
        cy(idx_spec(x, y, z)) == y,
        cz(idx_spec(x, y, z)) == z,
        in_cube(idx_spec(x, y, z)),
{
    let i = idx_spec(x, y, z);
    vstd::arithmetic::div_mod::lemma_fundamental_div_mod_converse(i, 8, y + 8 * z, x);
    vstd::arithmetic::div_mod::lemma_fundamental_div_mod_converse(y + 8 * z, 8, z, y);
    vstd::arithmetic::div_mod::lemma_fundamental_div_mod_converse(i, 64, z, x + 8 * y);
}

/// Every cell is the index of its own coordinates, and those coordinates lie in 0..8.
pub proof fn lemma_idx_coords(i: int)
    requires
        in_cube(i),
    ensures
        0 <= cx(i) < 8,
        0 <= cy(i) < 8,
        0 <= cz(i) < 8,
        idx_spec(cx(i), cy(i), cz(i)) == i,
{
    vstd::arithmetic::div_mod::lemma_fundamental_div_mod(i, 8);
    vstd::arithmetic::div_mod::lemma_fundamental_div_mod(i / 8, 8);
    vstd::arithmetic::div_mod::lemma_fundamental_div_mod(i, 64);
    vstd::arithmetic::div_mod::lemma_div_denominator(i, 8, 8);
}

/// Each toroidal neighbour of a cell is a cell, and it has the opposite colour:
/// on an even-sided torus the checkerboard is consistent across the wrap-around.
pub proof fn lemma_neighbor(i: int, k: int)
    requires
        in_cube(i),
        0 <= k < 6,
    ensures
        in_cube(neighbor_spec(i, k)),
        color_spec(neighbor_spec(i, k)) != color_spec(i),
{
    lemma_idx_coords(i);
    let x = cx(i);
    let y = cy(i);
    let z = cz(i);
    if k == 0 {
        lemma_coords_idx((x + 1) % 8, y, z);
    } else if k == 1 {
        lemma_coords_idx((x + 7) % 8, y, z);
    } else if k == 2 {
        lemma_coords_idx(x, (y + 1) % 8, z);
    } else if k == 3 {
        lemma_coords_idx(x, (y + 7) % 8, z);
    } else if k == 4 {
        lemma_coords_idx(x, y, (z + 1) % 8);
    } else {
        lemma_coords_idx(x, y, (z + 7) % 8);
    }
}

/// Reduction modulo 8 of a value in 0..16.
proof fn lemma_mod8_small(v: int)
    requires
        0 <= v < 16,
    ensures
        v % 8 == if v < 8 { v } else { v - 8 },
{
    if v < 8 {
        vstd::arithmetic::div_mod::lemma_fundamental_div_mod_converse(v, 8, 0, v);
    } else {
        vstd::arithmetic::div_mod::lemma_fundamental_div_mod_converse(v, 8, 1, v - 8);
    }
}

/// The coordinates of the `k`-th neighbour of a cell.
pub proof fn lemma_neighbor_coords(i: int, k: int)
    requires
        in_cube(i),
        0 <= k < 6,
    ensures
        cx(neighbor_spec(i, k)) == if k == 0 { (cx(i) + 1) % 8 } else if k == 1 { (cx(i) + 7) % 8 } else { cx(i) },
        cy(neighbor_spec(i, k)) == if k == 2 { (cy(i) + 1) % 8 } else if k == 3 { (cy(i) + 7) % 8 } else { cy(i) },
        cz(neighbor_spec(i, k)) == if k == 4 { (cz(i) + 1) % 8 } else if k == 5 { (cz(i) + 7) % 8 } else { cz(i) },
        0 <= cx(i) < 8 && 0 <= cy(i) < 8 && 0 <= cz(i) < 8,
{
    lemma_idx_coords(i);
    let x = cx(i);
    let y = cy(i);
    let z = cz(i);
    lemma_mod8_small(x + 1);
    lemma_mod8_small(x + 7);
    lemma_mod8_small(y + 1);
    lemma_mod8_small(y + 7);
    lemma_mod8_small(z + 1);
    lemma_mod8_small(z + 7);
    if k == 0 {
        lemma_coords_idx((x + 1) % 8, y, z);
    } else if k == 1 {
        lemma_coords_idx((x + 7) % 8, y, z);
    } else if k == 2 {
        lemma_coords_idx(x, (y + 1) % 8, z);
    } else if k == 3 {
        lemma_coords_idx(x, (y + 7) % 8, z);
    } else if k == 4 {
        lemma_coords_idx(x, y, (z + 1) % 8);
    } else {
        lemma_coords_idx(x, y, (z + 7) % 8);
    }
}

/// The six neighbours of a cell are six different cells, none of them the cell
/// itself.
pub proof fn lemma_neighbors_distinct(i: int)
    requires
        in_cube(i),
    ensures
        forall|k: int| 0 <= k < 6 ==> #[trigger] neighbor_spec(i, k) != i,
        forall|k1: int, k2: int|
            0 <= k1 < 6 && 0 <= k2 < 6 && k1 != k2 ==> #[trigger] neighbor_spec(i, k1)
                != #[trigger] neighbor_spec(i, k2),
{
    lemma_mod8_small(cx(i) + 1);
    lemma_mod8_small(cx(i) + 7);
    lemma_mod8_small(cy(i) + 1);
    lemma_mod8_small(cy(i) + 7);
    lemma_mod8_small(cz(i) + 1);
    lemma_mod8_small(cz(i) + 7);
    assert forall|k: int| 0 <= k < 6 implies #[trigger] neighbor_spec(i, k) != i by {
        lemma_neighbor_coords(i, k);
    }
    assert forall|k1: int, k2: int|
        0 <= k1 < 6 && 0 <= k2 < 6 && k1 != k2 implies #[trigger] neighbor_spec(i, k1)
            != #[trigger] neighbor_spec(i, k2) by {
        lemma_neighbor_coords(i, k1);
        lemma_neighbor_coords(i, k2);
    }
}

/// The index of the opposite direction: +x and -x, +y and -y, +z and -z.
pub open spec fn opposite(k: int) -> int {
    if k % 2 == 0 { k + 1 } else { k - 1 }
}

/// The neighbour relation is symmetric: the cell is the opposite neighbour of
/// each of its neighbours, so j is a neighbour of i exactly when i is one of j.
pub proof fn lemma_neighbor_symmetric(i: int, k: int)
    requires
        in_cube(i),
        0 <= k < 6,
    ensures
        0 <= opposite(k) < 6,
        neighbor_spec(neighbor_spec(i, k), opposite(k)) == i,
{
    lemma_neighbor(i, k);
    let j = neighbor_spec(i, k);
    lemma_neighbor_coords(i, k);
    lemma_neighbor_coords(j, opposite(k));
    lemma_mod8_small(cx(j) + 1);
    lemma_mod8_small(cx(j) + 7);
    lemma_mod8_small(cy(j) + 1);
    lemma_mod8_small(cy(j) + 7);
    lemma_mod8_small(cz(j) + 1);
    lemma_mod8_small(cz(j) + 7);
    lemma_mod8_small(cx(i) + 1);
    lemma_mod8_small(cx(i) + 7);
    lemma_mod8_small(cy(i) + 1);
    lemma_mod8_small(cy(i) + 7);
    lemma_mod8_small(cz(i) + 1);
    lemma_mod8_small(cz(i) + 7);
    lemma_neighbor(j, opposite(k));
    lemma_idx_coords(i);
    lemma_idx_coords(neighbor_spec(j, opposite(k)));
}

/// The pi shear maps cells to cells, and pi_unmap undoes it.
pub proof fn lemma_pi_unmap_map(i: int)
    requires
        in_cube(i),
    ensures
        in_cube(pi_map_spec(i)),
        pi_unmap_spec(pi_map_spec(i)) == i,
{
    lemma_idx_coords(i);
    let x = cx(i);
    let y = cy(i);
    let z = cz(i);
    lemma_mod8_small(x + y);
    lemma_mod8_small(y + z);
    let x1 = (x + y) % 8;
    let y1 = (y + z) % 8;
    lemma_mod8_small(z + x1);
    let z1 = (z + x1) % 8;
    lemma_coords_idx(x1, y1, z1);
    lemma_mod8_small(z1 + 8 - x1);
    let zz = (z1 + 8 - x1) % 8;
    lemma_mod8_small(y1 + 8 - zz);
    let yy = (y1 + 8 - zz) % 8;
    lemma_mod8_small(x1 + 8 - yy);
    let xx = (x1 + 8 - yy) % 8;
    assert(zz == z);
    assert(yy == y);
    assert(xx == x);
}

/// pi_unmap maps cells to cells, and pi_map undoes it.
pub proof fn lemma_pi_map_unmap(i: int)
    requires
        in_cube(i),
    ensures
        in_cube(pi_unmap_spec(i)),
        pi_map_spec(pi_unmap_spec(i)) == i,
{
    lemma_idx_coords(i);
    let x1 = cx(i);
    let y1 = cy(i);
    let z1 = cz(i);
    lemma_mod8_small(z1 + 8 - x1);
    let z = (z1 + 8 - x1) % 8;
    lemma_mod8_small(y1 + 8 - z);
    let y = (y1 + 8 - z) % 8;
    lemma_mod8_small(x1 + 8 - y);
    let x = (x1 + 8 - y) % 8;
    lemma_coords_idx(x, y, z);
    lemma_mod8_small(x + y);
    lemma_mod8_small(y + z);
    lemma_mod8_small(z + x1);
    assert((x + y) % 8 == x1);
    assert((y + z) % 8 == y1);
    assert((z + x1) % 8 == z1);
}

/// A cell's colour is 0 or 1.
pub proof fn lemma_color_bit(i: int)
    requires
        in_cube(i),
    ensures
        color_spec(i) == 0 || color_spec(i) == 1,
{
    lemma_idx_coords(i);
}

/// Cell 0 has colour 0 (colour A).
pub proof fn lemma_color_zero()
    ensures
        color_spec(0) == 0,
{
}

/// The shear moves cells across shells, both ways: rate cell (0, 1, 1) goes to
/// capacity cell (1, 2, 2), and capacity cell (6, 1, 1) to rate cell (7, 2, 0).
pub proof fn lemma_pi_crosses_shells()
    ensures
        is_rate_spec(72) && pi_map_spec(72) == 145 && !is_rate_spec(145),
        !is_rate_spec(78) && pi_map_spec(78) == 23 && is_rate_spec(23),
{
    lemma_coords_idx(0, 1, 1);
    lemma_coords_idx(1, 2, 2);
    lemma_coords_idx(6, 1, 1);
    lemma_coords_idx(7, 2, 0);
    assert(idx_spec(0, 1, 1) == 72 && idx_spec(1, 2, 2) == 145);
    assert(idx_spec(6, 1, 1) == 78 && idx_spec(7, 2, 0) == 23);
    vstd::arithmetic::div_mod::lemma_fundamental_div_mod_converse(1, 8, 0, 1);
    vstd::arithmetic::div_mod::lemma_fundamental_div_mod_converse(2, 8, 0, 2);
    vstd::arithmetic::div_mod::lemma_fundamental_div_mod_converse(8, 8, 1, 0);
    vstd::arithmetic::div_mod::lemma_fundamental_div_mod_converse(7, 8, 0, 7);
}

/// Cell 0 is a fixed point of the shear and has rho offset 0.
pub proof fn lemma_cell_zero_fixed()
    ensures
        pi_map_spec(0) == 0,
        pi_unmap_spec(0) == 0,
        rho_offset_spec(0) == 0,
{
    lemma_coords_idx(0, 0, 0);
}

/// A cell's rho offset lies in 0..8.
pub proof fn lemma_rho_offset_bound(i: int)
    requires
        in_cube(i),
    ensures
        0 <= rho_offset_spec(i) < 8,
{
    lemma_idx_coords(i);
}

/// The rate cells among 0..n lie below n, are rate cells, come in strictly
/// increasing order, and together with the capacity cells among 0..n number
/// exactly n. From n = 1 on, cell 0 (a corner) is the first rate cell.
pub proof fn lemma_rate_prefix(n: int)
    requires
        0 <= n <= 512,
    ensures
        forall|k: int|
            0 <= k < rate_prefix(n).len() ==> (#[trigger] rate_prefix(n)[k]) < n && is_rate_spec(
                rate_prefix(n)[k] as int,
            ),
        forall|k1: int, k2: int|
            0 <= k1 < k2 < rate_prefix(n).len() ==> #[trigger] rate_prefix(n)[k1]
                < #[trigger] rate_prefix(n)[k2],
        forall|k: int|
            0 <= k < capacity_prefix(n).len() ==> (#[trigger] capacity_prefix(n)[k]) < n
                && !is_rate_spec(capacity_prefix(n)[k] as int),
        rate_prefix(n).len() + capacity_prefix(n).len() == n,
        n >= 1 ==> rate_prefix(n).len() >= 1 && rate_prefix(n)[0] == 0,
    decreases n,
{
    reveal(Seq::filter);
    if n > 0 {
        lemma_rate_prefix(n - 1);
        assert(cells_upto(n).drop_last() =~= cells_upto(n - 1));
        assert(is_rate_spec(0));
    }
}

/// A coordinate strictly inside the outer shell.
spec fn inner(v: int) -> bool {
    1 <= v <= 6
}

/// How many values of 0..v lie strictly inside the outer shell (for v in 0..=8).
spec fn inner_below(v: int) -> int {
    if v <= 1 {
        0
    } else if v >= 7 {
        6
    } else {
        v - 1
    }
}

/// The capacity cells among 0..n counted by coordinates: full z-layers, then
/// full rows of the current layer, then the current row.
spec fn capacity_count(n: int) -> int {
    36 * inner_below(cz(n)) + if inner(cz(n)) {
        6 * inner_below(cy(n)) + if inner(cy(n)) { inner_below(cx(n)) } else { 0 }
    } else {
        0
    }
}

/// How many x in 0..r make x + p even.
spec fn even_below(r: int, p: int) -> int {
    if p == 0 { (r + 1) / 2 } else { r / 2 }
}

/// The colour-0 cells among 0..n counted by coordinates: four per full row, then
/// the current row.
spec fn color0_count(n: int) -> int {
    4 * (8 * cz(n) + cy(n)) + even_below(cx(n), (cy(n) + cz(n)) % 2)
}

/// Going from cell i to cell i + 1 steps x, carrying into y and then z.
proof fn lemma_next_coords(i: int)
    requires
        in_cube(i),
    ensures
        cx(i) < 7 ==> cx(i + 1) == cx(i) + 1 && cy(i + 1) == cy(i) && cz(i + 1) == cz(i),
        cx(i) == 7 && cy(i) < 7 ==> cx(i + 1) == 0 && cy(i + 1) == cy(i) + 1 && cz(i + 1) == cz(i),
        cx(i) == 7 && cy(i) == 7 ==> cx(i + 1) == 0 && cy(i + 1) == 0 && cz(i + 1) == cz(i) + 1,
{
    lemma_idx_coords(i);
    let x = cx(i);
    let y = cy(i);
    let z = cz(i);
    if x < 7 {
        lemma_coords_idx(x + 1, y, z);
    } else if y < 7 {
        lemma_coords_idx(0, y + 1, z);
    } else if z < 7 {
        lemma_coords_idx(0, 0, z + 1);
    } else {
        assert(i + 1 == 512);
        vstd::arithmetic::div_mod::lemma_fundamental_div_mod_converse(512, 8, 64, 0);
        vstd::arithmetic::div_mod::lemma_fundamental_div_mod_converse(64, 8, 8, 0);
        vstd::arithmetic::div_mod::lemma_fundamental_div_mod_converse(512, 64, 8, 0);
    }
}

/// The capacity cells among 0..n number capacity_count(n).
proof fn lemma_capacity_count(n: int)
    requires
        0 <= n <= 512,
    ensures
        capacity_prefix(n).len() == capacity_count(n),
    decreases n,
{
    reveal(Seq::filter);
    if n > 0 {
        lemma_capacity_count(n - 1);
        assert(cells_upto(n).drop_last() =~= cells_upto(n - 1));
        lemma_idx_coords(n - 1);
        lemma_next_coords(n - 1);
    }
}

/// Moving one step along a row adds one even-sum cell exactly when x + p is even.
proof fn lemma_even_below_step(x: int, p: int)
    requires
        0 <= x < 7,
        p == 0 || p == 1,
    ensures
        even_below(x + 1, p) - even_below(x, p) == if (x + p) % 2 == 0 { 1int } else { 0int },
        even_below(7, p) + (if (7 + p) % 2 == 0 { 1int } else { 0int }) == 4,
        even_below(0, p) == 0,
{
    if x == 0 {
    } else if x == 1 {
    } else if x == 2 {
    } else if x == 3 {
    } else if x == 4 {
    } else if x == 5 {
    } else {
    }
}

/// The colour-0 cells among 0..n number color0_count(n), and together with the
/// colour-1 cells they are all n cells.
proof fn lemma_color_count(n: int)
    requires
        0 <= n <= 512,
    ensures
        color_prefix(n, 0).len() == color0_count(n),
        color_prefix(n, 0).len() + color_prefix(n, 1).len() == n,
    decreases n,
{
    reveal(Seq::filter);
    if n > 0 {
        let i = n - 1;
        lemma_color_count(i);
        assert(cells_upto(n).drop_last() =~= cells_upto(i));
        lemma_idx_coords(i);
        lemma_next_coords(i);
        lemma_color_bit(i);
        let x = cx(i);
        let y = cy(i);
        let z = cz(i);
        let p = (y + z) % 2;
        vstd::arithmetic::div_mod::lemma_add_mod_noop_right(x, y + z, 2);
        assert(color_spec(i) == (x + p) % 2);
        if x < 7 {
            lemma_even_below_step(x, p);
            assert(color0_count(n) == color0_count(i) + if color_spec(i) == 0 { 1int } else { 0int });
        } else {
            lemma_even_below_step(0, p);
            let q = (cy(n) + cz(n)) % 2;
            lemma_even_below_step(0, q);
            assert(color0_count(n) == color0_count(i) + if color_spec(i) == 0 { 1int } else { 0int });
        }
    }
}

/// The shells and the colours split the cube as the design says: the rate (the
/// outer shell) holds 296 cells and the capacity (the inner 6 x 6 x 6 cube) 216,
/// and each checkerboard colour holds 256 cells.
pub proof fn lemma_shell_and_color_sizes()
    ensures
        rate_seq().len() == 296,
        capacity_seq().len() == 216,
        color_prefix(512, 0).len() == 256,
        color_prefix(512, 1).len() == 256,
{
    lemma_rate_prefix(512);
    lemma_capacity_count(512);
    lemma_color_count(512);
    vstd::arithmetic::div_mod::lemma_fundamental_div_mod_converse(512, 8, 64, 0);
    vstd::arithmetic::div_mod::lemma_fundamental_div_mod_converse(64, 8, 8, 0);
    vstd::arithmetic::div_mod::lemma_fundamental_div_mod_converse(512, 64, 8, 0);
}

/// Face-adjacent cells get different rho offsets: moving one step along x, y or
/// z (wrapping around) changes x + 3y + 5z by an odd amount modulo 8, so equal
/// offsets on neighbours, which would leave the bit-planes uncoupled, never occur.
pub proof fn lemma_neighbor_rho_offsets_differ(i: int, k: int)
    requires
        in_cube(i),
        0 <= k < 6,
    ensures
        rho_offset_spec(neighbor_spec(i, k)) != rho_offset_spec(i),
{
    lemma_idx_coords(i);
    let x = cx(i);
    let y = cy(i);
    let z = cz(i);
    lemma_mod8_small(x + 1);
    lemma_mod8_small(x + 7);
    lemma_mod8_small(y + 1);
    lemma_mod8_small(y + 7);
    lemma_mod8_small(z + 1);
    lemma_mod8_small(z + 7);
    lemma_neighbor(i, k);
    let j = neighbor_spec(i, k);
    if k == 0 {
        lemma_coords_idx((x + 1) % 8, y, z);
    } else if k == 1 {
        lemma_coords_idx((x + 7) % 8, y, z);
    } else if k == 2 {
        lemma_coords_idx(x, (y + 1) % 8, z);
    } else if k == 3 {
        lemma_coords_idx(x, (y + 7) % 8, z);
    } else if k == 4 {
        lemma_coords_idx(x, y, (z + 1) % 8);
    } else {
        lemma_coords_idx(x, y, (z + 7) % 8);
    }
    let v = x + 3 * y + 5 * z;
    let w = cx(j) + 3 * cy(j) + 5 * cz(j);
    // w - v is one of +-1, +-7, +-3, +-21, +-5, +-35: never a multiple of 8.
    vstd::arithmetic::div_mod::lemma_fundamental_div_mod(v, 8);
    vstd::arithmetic::div_mod::lemma_fundamental_div_mod(w, 8);
    assert(w - v == 1 || w - v == -7 || w - v == -1 || w - v == 7 || w - v == 3 || w - v == -21
        || w - v == -3 || w - v == 21 || w - v == 5 || w - v == -35 || w - v == -5 || w - v == 35);
}

/// Every cell lies in one of the shells 0, 1, 2, 3.
pub proof fn lemma_radius_bound(i: int)
    requires
        in_cube(i),
    ensures
        0 <= radius_spec(i) <= 3,
{
    lemma_idx_coords(i);
}

/// `v & 1` is the parity of `v`.
proof fn lemma_and_one(v: usize)
    ensures
        v & 1 == v % 2,
{
    assert(v & 1 == v % 2) by (bit_vector);
}

/// `v & 7` is `v` modulo 8.
pub proof fn lemma_and_seven(v: usize)
    ensures
        v & 7 == v % 8,
{
    assert(v & 7 == v % 8) by (bit_vector);
}

// ---------------------------------------------------------------------------
// Executable geometry
// ---------------------------------------------------------------------------

/// Linear index of the cell at (x, y, z).
pub fn idx(x: usize, y: usize, z: usize) -> (r: usize)
    requires
        x + y * 8 + z * 64 <= usize::MAX,
    ensures
        r == idx_spec(x as int, y as int, z as int),
{
    x + y * N + z * N * N
}

/// Coordinates (x, y, z) of cell `i`.
pub fn coords(i: usize) -> (r: (usize, usize, usize))
    ensures
        r.0 == cx(i as int),
        r.1 == cy(i as int),
        r.2 == cz(i as int),
{
    let x: usize = i % N;
    let y: usize = (i / N) % N;
    let z: usize = i / (N * N);
    (x, y, z)
}

/// Per-axis distance from the centre pair (3, 4).
fn axis_shell(v: usize) -> (r: usize)
    ensures
        r == axis_shell_spec(v as int),
{
    let a: usize = if v >= 3 { v - 3 } else { 3 - v };
    let b: usize = if v >= 4 { v - 4 } else { 4 - v };
    if a <= b { a } else { b }
}

/// Concentric-cube shell index: 0 is the innermost 2x2x2 central cube, up to
/// OUTER_RADIUS for the outermost face shell.
pub fn radius(i: usize) -> (r: usize)
    ensures
        r == radius_spec(i as int),
{
    let (x, y, z) = coords(i);
    let ax: usize = axis_shell(x);
    let ay: usize = axis_shell(y);
    let az: usize = axis_shell(z);
    let m: usize = if ax >= ay { ax } else { ay };
    if m >= az { m } else { az }
}

/// Checkerboard colour, 0 or 1. Face-adjacent cells always differ in colour.
pub fn color(i: usize) -> (r: u8)
    ensures
        r == color_spec(i as int),
        r < 2,
{
    let (x, y, z) = coords(i);
    let s: usize = x + y + z;
    proof {
        lemma_and_one(s);
    }
    (s & 1) as u8
}

/// Whether cell `i` belongs to the sponge rate (the outermost shell).
pub fn is_rate(i: usize) -> (r: bool)
    ensures
        r == is_rate_spec(i as int),
{
    radius(i) == OUTER_RADIUS
}

/// The six toroidal face-neighbours of a cell. Wrapping (rather than clamping at
/// the cube's edge) gives every cell an identical neighbourhood shape.
pub fn neighbors6(i: usize) -> (r: [usize; 6])
    ensures
        forall|k: int| 0 <= k < 6 ==> r[k] == neighbor_spec(i as int, k),
{
    proof {
        vstd::arithmetic::div_mod::lemma_fundamental_div_mod(i as int, 64);
        vstd::arithmetic::div_mod::lemma_fundamental_div_mod(i as int, 8);
    }
    let (x, y, z) = coords(i);
    [
        idx((x + 1) % N, y, z),
        idx((x + N - 1) % N, y, z),
        idx(x, (y + 1) % N, z),
        idx(x, (y + N - 1) % N, z),
        idx(x, y, (z + 1) % N),
        idx(x, y, (z + N - 1) % N),
    ]
}

/// Rotation offset for a cell, 0..=7. Face-adjacent cells get different offsets,
/// so the rho step couples the bit-planes.
pub fn rho_offset(i: usize) -> (r: u32)
    ensures
        r == rho_offset_spec(i as int),
        r < 8,
{
    proof {
        vstd::arithmetic::div_mod::lemma_fundamental_div_mod(i as int, 64);
    }
    let (x, y, z) = coords(i);
    let v: usize = x + 3 * y + 5 * z;
    proof {
        lemma_and_seven(v);
    }
    (v & 7) as u32
}

/// Forward shear on the coordinates modulo 8. Invertible by construction: the
/// system is triangular, so it unwinds in reverse order (see pi_unmap).
pub fn pi_map(i: usize) -> (r: usize)
    ensures
        r == pi_map_spec(i as int),
{
    proof {
        vstd::arithmetic::div_mod::lemma_fundamental_div_mod(i as int, 64);
    }
    let (x, y, z) = coords(i);
    let x1: usize = (x + y) & 7;
    let y1: usize = (y + z) & 7;
    proof {
        lemma_and_seven((x + y) as usize);
        lemma_and_seven((y + z) as usize);
    }
    let z1: usize = (z + x1) & 7;
    proof {
        lemma_and_seven((z + x1) as usize);
    }
    idx(x1, y1, z1)
}

/// Inverse shear, unwound in reverse: z from z1 and x1, then y from y1 and z,
/// then x from x1 and y.
pub fn pi_unmap(i: usize) -> (r: usize)
    ensures
        r == pi_unmap_spec(i as int),
{
    proof {
        vstd::arithmetic::div_mod::lemma_fundamental_div_mod(i as int, 64);
    }
    let (x1, y1, z1) = coords(i);
    let z: usize = (z1 + 8 - x1) & 7;
    proof {
        lemma_and_seven((z1 + 8 - x1) as usize);
    }
    let y: usize = (y1 + 8 - z) & 7;
    proof {
        lemma_and_seven((y1 + 8 - z) as usize);
    }
    let x: usize = (x1 + 8 - y) & 7;
    proof {
        lemma_and_seven((x1 + 8 - y) as usize);
    }
    idx(x, y, z)
}

/// The rate cells (the outermost shell), in increasing order.
pub fn rate_cells() -> (r: Vec<usize>)
    ensures
        r@ == rate_seq(),
{
    let mut v: Vec<usize> = Vec::new();
    let mut i: usize = 0;
    while i < CELLS
        invariant
            i <= 512,
            v@ == rate_prefix(i as int),
        decreases 512 - i,
    {
        proof {
            reveal(Seq::filter);
            assert(cells_upto(i + 1).drop_last() =~= cells_upto(i as int));
        }
        if is_rate(i) {
            v.push(i);
        }
        i = i + 1;
    }
    v
}

/// The capacity cells (every shell but the outermost), in increasing order.
pub fn capacity_cells() -> (r: Vec<usize>)
    ensures
        r@ == capacity_seq(),
{
    let mut v: Vec<usize> = Vec::new();
    let mut i: usize = 0;
    while i < CELLS
        invariant
            i <= 512,
            v@ == capacity_prefix(i as int),
        decreases 512 - i,
    {
        proof {
            reveal(Seq::filter);
            assert(cells_upto(i + 1).drop_last() =~= cells_upto(i as int));
        }
        if !is_rate(i) {
            v.push(i);
        }
        i = i + 1;
    }
    v
}

/// The cells of colour `c`, in increasing order.
fn cells_of_color(c: u8) -> (r: Vec<usize>)
    ensures
        r@ == color_prefix(512, c as int),
{
    let mut v: Vec<usize> = Vec::new();
    let mut i: usize = 0;
    while i < CELLS
        invariant
            i <= 512,
            v@ == color_prefix(i as int, c as int),
        decreases 512 - i,
    {
        proof {
            reveal(Seq::filter);
            assert(cells_upto(i + 1).drop_last() =~= cells_upto(i as int));
        }
        if color(i) == c {
            v.push(i);
        }
        i = i + 1;
    }
    v
}

/// Precomputed per-cell geometry: each entry is the eager form of the function
/// that computes it.
pub struct Tables {
    pub nbrs: Vec<[usize; 6]>,
    pub rho_off: Vec<u32>,
    pub pi_fwd: Vec<usize>,
    pub a_cells: Vec<usize>,
    pub b_cells: Vec<usize>,
}

impl Tables {
    /// Every table holds exactly what its function computes, for every cell.
    pub open spec fn wf(&self) -> bool {
        &&& self.nbrs@.len() == 512
        &&& forall|i: int, k: int|
            0 <= i < 512 && 0 <= k < 6 ==> #[trigger] self.nbrs@[i][k] == neighbor_spec(i, k)
        &&& self.rho_off@.len() == 512
        &&& forall|i: int| 0 <= i < 512 ==> #[trigger] self.rho_off@[i] == rho_offset_spec(i)
        &&& self.pi_fwd@.len() == 512
        &&& forall|i: int| 0 <= i < 512 ==> #[trigger] self.pi_fwd@[i] == pi_map_spec(i)
        &&& self.a_cells@ == color_prefix(512, 0)
        &&& self.b_cells@ == color_prefix(512, 1)
    }
}

fn build_tables() -> (t: Tables)
    ensures
        t.wf(),
{
    let mut nbrs: Vec<[usize; 6]> = Vec::new();
    let mut rho_off: Vec<u32> = Vec::new();
    let mut pi_fwd: Vec<usize> = Vec::new();
    let mut i: usize = 0;
    while i < CELLS
        invariant
            i <= 512,
            nbrs@.len() == i,
            rho_off@.len() == i,
            pi_fwd@.len() == i,
            forall|j: int, k: int|
                0 <= j < i && 0 <= k < 6 ==> #[trigger] nbrs@[j][k] == neighbor_spec(j, k),
            forall|j: int| 0 <= j < i ==> #[trigger] rho_off@[j] == rho_offset_spec(j),
            forall|j: int| 0 <= j < i ==> #[trigger] pi_fwd@[j] == pi_map_spec(j),
        decreases 512 - i,
    {
        nbrs.push(neighbors6(i));
        rho_off.push(rho_offset(i));
        pi_fwd.push(pi_map(i));
        i = i + 1;
    }
    let a_cells = cells_of_color(0);
    let b_cells = cells_of_color(1);
    Tables { nbrs, rho_off, pi_fwd, a_cells, b_cells }
}

/// The precomputed geometry tables.
pub fn tables() -> (t: Tables)
    ensures
        t.wf(),
        t.a_cells@.len() == 256,
        t.b_cells@.len() == 256,
{
    proof {
        lemma_shell_and_color_sizes();
    }
    build_tables()
}

} // verus!
