//! cube3d_sponge: a research permutation over an 8x8x8 cube of bytes, a duplex
//! sponge built on it, and the computations of its cryptanalysis harnesses.
//! It is a research object, not an audited cipher.
pub mod geometry;
pub mod permutation;
pub mod sponge;
pub mod degree;
pub mod algebraic_degree;
pub mod zero_sum;
pub mod rng;
pub mod cube_attack;
pub mod cube_search;
pub mod gf2;
pub mod key_recovery;
pub mod stats;
pub mod diffusion;

pub use geometry::{
    capacity_cells, color, coords, idx, is_rate, neighbors6, pi_map, pi_unmap, radius, rate_cells,
    rho_offset, tables, Cube, Tables, CELLS, N, OUTER_RADIUS, ROUNDS,
};
pub use permutation::{
    chi3, feistel_inverse, feistel_variant, permute, permute_inverse, permute_inverse_r, permute_r,
    pi, pi_inv, rho, rho_inv, round_constant, round_forward, round_forward_variant, round_inverse,
};
pub use sponge::{decrypt, encrypt, keystream, Sponge};
