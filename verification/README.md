# cube3d_sponge

A research permutation over an 8x8x8 cube of bytes (512 cells, 4096 bits), a
duplex sponge and XOR keystream cipher built on it, and the computations behind
its cryptanalysis harnesses. It exists to be measured and attacked; it is not an
audited cipher and has no authentication tag.

Every function in `src/` is verified with Verus against a mathematical model of
what it computes.

chi3 combines its six neighbour taps in three pairs, and the pairing turns with
`round % 3`: (+x,-x), (+y,-y), (+z,-z) in rounds 0, 3, 6, 9; (-x,+y), (-y,+z),
(-z,+x) in rounds 1, 4, 7, 10; (+x,-y), (+y,-z), (+z,-x) in rounds 2, 5, 8, 11.
Every output of the permutation, the sponge and the keystream depends on this
rotation, and so does the degree propagation, which follows the same pairs.

## Layout

- `src/geometry.rs`: cell addressing, concentric shells (rate and capacity), the
  checkerboard colouring, toroidal neighbours, rho offsets, the pi shear.
- `src/permutation.rs`: chi3, round constants, the Feistel, rho and pi steps,
  rounds, the reduced-round and full permutations and their inverses, with the
  proofs that each step, each round and the permutation are bijections.
- `src/sponge.rs`: the sponge (absorb, squeeze), the keystream, encryption and
  decryption, with the proof that decryption undoes encryption.
- `src/rng.rs`: the xorshift64 generator the harnesses draw from.
- `src/cube_attack.rs`: the weakened key || nonce construction, influence cones,
  cube sums and superpoly tests.
- `src/cube_search.rs`: the attack's two searches: target selection over the
  dependency cones, and the cube search that collects linear equations in the key.
- `src/gf2.rs`: Gaussian elimination over GF(2) into reduced row echelon form.
- `src/key_recovery.rs`: reading pinned key bits out of the reduced system and
  checking them against the key.
- `src/algebraic_degree.rs`: algebraic degree over GF(2) of functions of the
  nonce, defined through derivatives, with the XOR and AND rules and the
  vanishing of cube sums above the degree.
- `src/degree.rs`: numeric-mapping degree propagation, with the proofs that its
  bounds are sound: a bound of 0 means the bit ignores the variables, and every
  bound below the cap is an upper bound on the bit's algebraic degree.
- `src/zero_sum.rs`: the degree profile of the output bits, the bits with a
  proven zero-sum and the measurements that check the bounds, with the proof
  that an output bit whose bound is below a cube's dimension sums to zero over
  that cube for every key and base nonce.
- `src/stats.rs`: Hamming distances, bit-plane counts and the distinguishers'
  sample counts.
- `src/diffusion.rs`: the avalanche tallies, the superposition residuals and
  bit counts.
- `app/`: the command-line harnesses (`attack`, `avalanche`, `degree`,
  `distinguish`, `linearity`, `slide`). They seed the generator from the clock,
  call the library for every count, search and measurement, and turn the counts
  into percentages, means and z-scores for the printed reports. The
  distinguisher's z-score selection (floating point) and its random-mask draw
  (a rejection loop with no bound on its length) stay there.
