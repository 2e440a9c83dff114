# representation-theory

Representation theory of finite groups: groups acting on vector spaces.

The crate has two parts.

- `src/` is a library verified with Verus. It holds everything that computes with integers:
  - `group` — finite groups given by a Cayley table (with the built-in Z/nZ, S₃ and the Klein
    four-group), identities, inverses and conjugacy classes, with proofs that the built-in
    tables are groups and that the conjugacy classes partition a group;
  - `young` — Young diagrams, conjugation, partitions of n, hook lengths and the hook-length
    dimension, standard Young tableaux (all of them, each once);
  - `murnaghan_nakayama` — characters of the symmetric groups by the Murnaghan–Nakayama rule,
    with proofs of the trivial and sign characters, and a checked form that answers `None`
    where a step of the recursion would leave `i64`;
  - `tableau_count` — the proof that the character at the identity counts the standard Young
    tableaux;
  - `decomposition`, `induced`, `tensor`, `agent_symmetry` — the integer side of
    decompositions (multiplicities times dimensions, block order), of induced representations
    (which conjugates fall in a subgroup, where each block of an induced matrix comes from), of
    symmetric powers (binomial coefficients) and of the symmetry analysis of multi-agent state
    spaces (the natural action of a permutation group, read from its cycle-notation labels, on
    the agent indices).
- `app/` is ordinary Rust on top of the library: complex matrix representations, characters and
  character tables, Schur's lemma, isotypic projections, Clebsch–Gordan coefficients and
  symmetrizers, all of which compute with floating point, and serde forms of the library's
  types.

`tests/` exercises the library.
