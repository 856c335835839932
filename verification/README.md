# predator_vs_prey

An evolutionary predator-prey simulation. Every animal is steered by a small
neural network whose topology grows by mutation; predators hunt, preys flee,
and both reproduce under population caps in a toroidal world.

## Layout

- `src/` — the verified library (Verus):
  - `brain`, `mutation`, `cycles`, `peeling`, `acyclic`: the growing network,
    its structural mutations, the two cycle checks (Kahn's algorithm and
    peeling) with the proof that they agree, and the proof that every
    mutation (adding a neuron, splitting a connection, adding a checked
    connection, changing a weight) keeps the hidden layer free of cycles.
  - `spatial_hash`: the toroidal grid and its 3x3 neighbourhood query.
  - `population`, `settings`: reproduction and population rules, constants.
  - `data`: recorded frames, the byte layout of a recording, the frame
    index and the playback cursor.
  - `cli`, `layered`, `workload`: command-line helpers, layer shapes of a
    layered network, and the random workloads of the cycle-check comparison.
- `tests/` — tests of the library.
- `app/` — the program: real-valued movement and sensing, the forward pass,
  rendering with macroquad, recording and playback files, and the tools
  without a window (`--headless --params <json>`, `--seed-grid`,
  `--param-search`, `--longest-run`, `--bench-cycles`, `--record`).

Weights, positions and angles are carried through the library as IEEE-754
`binary32` bit patterns; arithmetic on them happens in `app/`.
