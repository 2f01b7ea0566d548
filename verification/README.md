# psychedelic

A screen saver that breeds kaleidoscope patterns. Each pattern is a genome: a
random expression tree describing a scalar field, plus drifting parameters,
symmetry, warps and palettes. Scenes crossfade into mutated or crossed
successors, and each genome compiles to a Metal fragment shader.

## Layout

- `src/` is the verified library (Verus):
  - `genome.rs`: the expression tree, its preorder addressing
    (`node_count`, `subtree_at_mut`), random growth of trees, waves and
    fields, the tree surgery of mutation and crossover, layer counts and
    distinct symmetries.
  - `msl.rs`: the shader text of a tree (`emit`), with proofs of what that
    text contains: balanced parentheses, and parameter and mover indices
    inside the arrays the shader declares.
  - `palette.rs`: the color ramp and its RGBA texture bytes.
  - `render.rs`: BGRA to RGB readback bytes.
  - `stills.rs`: reading counts off the command line and naming frames.
  - `motion.rs`, `text.rs`, `random.rs`: mover edges, decimal text and
    where pieces of text occur, and the
    `rand` draws the generators make.
- `app/` is ordinary Rust around it: the floating point field and its
  evaluation, the scene engine, Metal rendering, the C interface and the
  binaries' entry points.
- `tests/` exercises the library.
