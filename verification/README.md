# Verdant

The deterministic core of a 2D game engine, written in Verus: every public
function of the library carries a contract, and Verus proves the code meets
it.

## Layout

- `src/` — the verified library (`verdant`).
  - Numbers and geometry: `fixed` (Q32.32 fixed point), `vec2`, `geometry`,
    `easing`, `noise`, `rng` (seeded PCG streams), `hasher` (FNV-1a state
    hashes).
  - Entities and components: `entity` (generational handles and their
    allocator), `component` (the registry and ticks), `sparse` (sparse-set
    storage), `archetype` (signatures, rows and the cached transitions
    between them), `world` (the world's structure: which row holds each
    live entity, kept in step by every operation), `sparse_filter` (the sparse
    filters of a query), `schedule` (system
    ordering, stages and ambiguity detection).
  - Physics: `collision`, `layers`, `grid`, `solver` (`move_and_slide`),
    `broadphase` (a spatial hash), `physics` (the physics stage's state and
    decisions).
  - Input: `action_table`, `actions`, `input` (action maps, per-tick
    snapshots, buffering, leniency), `touch` (fingers, the thumbstick and
    on-screen buttons).
  - Audio bookkeeping: `audio` (waveform and bus names, voice slots and
    handles, output errors) and `music` (scales and the note plan of a
    generated piece).
  - Android packaging: `android` (the project's files, its validation and
    the build's arguments), `cli` (the packaging tool's command line),
    `templates`, `text`.
- `tests/` — tests of the library, run against the compiled crate.
- `app/` — what the verifier does not take: the typed component storage and
  queries (type erasure), the schedule's closures, serde copies of the data
  types, floating-point audio and its output stream, and the Android tool's
  file and process work. It takes the layout, ordering, physics and packaging decisions from the
  library; what it decides itself is typed storage access, calling system
  closures and their run conditions, and floating-point sound.

## Checking

`verus` verifies `src/`; `cargo test` runs `tests/`.
