# sage

A small entity-component-system engine whose core is verified with Verus.

## Layout

- `src/` — the verified library.
  - `entities/` — entity identifiers and their allocator, component storage grouped by
    archetype, and the collection of entities with spawning, insertion and despawning.
  - `app/` — global resources, deferred commands, events and their handlers, and the
    application that holds them with its schedules.
  - `schedule/` — systems with ordering constraints, and the computation of a run order that
    respects them.
  - `system/` — query filters and the archetypes and entities that a query matches.
  - `runner/` — the decisions of the windowing runner: which windows exist, when their
    surfaces are configured, and when the event loop exits.
  - `text/` — growable glyph atlases with least-recently-used eviction, and glyph keys.
  - `ui.rs` — the drawing order of UI rectangles.
  - `collections.rs` — the hash maps of `hashbrown` and the topological sort of `petgraph`,
    behind contracts.
- `app/` — what talks to the GPU (`wgpu`) and to the windowing system (`winit`), the
  floating-point colors, raw pointers, and the concrete application built on the library.
- `tests/` — tests of the library.
