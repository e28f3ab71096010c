# gravity_scene

Game-scene logic of a gravity-driven 3D arena shooter, written in Verus: the
executable code carries `requires`/`ensures` contracts and the library is
proved against them.

## Layout

- `src/` — the verified library.
  - `engine.rs`, `graphics.rs` — entity identifiers, primitive shapes and colours.
  - `scene/bullet/` — fractal split patterns and depth limits, the bullet
    slot pool (active / free / handed-out slots, growth), and the queue that
    schedules fractal splits.
  - `scene/enemy/behaviors/` — blob grids (adjacency, flood fill from the
    core, growth phases), shield vulnerability, snake chains, splitter
    generations.
  - `scene/enemy/manager/` — the blob passes: connectivity marking, growth
    planning (deterministic planners that take the random roll and pick,
    and random drivers around them), factory upgrades and applying a
    growth tick, with a ranking library for the "random pick among the
    best share" choices; the cell a plan grows into; and the death pass
    (die events in order, dead segments and nodes unlinked from their
    heads and cores, children of splitters and shields, removal of the
    dead).
  - `scene/large_body*`, `scene/weapon.rs`, `scene/explosion.rs` — body
    types and their palettes, the life cycle of a body (alive, death
    sequence, ready for removal), remnants, the removal of dead bodies and
    registration of new ones with the gravity list (each body's index keeps
    naming its own entry), the
    body spawner's population rule, weapon selection and cycling.
  - `ui/` — text styles and the glyph atlas shelf packer.
  - `random.rs` — the one trusted item: a uniform index from `rand`.
- `tests/` — executable tests of the library.
- `app/` — the float and rendering side: world-space vectors, colour
  channels as floats, fontdue glyph rasterisation and text vertex layout,
  fractal configurations with float tuning, explosion falloff and damage,
  large-body mass/size tables and life-cycle clocks, enemy positions and
  colours around the death pass.

## Checking

Verus verifies `src/`; the tests link the library with the real `rand`
crate.
