# crucible

A grid-based engine for procedural magic: the world is a grid of cells,
each with a material and physical state, and abilities emerge from the
physics rules that act on the cells (water heated past its boiling point
becomes steam and raises the pressure around it, and so on).

## Layout

- `src/` is the verified library (Verus):
  - `material.rs`: the materials and their classification (gas, liquid,
    inert).
  - `grid.rs`: the row-major cell grid, coordinate arithmetic, bounds
    tests, the four-neighbour stencil, and rectangle and circle-border
    fills.
  - `priority.rs`: the ordering of `f32` priorities through their bit
    patterns, as `OrderedFloat<f32>` orders them.
  - `scheduler.rs`: the queue of active cells, drained highest priority
    first.
  - `scenario.rs`: the dome-test layout and scheduler seeding.
  - `brush.rs`: sandbox brushes and the cells one dab of a brush paints
    during a stroke.
  - `render.rs`: the mana tint and framebuffer rasterisation.
- `app/` is the program around it: the floating-point physics (cell
  state, rules, the tick, entities), the headless run and the `egui`
  sandbox (`crucible sandbox`).
- `tests/` exercises the library, comparing against the floating-point
  formulas, `BinaryHeap` and `OrderedFloat` where the library stands in
  for them.
