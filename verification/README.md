# atb

The verified core of a grid-arena viewer: agents of several teams collect gold
and fight on a tile map.

- `src/` — the library, proved with Verus: tiles and the grid (safe-zone and
  base placement), config validation, item spawner configs and initial item
  cells, scoreboard and end-screen bookkeeping, HUD and load-menu state, and
  the scripted controllers (random, behaviour tree, planner facts).
- `tests/` — tests of the library on concrete values.
- `app/` — a headless program around it: reads and validates a RON world
  config, builds the grid, drops the initial items, prints the map and a
  start-of-match team summary; also
  the text formatting and the float arithmetic the viewer needs.
