# robots_game

A terminal simulation of robots on a generated terrain: scouts wander and
discover crystal and energy deposits, collectors are sent to them, extract
them one unit per tick and carry them back to the base.

The library in `src/` is written in Verus and verified:

- `world` — terrain bands, wrapping cell lookup, the base square, clamped
  unit steps, the map with its safe zone around the base.
- `collections` — an insertion-ordered position set and a position-keyed
  resource map.
- `pathfinding` — breadth-first search, proved to return the shortest route
  whose moves come first in the order up, down, left, right, and an empty
  path exactly when the target is the start or cannot be reached.
- `robot` — robots and how a wandering robot picks its next cell.
- `simulation` — the shared state, its invariant, and one tick of each kind of
  robot; crystals and energy are conserved by every tick.
- `assignment` — handing discovered resources to idle collectors.
- `setup` — base, resource stocks and robots of a new game.
- `render` — the glyphs drawn for cells, base and robots.
- `laws` — properties across operations: collected cells stay empty,
  discoveries match the terrain, robots stay on playable cells, no two
  collectors chase the same resource.
- `random` — the draws taken from `rand`.

`app/` holds the terminal front end (ratatui, crossterm), the robot threads,
and the Perlin noise sampling that feeds the terrain bands.
