# arena_gen

Grid generators for robot-arena maps, with their logic verified by Verus.

- `src/` — the verified library:
  - `connectivity` — flood fill deciding whether the open cells of a flat obstacle map form one 4-connected piece;
  - `grid`, `counting` — shared definitions (cells, neighbours, walks, counts);
  - `regions` — labelling of the open regions of a wall grid;
  - `adjacency` — which regions face each other across a short run of walls;
  - `pockets` — filling randomly hit enclosed regions and thickening them;
  - `open_space` — keeping only the largest open region, so the open space left is connected;
  - `cave` — cellular-automaton smoothing;
  - `wfc`, `tiles` — wave function collapse over edge-matched tiles and their expansion into walls;
  - `bsp` — binary space partitioning into rooms joined by corridors;
  - `rng` — the two calls into `rand` the library makes.
- `app/` — the programs: drawing the polygon arena and generating the picture gallery with `plotters`, plus the steps that work on real numbers (random fill ratios, Perlin noise, weighted tile choice, room ratios, polygon geometry).
- `tests/` — tests of the library.
