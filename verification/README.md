# citygen

A procedural city generator whose integer logic is a library verified with Verus.

`src/` is the library; every function in it carries a contract that Verus proves:

- `array2d`: row-major grids (`Array2d`, `Slice2d`, `SliceMut2d`, `SharedArray2d`) with row and
  cell access and per-cell mapping (`kernel`).
- `utils`: a map, a set and a list with the interface of the program's shared containers.
- `buildings`: the labelled grid (`Voronoi`), clearing region borders, bounding boxes,
  nearest-point relabelling, finding the cells where three or more regions meet, and
  grouping cells by region.
- `vertices`: merging vertices by equal borders and by closeness, and the whole vertex
  calculation of a grid.
- `subdivide`: splitting regions by lattices of points, recursively, and generating a whole
  grid and city collection; where the lattice points fall is given by the caller.
- `cleanup`: the integer steps of tidying regions: merging nearby vertices, finding vertices
  next to a road, and telling degenerate outlines.
- `pool`: a pool of slots handed out through generation-checked pointers, with saving and
  restoring of its slots.
- `logistics`: states of named quantities, constraints on them, one step of the search for a
  state that meets them all, and a hill-climbing solver.
- `prof`: per-frame time accounting.
- `name_gen`, `generator`: byte-string matching and random selection.
- `roads`: tracing roads cell by cell over a field, with the steering step given by the
  caller.
- `water`: the sides water can come from and the kinds of water to generate.

Laws that relate several operations stand in `src/` as public proof functions (see
`pool.rs`).

`tests/` runs the library on concrete values. `app/` is the program around it: the pools
held per type for the whole program and their saving and loading, timing and profiling
output, the floating-point steps of building a city (lattice placement, ordering vertices by
angle, tidying regions, noise, road steering), and the threads that share the search for a
first valid state, each running the library's search step.
