# voxel_plugin

A voxel terrain core: an adaptive octree of level-of-detail chunks, its
refinement rules (distance thresholds, budgets, neighbour gradation), the
transition groups that swap a parent for its eight children and back, the
stages that compose and present meshes, and the integer parts of surface-nets
meshing (edge table, corner masks, which cells get a vertex, the quads joining
them, and seam detection).

Layout:

- `src/` — the library, written and proved with Verus. Every public function
  states its result in `ensures`; the properties that relate several
  functions (round trips of coordinates and octree nodes, merge undoing a
  subdivide, conservation of meshes through composition, and so on) stand as
  public proof functions beside the code they are about.
- `tests/` — ordinary Rust tests against the compiled library.
- `app/` — the parts that need floating point, threads or the outside math and
  scheduling crates: samplers, vertex placement and normals, the rayon-based
  pipelines, and world-space configuration. They call the library for every
  decision it can make.

Volume samplers are supplied by the host through `VolumeSampler`; the crate
ships simple analytic ones (plane, sphere, box, metaballs) in `app/`. Samplers
built on outside noise libraries (FastNoise2 bindings, SIMD noise) are not
part of it.
