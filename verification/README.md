# rust_doom

The engine and game logic of a Doom level viewer, written in Verus.

- `src/` is the verified library: the entity tree (lazy removal of whole subtrees, the tree
  dump), keyboard and mouse input with gestures, the level's triggers and its entity layout,
  the index lists of the level's meshes, the collision tree of the world, the WAD level
  selection, the heads-up display, the system context, and the pixel blending of text.
  `idcontain` and `vec_map` are used through trusted wrappers in `slab.rs` and `maps.rs`.
- `app/` is ordinary Rust around the library: floating-point geometry and physics (spheres,
  lines, the player, the world's sweep queries, transforms and projections), wall-clock
  timing, font rasterisation, and the loop that drives the systems.
- `tests/` runs the library on concrete values.
