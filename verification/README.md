# voxel_world

The logic of a small voxel game, verified with Verus.

- `src/voxel.rs`: voxels, faces and textures; face culling (`should_draw_face`,
  `visible_faces`) and the vertex and triangle layout of a voxel's mesh
  (`voxel_mesh`), with laws on culling and on the mesh's size.
- `src/chunk.rs`: chunk positions, the square of chunks kept around the player
  (`chunk_grid`), the voxels and mesh parts of a chunk, and the set of chunks
  that exist (`ExistingChunks`) with the decisions of which chunks to generate
  and which to drop.
- `src/structures.rs`: which structure is placed on which voxel of a chunk.
- `src/spawn_area.rs`: the fixed square of chunks spawned around the player
  and the test of which chunk holds the player.
- `src/controls.rs`: movement directions from the held keys and the cursor
  lock toggled by Escape.
- `app/`: the bevy game around the library: rendering, noise-based terrain
  shaping, threads, input and the debug overlay.
