//! The logic of a voxel world: which faces of a voxel are drawn and how a
//! voxel's mesh is laid out, the chunks kept around the player and the
//! bookkeeping of the chunks that exist, the layout of a chunk's voxels, the
//! placement of structures on them, and the player's controls.

pub mod chunk;
pub mod controls;
pub mod spawn_area;
pub mod structures;
pub mod voxel;
