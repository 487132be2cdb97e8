use voxel_world::chunk::{
    align_to_chunk, chunk_grid, chunk_mesh, chunk_voxels, contains_chunk, ChunkPosition,
    ColumnSample, ExistingChunks, CHUNK_GRID_LEN, CHUNK_LEN,
};
use voxel_world::voxel::{Face, Texture, VoxelData, VoxelPos};

#[test]
fn align_to_chunk_values() {
    // the nearest multiple of 32, half-way going up
    assert_eq!(align_to_chunk(0), 0);
    assert_eq!(align_to_chunk(15), 0);
    assert_eq!(align_to_chunk(16), 32);
    assert_eq!(align_to_chunk(20), 32);
    assert_eq!(align_to_chunk(31), 32);
    assert_eq!(align_to_chunk(32), 32);
    assert_eq!(align_to_chunk(47), 32);
    assert_eq!(align_to_chunk(48), 64);
    assert_eq!(align_to_chunk(-1), 0);
    assert_eq!(align_to_chunk(-16), 0);
    assert_eq!(align_to_chunk(-17), -32);
    assert_eq!(align_to_chunk(-33), -32);
    assert_eq!(align_to_chunk(-48), -32);
    assert_eq!(align_to_chunk(-49), -64);
}

#[test]
fn align_to_chunk_extremes() {
    assert_eq!(align_to_chunk(i32::MIN), i32::MIN);
    assert_eq!(align_to_chunk(i32::MAX - 16), i32::MAX - 31);
}

#[test]
fn chunk_position_new() {
    assert_eq!(ChunkPosition::new(3, -4), ChunkPosition { x: 3, z: -4 });
    assert_eq!(ChunkPosition::default(), ChunkPosition { x: 0, z: 0 });
}

#[test]
fn chunk_grid_around_origin() {
    let grid = chunk_grid(5, 40);
    assert_eq!(grid.len(), CHUNK_GRID_LEN);
    // first entry: 8 chunks behind on both axes, centre chunk is (0, 32)
    assert_eq!(grid[0], ChunkPosition::new(-256, 32 - 256));
    assert_eq!(grid[1], ChunkPosition::new(-256, 32 - 224));
    assert_eq!(grid[16], ChunkPosition::new(-224, 32 - 256));
    assert_eq!(grid[255], ChunkPosition::new(224, 32 + 224));
    // the player's own chunk is at (8, 8)
    assert_eq!(grid[8 * 16 + 8], ChunkPosition::new(0, 32));
}

#[test]
fn chunk_grid_has_distinct_aligned_chunks() {
    let grid = chunk_grid(-70, 1000);
    for (i, a) in grid.iter().enumerate() {
        assert_eq!(a.x % 32, 0);
        assert_eq!(a.z % 32, 0);
        for b in grid.iter().skip(i + 1) {
            assert_ne!(a, b);
        }
    }
    assert!(grid.contains(&ChunkPosition::new(align_to_chunk(-70), align_to_chunk(1000))));
}

fn samples() -> Vec<ColumnSample> {
    (0..CHUNK_LEN)
        .map(|k| ColumnSample { height: (k % 7) as i32 - 3, dirt: k % 3 == 0 })
        .collect()
}

#[test]
fn chunk_voxels_layout() {
    let voxels = chunk_voxels(&samples());
    assert_eq!(voxels.len(), CHUNK_LEN);
    // column (x, z) = (1, 2) is entry 34
    assert_eq!(voxels[34], VoxelData::new(VoxelPos::new(1, 34 % 7 - 3, 2), Texture::Grass));
    assert_eq!(voxels[0], VoxelData::new(VoxelPos::new(0, -3, 0), Texture::Dirt));
    assert_eq!(voxels[1023], VoxelData::new(VoxelPos::new(31, 1023 % 7 - 3, 31), Texture::Dirt));
}

#[test]
fn chunk_voxels_positions_distinct() {
    let voxels = chunk_voxels(&samples());
    let mut positions: Vec<(i32, i32, i32)> =
        voxels.iter().map(|v| (v.position.x, v.position.y, v.position.z)).collect();
    positions.sort();
    positions.dedup();
    assert_eq!(positions.len(), CHUNK_LEN);
}

#[test]
fn chunk_mesh_of_flat_pair() {
    let voxels = vec![
        VoxelData::new(VoxelPos::new(0, 0, 0), Texture::Grass),
        VoxelData::new(VoxelPos::new(0, 0, 1), Texture::Dirt),
    ];
    let parts = chunk_mesh(&voxels);
    assert_eq!(parts.len(), 2);
    assert_eq!(parts[0].position, VoxelPos::new(0, 0, 0));
    assert_eq!(parts[1].position, VoxelPos::new(0, 0, 1));
    assert_eq!(parts[1].mesh.texture, Texture::Dirt);
    // voxel 0 loses its front face, voxel 1 its back face; both lose the bottom
    assert_eq!(parts[0].mesh.vertices, vec![4, 5, 6, 7, 8, 9, 10, 11, 12, 13, 14, 15, 16, 17, 18, 19]);
    assert_eq!(parts[1].mesh.vertices, vec![0, 1, 2, 3, 8, 9, 10, 11, 12, 13, 14, 15, 16, 17, 18, 19]);
    assert_eq!(parts[0].mesh.indices.len(), 4 * 6);
    let _ = Face::all();
}

#[test]
fn existing_chunks_insert_remove() {
    let mut e = ExistingChunks::new();
    assert_eq!(e.len(), 0);
    assert!(e.insert(ChunkPosition::new(0, 0)));
    assert!(!e.insert(ChunkPosition::new(0, 0)));
    assert!(e.insert(ChunkPosition::new(32, 0)));
    assert_eq!(e.len(), 2);
    assert!(e.contains(&ChunkPosition::new(32, 0)));
    assert!(e.remove(&ChunkPosition::new(0, 0)));
    assert!(!e.remove(&ChunkPosition::new(0, 0)));
    assert!(!e.contains(&ChunkPosition::new(0, 0)));
    assert_eq!(e.len(), 1);
}

#[test]
fn plan_spawns_skips_existing_and_is_idempotent() {
    let mut e = ExistingChunks::new();
    e.insert(ChunkPosition::new(0, 0));
    let grid = vec![ChunkPosition::new(-32, 0), ChunkPosition::new(0, 0), ChunkPosition::new(32, 0)];
    let spawn = e.plan_spawns(&grid);
    assert_eq!(spawn, vec![ChunkPosition::new(-32, 0), ChunkPosition::new(32, 0)]);
    assert_eq!(e.len(), 3);
    // second pass with the same grid spawns nothing
    assert!(e.plan_spawns(&grid).is_empty());
    assert_eq!(e.len(), 3);
}

#[test]
fn plan_despawns_removes_only_outside_chunks() {
    let mut e = ExistingChunks::new();
    let grid = chunk_grid(0, 0);
    e.plan_spawns(&grid);
    let far = ChunkPosition::new(10_000, 0);
    e.insert(far);
    let loaded = vec![ChunkPosition::new(0, 0), far, ChunkPosition::new(-256, 224)];
    let despawn = e.plan_despawns(&loaded, &grid);
    assert_eq!(despawn, vec![false, true, false]);
    assert!(!e.contains(&far));
    assert_eq!(e.len(), CHUNK_GRID_LEN);
    for p in &grid {
        assert!(e.contains(p));
    }
}

#[test]
fn contains_chunk_linear() {
    let chunks = vec![ChunkPosition::new(1, 2), ChunkPosition::new(3, 4)];
    assert!(contains_chunk(&chunks, &ChunkPosition::new(3, 4)));
    assert!(!contains_chunk(&chunks, &ChunkPosition::new(4, 3)));
}
