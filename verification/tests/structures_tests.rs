use voxel_world::structures::{place_structures, Placement};
use voxel_world::voxel::{Texture, VoxelData, VoxelPos};

fn voxel(x: i32, y: i32, z: i32) -> VoxelData {
    VoxelData::new(VoxelPos::new(x, y, z), Texture::Grass)
}

#[test]
fn first_passing_structure_wins_each_block() {
    let voxels = vec![voxel(0, 0, 0), voxel(1, 0, 0), voxel(2, 0, 0)];
    let passes = vec![
        vec![true, false, false],
        vec![true, true, false],
        vec![false, true, true],
    ];
    let placed = place_structures(&voxels, &passes);
    assert_eq!(
        placed,
        vec![
            Placement { structure: 0, voxel: 0 },
            Placement { structure: 1, voxel: 1 },
            Placement { structure: 2, voxel: 2 },
        ]
    );
}

#[test]
fn no_structure_where_nothing_passes() {
    let voxels = vec![voxel(0, 0, 0), voxel(1, 0, 0)];
    let passes = vec![vec![false, false], vec![false, false]];
    assert!(place_structures(&voxels, &passes).is_empty());
}

#[test]
fn voxels_at_same_position_share_one_structure() {
    let voxels = vec![voxel(4, 1, 4), voxel(4, 1, 4)];
    let passes = vec![vec![false, true], vec![true, true]];
    let placed = place_structures(&voxels, &passes);
    assert_eq!(placed, vec![Placement { structure: 0, voxel: 1 }]);
}

#[test]
fn no_structures_no_placements() {
    let voxels = vec![voxel(0, 0, 0)];
    let passes: Vec<Vec<bool>> = Vec::new();
    assert!(place_structures(&voxels, &passes).is_empty());
}
