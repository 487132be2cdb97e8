use voxel_world::voxel::{
    should_draw_face, visible_faces, voxel_mesh, Face, Texture, VoxelData, VoxelPos,
    CUBE_VERTEX_INDICES,
};

fn voxel(x: i32, y: i32, z: i32, texture: Texture) -> VoxelData {
    VoxelData::new(VoxelPos::new(x, y, z), texture)
}

#[test]
fn face_all_is_canonical_order() {
    assert_eq!(
        Face::all(),
        vec![Face::Front, Face::Back, Face::Right, Face::Left, Face::Top, Face::Bottom]
    );
}

#[test]
fn face_ordinals() {
    let ordinals: Vec<usize> = Face::all().iter().map(|f| f.ordinal()).collect();
    assert_eq!(ordinals, vec![0, 1, 2, 3, 4, 5]);
}

#[test]
fn voxel_data_new_keeps_fields() {
    let v = VoxelData::new(VoxelPos::new(1, -2, 3), Texture::Dirt);
    assert_eq!(v.position, VoxelPos { x: 1, y: -2, z: 3 });
    assert_eq!(v.texture, Texture::Dirt);
}

#[test]
fn lone_voxel_draws_all_but_bottom() {
    let voxels = vec![voxel(0, 0, 0, Texture::Grass)];
    let pos = VoxelPos::new(0, 0, 0);
    assert!(should_draw_face(&Face::Front, &pos, &voxels));
    assert!(should_draw_face(&Face::Top, &pos, &voxels));
    assert!(!should_draw_face(&Face::Bottom, &pos, &voxels));
    assert_eq!(
        visible_faces(&pos, &voxels),
        vec![Face::Front, Face::Back, Face::Right, Face::Left, Face::Top]
    );
}

#[test]
fn bottom_face_hidden_even_over_empty_space() {
    let voxels: Vec<VoxelData> = Vec::new();
    assert!(!should_draw_face(&Face::Bottom, &VoxelPos::new(5, 5, 5), &voxels));
}

#[test]
fn touching_faces_are_both_hidden() {
    // b is the right neighbour of a
    let voxels = vec![voxel(0, 0, 0, Texture::Grass), voxel(1, 0, 0, Texture::Dirt)];
    assert!(!should_draw_face(&Face::Right, &VoxelPos::new(0, 0, 0), &voxels));
    assert!(!should_draw_face(&Face::Left, &VoxelPos::new(1, 0, 0), &voxels));
    assert!(should_draw_face(&Face::Left, &VoxelPos::new(0, 0, 0), &voxels));
    assert!(should_draw_face(&Face::Right, &VoxelPos::new(1, 0, 0), &voxels));
}

#[test]
fn each_neighbour_direction() {
    let centre = VoxelPos::new(10, 10, 10);
    let cases = [
        (Face::Front, voxel(10, 10, 11, Texture::Grass)),
        (Face::Back, voxel(10, 10, 9, Texture::Grass)),
        (Face::Right, voxel(11, 10, 10, Texture::Grass)),
        (Face::Left, voxel(9, 10, 10, Texture::Grass)),
        (Face::Top, voxel(10, 11, 10, Texture::Grass)),
    ];
    for (face, neighbour) in cases {
        let voxels = vec![neighbour];
        assert!(!should_draw_face(&face, &centre, &voxels));
        for other in Face::all() {
            if other != face && other != Face::Bottom {
                assert!(should_draw_face(&other, &centre, &voxels));
            }
        }
    }
}

#[test]
fn diagonal_neighbour_hides_nothing() {
    let voxels = vec![voxel(1, 1, 0, Texture::Grass)];
    assert_eq!(visible_faces(&VoxelPos::new(0, 0, 0), &voxels).len(), 5);
}

#[test]
fn single_front_face_mesh() {
    let m = voxel_mesh(vec![Face::Front], &Texture::Grass);
    assert_eq!(m.texture, Texture::Grass);
    assert_eq!(m.vertices, vec![0, 1, 2, 3]);
    assert_eq!(m.indices, vec![0, 1, 2, 3, 0, 2]);
}

#[test]
fn single_back_face_mesh() {
    let m = voxel_mesh(vec![Face::Back], &Texture::Dirt);
    assert_eq!(m.texture, Texture::Dirt);
    assert_eq!(m.vertices, vec![4, 5, 6, 7]);
    assert_eq!(m.indices, vec![0, 1, 2, 2, 3, 0]);
}

#[test]
fn two_face_mesh_continues_numbering() {
    let m = voxel_mesh(vec![Face::Top, Face::Front], &Texture::Grass);
    assert_eq!(m.vertices, vec![16, 17, 18, 19, 0, 1, 2, 3]);
    assert_eq!(m.indices, vec![0, 1, 2, 2, 3, 0, 4, 5, 6, 7, 4, 6]);
}

#[test]
fn empty_face_list_gives_empty_mesh() {
    let m = voxel_mesh(Vec::new(), &Texture::Grass);
    assert!(m.vertices.is_empty());
    assert!(m.indices.is_empty());
}

#[test]
fn repeated_face_reuses_vertices() {
    let m = voxel_mesh(vec![Face::Left, Face::Left], &Texture::Grass);
    assert_eq!(m.vertices, vec![12, 13, 14, 15]);
    assert_eq!(m.indices, vec![0, 1, 2, 2, 3, 0, 0, 1, 2, 2, 3, 0]);
}

#[test]
fn full_cube_has_four_vertices_per_face() {
    let m = voxel_mesh(Face::all(), &Texture::Dirt);
    assert_eq!(m.vertices.len(), 24);
    assert_eq!(m.indices.len(), 36);
    // every index names the vertex of the corner it stands for
    for (j, index) in m.indices.iter().enumerate() {
        assert_eq!(m.vertices[*index as usize], CUBE_VERTEX_INDICES[j]);
    }
}
