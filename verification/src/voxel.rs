use std::collections::HashMap;
use vstd::prelude::*;

verus! {

/* ---------------------------------------------------------------------- */
/*      cube geometry                                                     */
/* ---------------------------------------------------------------------- */

/// The triangle list of a unit cube: six faces, two triangles (six corner
/// numbers) each, in the face order Front, Back, Right, Left, Top, Bottom.
/// A corner number names one of the 24 vertices of the cube (four per face).
pub const CUBE_VERTEX_INDICES: [u32; 36] = [
    0, 1, 2, 3, 0, 2,
    4, 5, 6, 6, 7, 4,
    8, 9, 10, 10, 11, 8,
    12, 13, 14, 14, 15, 12,
    16, 17, 18, 18, 19, 16,
    20, 21, 22, 22, 23, 20,
];

/// Number of vertices of the cube whose corner numbers appear in
/// `CUBE_VERTEX_INDICES`.
pub const CUBE_VERTEX_COUNT: usize = 24;

/* ---------------------------------------------------------------------- */
/*      positions, faces, textures                                        */
/* ---------------------------------------------------------------------- */

/// Integer position of a voxel.
#[derive(Clone, Copy, PartialEq, Eq, Structural, Hash, Debug)]
pub struct VoxelPos {
    pub x: i32,
    pub y: i32,
    pub z: i32,
}

impl VoxelPos {
    pub fn new(x: i32, y: i32, z: i32) -> (p: VoxelPos)
        ensures
            p.x == x,
            p.y == y,
            p.z == z,
    {
        VoxelPos { x, y, z }
    }
}

/// One of the six faces of a voxel.
#[derive(Clone, Copy, PartialEq, Eq, Structural, Hash, Debug)]
pub enum Face {
    Front,
    Back,
    Right,
    Left,
    Top,
    Bottom,
}

/// The faces in their canonical order.
pub open spec fn all_faces() -> Seq<Face> {
    seq![Face::Front, Face::Back, Face::Right, Face::Left, Face::Top, Face::Bottom]
}

impl Face {
    /// Position of the face in the canonical order.
    pub open spec fn ordinal_of(self) -> nat {
        match self {
            Face::Front => 0,
            Face::Back => 1,
            Face::Right => 2,
            Face::Left => 3,
            Face::Top => 4,
            Face::Bottom => 5,
        }
    }

    /// Unit offset from a voxel to the neighbour that this face touches
    /// (front is +z, right is +x, top is +y).
    pub open spec fn offset(self) -> (int, int, int) {
        match self {
            Face::Front => (0, 0, 1),
            Face::Back => (0, 0, -1),
            Face::Right => (1, 0, 0),
            Face::Left => (-1, 0, 0),
            Face::Top => (0, 1, 0),
            Face::Bottom => (0, -1, 0),
        }
    }

    /// The six corner numbers of the two triangles of this face.
    pub open spec fn corners(self) -> Seq<u32> {
        match self {
            Face::Front => seq![0, 1, 2, 3, 0, 2],
            Face::Back => seq![4, 5, 6, 6, 7, 4],
            Face::Right => seq![8, 9, 10, 10, 11, 8],
            Face::Left => seq![12, 13, 14, 14, 15, 12],
            Face::Top => seq![16, 17, 18, 18, 19, 16],
            Face::Bottom => seq![20, 21, 22, 22, 23, 20],
        }
    }

    pub fn ordinal(&self) -> (r: usize)
        ensures
            r == self.ordinal_of(),
    {
        match self {
            Face::Front => 0,
            Face::Back => 1,
            Face::Right => 2,
            Face::Left => 3,
            Face::Top => 4,
            Face::Bottom => 5,
        }
    }

    /// All six faces, in canonical order.
    pub fn all() -> (faces: Vec<Face>)
        ensures
            faces@ == all_faces(),
    {
        let faces = vec![Face::Front, Face::Back, Face::Right, Face::Left, Face::Top, Face::Bottom];
        assert(faces@ =~= all_faces());
        faces
    }
}

/// The texture of a voxel.
#[derive(Clone, Copy, PartialEq, Eq, Structural, Hash, Debug)]
pub enum Texture {
    Grass,
    Dirt,
}

/// A voxel: its position and its texture.
#[derive(Clone, Copy, PartialEq, Eq, Structural, Hash, Debug)]
pub struct VoxelData {
    pub position: VoxelPos,
    pub texture: Texture,
}

impl VoxelData {
    pub fn new(position: VoxelPos, texture: Texture) -> (v: VoxelData)
        ensures
            v.position == position,
            v.texture == texture,
    {
        VoxelData { position, texture }
    }
}


/* ---------------------------------------------------------------------- */
/*      face culling                                                      */
/* ---------------------------------------------------------------------- */

/// Some voxel of `voxels` stands at `(x, y, z)`.
pub open spec fn occupied(voxels: Seq<VoxelData>, x: int, y: int, z: int) -> bool {
    exists|i: int|
        0 <= i < voxels.len() && #[trigger] voxels[i].position.x == x && voxels[i].position.y == y
            && voxels[i].position.z == z
}

/// A face of the voxel at `pos` is drawn when it is not the bottom face and no
/// voxel of `voxels` stands next to it.
pub open spec fn face_visible(face: Face, pos: VoxelPos, voxels: Seq<VoxelData>) -> bool {
    face != Face::Bottom && !occupied(
        voxels,
        pos.x + face.offset().0,
        pos.y + face.offset().1,
        pos.z + face.offset().2,
    )
}

/// The neighbour of `pos` across `face` can be computed in `i32` (the bottom
/// face is never looked across).
pub open spec fn neighbor_in_range(face: Face, pos: VoxelPos) -> bool {
    face == Face::Bottom || {
        &&& i32::MIN <= pos.x + face.offset().0 <= i32::MAX
        &&& i32::MIN <= pos.y + face.offset().1 <= i32::MAX
        &&& i32::MIN <= pos.z + face.offset().2 <= i32::MAX
    }
}

/// Every neighbour of `pos` that face culling looks at can be computed in `i32`.
pub open spec fn neighbors_in_range(pos: VoxelPos) -> bool {
    forall|f: Face| #[trigger] neighbor_in_range(f, pos)
}

/// The faces of the voxel at `pos` that are drawn, in canonical order.
pub open spec fn visible_faces_of(pos: VoxelPos, voxels: Seq<VoxelData>) -> Seq<Face> {
    all_faces().filter(|f: Face| face_visible(f, pos, voxels))
}

/// Whether `face` of the voxel at `voxel_pos` is drawn: never for the bottom
/// face, and otherwise exactly when no voxel of `voxels` is its neighbour.
pub fn should_draw_face(face: &Face, voxel_pos: &VoxelPos, voxels: &Vec<VoxelData>) -> (r: bool)
    requires
        neighbor_in_range(*face, *voxel_pos),
    ensures
        r == face_visible(*face, *voxel_pos, voxels@),
        r == (*face != Face::Bottom && forall|i: int|
            0 <= i < voxels@.len() ==> !((#[trigger] voxels@[i]).position.x == voxel_pos.x
                + face.offset().0 && voxels@[i].position.y == voxel_pos.y + face.offset().1
                && voxels@[i].position.z == voxel_pos.z + face.offset().2)),
{
    let neighbor_pos = match face {
        Face::Front => VoxelPos::new(voxel_pos.x, voxel_pos.y, voxel_pos.z + 1),
        Face::Back => VoxelPos::new(voxel_pos.x, voxel_pos.y, voxel_pos.z - 1),
        Face::Right => VoxelPos::new(voxel_pos.x + 1, voxel_pos.y, voxel_pos.z),
        Face::Left => VoxelPos::new(voxel_pos.x - 1, voxel_pos.y, voxel_pos.z),
        Face::Top => VoxelPos::new(voxel_pos.x, voxel_pos.y + 1, voxel_pos.z),
        Face::Bottom => {
            return false;
        },
    };
    let n = voxels.len();
    for i in 0..n
        invariant
            n == voxels@.len(),
            neighbor_pos.x == voxel_pos.x + face.offset().0,
            neighbor_pos.y == voxel_pos.y + face.offset().1,
            neighbor_pos.z == voxel_pos.z + face.offset().2,
            forall|j: int| 0 <= j < i ==> #[trigger] voxels@[j].position != neighbor_pos,
    {
        if voxels[i].position == neighbor_pos {
            assert(voxels@[i as int].position.x == neighbor_pos.x);
            return false;
        }
    }
    proof {
        assert forall|j: int|
            0 <= j < voxels@.len() && #[trigger] voxels@[j].position.x == neighbor_pos.x
                && voxels@[j].position.y == neighbor_pos.y implies voxels@[j].position.z
            != neighbor_pos.z by {
            assert(voxels@[j].position != neighbor_pos);
        }
    }
    true
}

/// The faces of the voxel at `pos` that face culling keeps, in canonical order.
pub fn visible_faces(pos: &VoxelPos, voxels: &Vec<VoxelData>) -> (faces: Vec<Face>)
    requires
        neighbors_in_range(*pos),
    ensures
        faces@ == visible_faces_of(*pos, voxels@),
        forall|f: Face|
            faces@.contains(f) <==> (f != Face::Bottom && forall|i: int|
                0 <= i < voxels@.len() ==> !((#[trigger] voxels@[i]).position.x == pos.x
                    + f.offset().0 && voxels@[i].position.y == pos.y + f.offset().1
                    && voxels@[i].position.z == pos.z + f.offset().2)),
        forall|k1: int, k2: int|
            0 <= k1 < k2 < faces@.len() ==> (#[trigger] faces@[k1]).ordinal_of() < (
            #[trigger] faces@[k2]).ordinal_of(),
{
    let all = Face::all();
    let ghost pred = |f: Face| face_visible(f, *pos, voxels@);
    let mut faces: Vec<Face> = Vec::new();
    for i in 0..all.len()
        invariant
            all@ == all_faces(),
            neighbors_in_range(*pos),
            pred == (|f: Face| face_visible(f, *pos, voxels@)),
            faces@ == all@.take(i as int).filter(pred),
    {
        reveal(Seq::filter);
        assert(all@.take(i + 1).drop_last() =~= all@.take(i as int));
        assert(all@.take(i + 1).last() == all@[i as int]);
        assert(neighbor_in_range(all@[i as int], *pos));
        let keep = should_draw_face(&all[i], pos, voxels);
        assert(pred(all@[i as int]) == keep);
        if keep {
            faces.push(all[i]);
        }
        assert(faces@ == all@.take(i + 1).filter(pred));
    }
    assert(all@.take(all@.len() as int) =~= all@);
    proof {
        lemma_visible_faces_of(*pos, voxels@);
        let v = visible_faces_of(*pos, voxels@);
        assert forall|k1: int, k2: int|
            0 <= k1 < k2 < faces@.len() implies (#[trigger] faces@[k1]).ordinal_of() < (
            #[trigger] faces@[k2]).ordinal_of() by {
            assert(faces@[k1] == v[k1] && faces@[k2] == v[k2]);
        }
    }
    faces
}

/* ---------------------------------------------------------------------- */
/*      voxel meshes                                                      */
/* ---------------------------------------------------------------------- */

/// Corner numbers of the triangles of `faces`, six per face, face after face.
pub open spec fn corner_list(faces: Seq<Face>) -> Seq<u32>
    decreases faces.len(),
{
    if faces.len() == 0 {
        seq![]
    } else {
        corner_list(faces.drop_last()) + faces.last().corners()
    }
}

/// The distinct elements of `s`, in the order of their first occurrence.
pub open spec fn first_occurrences(s: Seq<u32>) -> Seq<u32>
    decreases s.len(),
{
    if s.len() == 0 {
        seq![]
    } else {
        let prev = first_occurrences(s.drop_last());
        if prev.contains(s.last()) {
            prev
        } else {
            prev.push(s.last())
        }
    }
}

/// The mesh of one voxel with a given set of faces: its vertices (each named
/// by its corner number in the unit cube, from which position, normal and
/// texture coordinate follow) and its triangle list (indices into `vertices`).
#[derive(Clone, Debug)]
pub struct VoxelMesh {
    pub texture: Texture,
    pub vertices: Vec<u32>,
    pub indices: Vec<u32>,
}

/// `m` is the mesh of the faces `faces` with texture `texture`: each cube
/// corner that the faces use becomes one vertex, in order of first use, and
/// the triangle list is the corner list of the faces with every corner
/// replaced by its vertex.
pub open spec fn is_mesh_of(m: VoxelMesh, faces: Seq<Face>, texture: Texture) -> bool {
    let corners = corner_list(faces);
    &&& m.texture == texture
    &&& m.vertices@ == first_occurrences(corners)
    &&& m.indices@.len() == corners.len()
    &&& forall|j: int|
        0 <= j < corners.len() ==> #[trigger] m.indices@[j] < m.vertices@.len()
            && m.vertices@[m.indices@[j] as int] == corners[j]
}

/// The corner number `CUBE_VERTEX_INDICES[6 * face + c]`.
fn face_corner(face: &Face, c: usize) -> (r: u32)
    requires
        c < 6,
    ensures
        r == face.corners()[c as int],
{
    let face_start = face.ordinal() * 6;
    CUBE_VERTEX_INDICES[face_start + c]
}

proof fn lemma_corners_below_count(face: Face)
    ensures
        forall|c: int| 0 <= c < 6 ==> #[trigger] face.corners()[c] < CUBE_VERTEX_COUNT,
        face.corners().len() == 6,
{
}

/// Every element of `first_occurrences(s)` occurs in `s` and the other way
/// round, and no element occurs in it twice.
pub proof fn lemma_first_occurrences(s: Seq<u32>)
    ensures
        first_occurrences(s).no_duplicates(),
        forall|x: u32| #[trigger] first_occurrences(s).contains(x) <==> s.contains(x),
    decreases s.len(),
{
    if s.len() > 0 {
        lemma_first_occurrences(s.drop_last());
        let prev = first_occurrences(s.drop_last());
        assert forall|x: u32| #[trigger] first_occurrences(s).contains(x) <==> s.contains(x) by {
            if s.contains(x) && !s.drop_last().contains(x) {
                let k = choose|k: int| 0 <= k < s.len() && s[k] == x;
                if k < s.len() - 1 {
                    assert(s.drop_last()[k] == x);
                }
                assert(x == s.last());
            }
            if s.drop_last().contains(x) {
                let k = choose|k: int| 0 <= k < s.len() - 1 && s.drop_last()[k] == x;
                assert(s[k] == x);
            }
            if !prev.contains(s.last()) {
                assert(prev.push(s.last())[prev.len() as int] == s.last());
                if prev.push(s.last()).contains(x) && x != s.last() {
                    let k = choose|k: int| 0 <= k < prev.len() + 1 && prev.push(s.last())[k] == x;
                    assert(prev[k] == x);
                }
                if prev.contains(x) {
                    let k = choose|k: int| 0 <= k < prev.len() && prev[k] == x;
                    assert(prev.push(s.last())[k] == x);
                }
            }
            assert(s.last() == s[s.len() - 1]);
        }
    }
}

/// A sequence without duplicates whose elements are all below `n` has at most
/// `n` elements.
proof fn lemma_distinct_below(s: Seq<u32>, n: nat)
    requires
        s.no_duplicates(),
        forall|i: int| 0 <= i < s.len() ==> #[trigger] s[i] < n,
    ensures
        s.len() <= n,
{
    let si = s.map_values(|x: u32| x as int);
    assert(si.no_duplicates()) by {
        assert forall|i: int, j: int| 0 <= i < si.len() && 0 <= j < si.len() && i != j implies si[i]
            != si[j] by {
            assert(s[i] != s[j]);
        }
    }
    vstd::set_lib::lemma_int_range(0, n as int);
    assert(si.to_set().subset_of(vstd::set_lib::set_int_range(0, n as int))) by {
        assert forall|x: int| si.to_set().contains(x) implies vstd::set_lib::set_int_range(
            0,
            n as int,
        ).contains(x) by {
            let k = choose|k: int| 0 <= k < si.len() && si[k] == x;
            assert(s[k] < n);
        }
    }
    si.unique_seq_to_set();
    vstd::set_lib::lemma_len_subset(si.to_set(), vstd::set_lib::set_int_range(0, n as int));
}

/// The mesh of the faces `faces` of a voxel with texture `texture`: every cube
/// corner used by a face becomes one vertex, in order of first use, and every
/// face adds its two triangles.
pub fn voxel_mesh(faces: Vec<Face>, texture: &Texture) -> (m: VoxelMesh)
    ensures
        is_mesh_of(m, faces@, *texture),
        m.indices@.len() == 6 * faces@.len(),
        faces@.no_duplicates() ==> m.vertices@.len() == 4 * faces@.len(),
{
    broadcast use vstd::std_specs::hash::group_hash_axioms;

    let mut vertices: Vec<u32> = Vec::new();
    let mut indices: Vec<u32> = Vec::new();
    let mut vertex_map: HashMap<usize, u32> = HashMap::new();
    let mut next_vertex_id: u32 = 0;

    for i in 0..faces.len()
        invariant
            next_vertex_id as int == vertices@.len(),
            vertices@ == first_occurrences(corner_list(faces@.take(i as int))),
            indices@.len() == corner_list(faces@.take(i as int)).len(),
            forall|j: int|
                0 <= j < indices@.len() ==> #[trigger] indices@[j] < vertices@.len()
                    && vertices@[indices@[j] as int] == corner_list(faces@.take(i as int))[j],
            forall|k: int| 0 <= k < vertices@.len() ==> #[trigger] vertices@[k] < CUBE_VERTEX_COUNT,
            forall|key: usize| #[trigger]
                vertex_map@.contains_key(key) <==> vertices@.contains(key as u32) && key
                    < CUBE_VERTEX_COUNT,
            forall|key: usize| #[trigger]
                vertex_map@.contains_key(key) ==> vertex_map@[key] < vertices@.len()
                    && vertices@[vertex_map@[key] as int] == key,
    {
        let face = faces[i];
        let ghost done = corner_list(faces@.take(i as int));
        assert(faces@.take(i + 1).drop_last() =~= faces@.take(i as int));
        assert(corner_list(faces@.take(i + 1)) == done + face.corners());
        proof {
            lemma_corners_below_count(face);
        }
        for c in 0..6
            invariant
                0 <= c <= 6,
                face.corners().len() == 6,
                forall|d: int| 0 <= d < 6 ==> #[trigger] face.corners()[d] < CUBE_VERTEX_COUNT,
                next_vertex_id as int == vertices@.len(),
                vertices@ == first_occurrences(done + face.corners().take(c as int)),
                indices@.len() == (done + face.corners().take(c as int)).len(),
                forall|j: int|
                    0 <= j < indices@.len() ==> #[trigger] indices@[j] < vertices@.len()
                        && vertices@[indices@[j] as int] == (done + face.corners().take(
                        c as int,
                    ))[j],
                forall|k: int|
                    0 <= k < vertices@.len() ==> #[trigger] vertices@[k] < CUBE_VERTEX_COUNT,
                forall|key: usize| #[trigger]
                    vertex_map@.contains_key(key) <==> vertices@.contains(key as u32) && key
                        < CUBE_VERTEX_COUNT,
                forall|key: usize| #[trigger]
                    vertex_map@.contains_key(key) ==> vertex_map@[key] < vertices@.len()
                        && vertices@[vertex_map@[key] as int] == key,
        {
            let ghost before = done + face.corners().take(c as int);
            let ghost after = done + face.corners().take(c + 1);
            assert(after.drop_last() =~= before);
            assert(after.last() == face.corners()[c as int]);
            let old_idx = face_corner(&face, c) as usize;
            let ghost old_vertices = vertices@;
            let ghost old_map = vertex_map@;
            proof {
                lemma_first_occurrences(before);
            }
            let new_idx = match vertex_map.get(&old_idx) {
                Some(id) => *id,
                None => {
                    proof {
                        lemma_distinct_below(vertices@, CUBE_VERTEX_COUNT as nat);
                        if vertices@.len() == CUBE_VERTEX_COUNT {
                            let s = vertices@.push(old_idx as u32);
                            assert(s.no_duplicates());
                            lemma_distinct_below(s, CUBE_VERTEX_COUNT as nat);
                        }
                    }
                    let id = next_vertex_id;
                    vertices.push(old_idx as u32);
                    vertex_map.insert(old_idx, id);
                    next_vertex_id = next_vertex_id + 1;
                    id
                },
            };
            indices.push(new_idx);
            assert forall|key: usize| #[trigger]
                vertex_map@.contains_key(key) <==> vertices@.contains(key as u32) && key
                    < CUBE_VERTEX_COUNT by {
                if vertices@.contains(key as u32) {
                    let k = choose|k: int| 0 <= k < vertices@.len() && vertices@[k] == key as u32;
                    assert(vertices@[k] < CUBE_VERTEX_COUNT);
                    if k < old_vertices.len() {
                        assert(old_vertices[k] == key as u32);
                        assert(old_vertices.contains(key as u32));
                    }
                }
                if old_vertices.contains(key as u32) {
                    let k = choose|k: int| 0 <= k < old_vertices.len() && old_vertices[k] == key as u32;
                    assert(vertices@[k] == key as u32);
                }
                if vertex_map@.contains_key(key) && key == old_idx {
                    assert(vertices@[vertex_map@[key] as int] == key);
                }
            }
        }
        assert(face.corners().take(6) =~= face.corners());
    }
    assert(faces@.take(faces@.len() as int) =~= faces@);
    proof {
        lemma_corner_list_len(faces@);
        if faces@.no_duplicates() {
            lemma_mesh_vertex_count(faces@);
        }
    }
    VoxelMesh { texture: *texture, vertices, indices }
}

/* ---------------------------------------------------------------------- */
/*      laws                                                              */
/* ---------------------------------------------------------------------- */

impl Face {
    /// The face on the other side of a voxel.
    pub open spec fn opposite(self) -> Face {
        match self {
            Face::Front => Face::Back,
            Face::Back => Face::Front,
            Face::Right => Face::Left,
            Face::Left => Face::Right,
            Face::Top => Face::Bottom,
            Face::Bottom => Face::Top,
        }
    }
}

/// A face other than the bottom one is drawn exactly when no voxel stands at
/// the position one step across that face; a voxel anywhere else never hides
/// it. The bottom face is never drawn.
pub proof fn lemma_face_drawn_iff_neighbor_free(face: Face, pos: VoxelPos, voxels: Seq<VoxelData>)
    ensures
        face == Face::Bottom ==> !face_visible(face, pos, voxels),
        face != Face::Bottom ==> (face_visible(face, pos, voxels) <==> forall|i: int|
            0 <= i < voxels.len() ==> !((#[trigger] voxels[i]).position.x == pos.x
                + face.offset().0 && voxels[i].position.y == pos.y + face.offset().1
                && voxels[i].position.z == pos.z + face.offset().2)),
{
    if face != Face::Bottom {
        if occupied(voxels, pos.x + face.offset().0, pos.y + face.offset().1, pos.z + face.offset().2) {
            let i = choose|i: int|
                0 <= i < voxels.len() && #[trigger] voxels[i].position.x == pos.x + face.offset().0
                    && voxels[i].position.y == pos.y + face.offset().1 && voxels[i].position.z
                    == pos.z + face.offset().2;
            assert(voxels[i].position.x == pos.x + face.offset().0);
        }
    }
}

/// The drawn faces of a voxel are listed in canonical order, once each: a face
/// is listed exactly when it is not the bottom face and no voxel stands one
/// step across it.
pub proof fn lemma_visible_faces_of(pos: VoxelPos, voxels: Seq<VoxelData>)
    ensures
        forall|f: Face|
            visible_faces_of(pos, voxels).contains(f) <==> (f != Face::Bottom && forall|i: int|
                0 <= i < voxels.len() ==> !((#[trigger] voxels[i]).position.x == pos.x
                    + f.offset().0 && voxels[i].position.y == pos.y + f.offset().1
                    && voxels[i].position.z == pos.z + f.offset().2)),
        forall|k1: int, k2: int|
            0 <= k1 < k2 < visible_faces_of(pos, voxels).len() ==> (#[trigger] visible_faces_of(
                pos,
                voxels,
            )[k1]).ordinal_of() < (#[trigger] visible_faces_of(pos, voxels)[k2]).ordinal_of(),
{
    let pred = |f: Face| face_visible(f, pos, voxels);
    lemma_filter_ordered(all_faces(), pred);
    assert forall|f: Face|
        visible_faces_of(pos, voxels).contains(f) <==> (f != Face::Bottom && forall|i: int|
            0 <= i < voxels.len() ==> !((#[trigger] voxels[i]).position.x == pos.x
                + f.offset().0 && voxels[i].position.y == pos.y + f.offset().1
                && voxels[i].position.z == pos.z + f.offset().2)) by {
        lemma_face_drawn_iff_neighbor_free(f, pos, voxels);
        if visible_faces_of(pos, voxels).contains(f) {
            all_faces().lemma_filter_contains_rev(pred, f);
            let k = choose|k: int|
                0 <= k < all_faces().filter(pred).len() && all_faces().filter(pred)[k] == f;
            all_faces().lemma_filter_pred(pred, k);
        }
        if pred(f) {
            let k = f.ordinal_of() as int;
            assert(all_faces()[k] == f);
            all_faces().lemma_filter_contains(pred, k);
        }
    }
}

/// Filtering the canonical face order keeps it strictly increasing.
proof fn lemma_filter_ordered(s: Seq<Face>, pred: spec_fn(Face) -> bool)
    requires
        forall|k1: int, k2: int|
            0 <= k1 < k2 < s.len() ==> (#[trigger] s[k1]).ordinal_of() < (#[trigger] s[k2]).ordinal_of(),
    ensures
        forall|k1: int, k2: int|
            0 <= k1 < k2 < s.filter(pred).len() ==> (#[trigger] s.filter(pred)[k1]).ordinal_of() < (
            #[trigger] s.filter(pred)[k2]).ordinal_of(),
        forall|k: int|
            0 <= k < s.filter(pred).len() ==> exists|m: int|
                0 <= m < s.len() && s[m] == #[trigger] s.filter(pred)[k],
    decreases s.len(),
{
    reveal(Seq::filter);
    if s.len() > 0 {
        let prev = s.drop_last();
        lemma_filter_ordered(prev, pred);
        let fp = prev.filter(pred);
        assert forall|k: int| 0 <= k < fp.len() implies (#[trigger] fp[k]).ordinal_of() < s.last().ordinal_of() by {
            let m = choose|m: int| 0 <= m < prev.len() && prev[m] == fp[k];
            assert(s[m] == prev[m]);
        }
        if pred(s.last()) {
            let f = s.filter(pred);
            assert(f == fp.push(s.last()));
            assert forall|k: int| 0 <= k < f.len() implies exists|m: int|
                0 <= m < s.len() && s[m] == #[trigger] f[k] by {
                if k < fp.len() {
                    let m = choose|m: int| 0 <= m < prev.len() && prev[m] == fp[k];
                    assert(s[m] == f[k]);
                } else {
                    assert(s[s.len() - 1] == f[k]);
                }
            }
        } else {
            assert forall|k: int| 0 <= k < fp.len() implies exists|m: int|
                0 <= m < s.len() && s[m] == #[trigger] fp[k] by {
                let m = choose|m: int| 0 <= m < prev.len() && prev[m] == fp[k];
                assert(s[m] == fp[k]);
            }
        }
    }
}

/// The bottom face of a voxel is never drawn.
pub proof fn lemma_bottom_never_visible(pos: VoxelPos, voxels: Seq<VoxelData>)
    ensures
        !face_visible(Face::Bottom, pos, voxels),
        !visible_faces_of(pos, voxels).contains(Face::Bottom),
{
    let pred = |f: Face| face_visible(f, pos, voxels);
    if visible_faces_of(pos, voxels).contains(Face::Bottom) {
        let k = choose|k: int|
            0 <= k < all_faces().filter(pred).len() && all_faces().filter(pred)[k] == Face::Bottom;
        all_faces().lemma_filter_pred(pred, k);
    }
}

/// Where two voxels touch, neither of the two touching faces is drawn: if
/// voxel `b` is the neighbour of voxel `a` across face `f`, face `f` of `a`
/// and the opposite face of `b` are both hidden.
pub proof fn lemma_touching_faces_hidden(voxels: Seq<VoxelData>, a: int, b: int, f: Face)
    requires
        0 <= a < voxels.len(),
        0 <= b < voxels.len(),
        voxels[b].position.x == voxels[a].position.x + f.offset().0,
        voxels[b].position.y == voxels[a].position.y + f.offset().1,
        voxels[b].position.z == voxels[a].position.z + f.offset().2,
    ensures
        !face_visible(f, voxels[a].position, voxels),
        !face_visible(f.opposite(), voxels[b].position, voxels),
{
    let pa = voxels[a].position;
    let pb = voxels[b].position;
    // voxel b witnesses the neighbour of a, and voxel a that of b
    assert(occupied(voxels, pa.x + f.offset().0, pa.y + f.offset().1, pa.z + f.offset().2));
    assert(occupied(
        voxels,
        pb.x + f.opposite().offset().0,
        pb.y + f.opposite().offset().1,
        pb.z + f.opposite().offset().2,
    ));
}

/// Each face adds six corners (two triangles) to the corner list.
pub proof fn lemma_corner_list_len(faces: Seq<Face>)
    ensures
        corner_list(faces).len() == 6 * faces.len(),
    decreases faces.len(),
{
    if faces.len() > 0 {
        lemma_corner_list_len(faces.drop_last());
    }
}

/// The corners of a face are the four vertices of that face.
proof fn lemma_face_corners(face: Face)
    ensures
        forall|c: int|
            0 <= c < 6 ==> 4 * face.ordinal_of() <= #[trigger] face.corners()[c] < 4
                * face.ordinal_of() + 4,
        first_occurrences(face.corners()) == seq![
            (4 * face.ordinal_of()) as u32,
            (4 * face.ordinal_of() + 1) as u32,
            (4 * face.ordinal_of() + 2) as u32,
            (4 * face.ordinal_of() + 3) as u32,
        ],
{
    let c = face.corners();
    let a = (4 * face.ordinal_of()) as u32;
    let s1 = seq![a];
    let s2 = seq![a, (a + 1) as u32];
    let s3 = seq![a, (a + 1) as u32, (a + 2) as u32];
    let s4 = seq![a, (a + 1) as u32, (a + 2) as u32, (a + 3) as u32];
    assert(s1.drop_last() =~= Seq::<u32>::empty());
    assert(s2.drop_last() =~= s1);
    assert(s3.drop_last() =~= s2);
    assert(s4.drop_last() =~= s3);
    assert(first_occurrences(Seq::<u32>::empty()) =~= Seq::<u32>::empty());
    assert(first_occurrences(s1) =~= s1);
    assert(first_occurrences(s2) =~= s2);
    assert(first_occurrences(s3) =~= s3);
    assert(first_occurrences(s4) =~= s4);
    assert(c.drop_last().drop_last().drop_last().drop_last().drop_last() =~= s1);
    assert(c.drop_last().drop_last().drop_last().drop_last() =~= s2);
    assert(c.drop_last().drop_last().drop_last() =~= s3);
    if face == Face::Front {
        assert(c.drop_last().drop_last() =~= s4);
        assert(c.drop_last() =~= s4.push(a));
        assert(s4.push(a).drop_last() =~= s4);
        assert(s4[0] == a);
        assert(first_occurrences(s4.push(a)) =~= s4);
        assert(s4[2] == (a + 2) as u32);
        assert(first_occurrences(c) =~= s4);
    } else {
        let t4 = s3.push((a + 2) as u32);
        assert(c.drop_last().drop_last() =~= t4);
        assert(t4.drop_last() =~= s3);
        assert(s3[2] == (a + 2) as u32);
        assert(first_occurrences(t4) =~= s3);
        let t5 = t4.push((a + 3) as u32);
        assert(c.drop_last() =~= t5);
        assert(t5.drop_last() =~= t4);
        assert(first_occurrences(t5) =~= s4);
        assert(c =~= t5.push(a));
        assert(s4[0] == a);
        assert(first_occurrences(c) =~= s4);
    }
}

/// Appending elements that do not occur before appends their first
/// occurrences.
proof fn lemma_first_occurrences_append(s: Seq<u32>, t: Seq<u32>)
    requires
        forall|k: int| 0 <= k < t.len() ==> !s.contains(#[trigger] t[k]),
    ensures
        first_occurrences(s + t) == first_occurrences(s) + first_occurrences(t),
    decreases t.len(),
{
    if t.len() == 0 {
        assert(s + t =~= s);
        assert(first_occurrences(s) + first_occurrences(t) =~= first_occurrences(s));
    } else {
        lemma_first_occurrences_append(s, t.drop_last());
        assert((s + t).drop_last() =~= s + t.drop_last());
        assert((s + t).last() == t.last());
        lemma_first_occurrences(s);
        lemma_first_occurrences(t.drop_last());
        let x = t.last();
        assert(!s.contains(x));
        assert(!first_occurrences(s).contains(x));
        let fs = first_occurrences(s);
        let ft = first_occurrences(t.drop_last());
        if ft.contains(x) {
            let k = choose|k: int| 0 <= k < ft.len() && ft[k] == x;
            assert((fs + ft)[fs.len() + k] == x);
        } else {
            if (fs + ft).contains(x) {
                let k = choose|k: int| 0 <= k < (fs + ft).len() && (fs + ft)[k] == x;
                if k < fs.len() {
                    assert(fs[k] == x);
                } else {
                    assert(ft[k - fs.len()] == x);
                }
            }
            assert((fs + ft).push(x) =~= fs + ft.push(x));
        }
    }
}

/// A mesh of distinct faces has four vertices per face: faces share no
/// vertex, and within a face the two triangles share two corners.
pub proof fn lemma_mesh_vertex_count(faces: Seq<Face>)
    requires
        faces.no_duplicates(),
    ensures
        first_occurrences(corner_list(faces)).len() == 4 * faces.len(),
        forall|k: int|
            0 <= k < corner_list(faces).len() ==> #[trigger] corner_list(faces)[k] < 4 * 6,
    decreases faces.len(),
{
    if faces.len() > 0 {
        let prev = faces.drop_last();
        let f = faces.last();
        assert(prev.no_duplicates());
        lemma_mesh_vertex_count(prev);
        lemma_face_corners(f);
        lemma_corner_list_len(prev);
        assert forall|k: int| 0 <= k < 6 implies !corner_list(prev).contains(
            #[trigger] f.corners()[k],
        ) by {
            if corner_list(prev).contains(f.corners()[k]) {
                let j = choose|j: int|
                    0 <= j < corner_list(prev).len() && corner_list(prev)[j] == f.corners()[k];
                lemma_corner_of_some_face(prev, j);
                let g = choose|g: int|
                    0 <= g < prev.len() && 4 * (#[trigger] prev[g]).ordinal_of() <= corner_list(prev)[j] < 4
                        * prev[g].ordinal_of() + 4;
                assert(prev[g].ordinal_of() == f.ordinal_of());
                assert(prev[g] == f);
                assert(faces[g] == faces[faces.len() - 1]);
            }
        }
        lemma_first_occurrences_append(corner_list(prev), f.corners());
        assert forall|k: int|
            0 <= k < corner_list(faces).len() implies #[trigger] corner_list(faces)[k] < 4 * 6 by {
            if k >= corner_list(prev).len() {
                assert(corner_list(faces)[k] == f.corners()[k - corner_list(prev).len()]);
            } else {
                assert(corner_list(faces)[k] == corner_list(prev)[k]);
            }
        }
    }
}

/// Every corner in the corner list belongs to one of the faces.
proof fn lemma_corner_of_some_face(faces: Seq<Face>, j: int)
    requires
        0 <= j < corner_list(faces).len(),
    ensures
        exists|g: int|
            0 <= g < faces.len() && 4 * (#[trigger] faces[g]).ordinal_of() <= corner_list(faces)[j] < 4
                * faces[g].ordinal_of() + 4,
    decreases faces.len(),
{
    let prev = faces.drop_last();
    let f = faces.last();
    lemma_face_corners(f);
    lemma_corner_list_len(prev);
    if j < corner_list(prev).len() {
        lemma_corner_of_some_face(prev, j);
        let g = choose|g: int|
            0 <= g < prev.len() && 4 * (#[trigger] prev[g]).ordinal_of() <= corner_list(prev)[j] < 4
                * prev[g].ordinal_of() + 4;
        assert(faces[g] == prev[g]);
        assert(corner_list(faces)[j] == corner_list(prev)[j]);
    } else {
        assert(corner_list(faces)[j] == f.corners()[j - corner_list(prev).len()]);
        assert(faces[faces.len() - 1] == f);
    }
}

} // verus!
