use vstd::prelude::*;

use crate::voxel::{
    is_mesh_of, neighbors_in_range, visible_faces, visible_faces_of, voxel_mesh, Texture,
    VoxelData, VoxelMesh, VoxelPos,
};

verus! {

/* ---------------------------------------------------------------------- */
/*      constants                                                         */
/* ---------------------------------------------------------------------- */

/// Side of the square of chunks kept around the player, in chunks.
pub const RENDER_DISTANCE: i32 = 16;

/// Number of chunks in the square around the player.
pub const CHUNK_GRID_LEN: usize = 256;

/// Side of a chunk along x and z, in voxels.
pub const CHUNK_SIZE_HORIZONTAL: i32 = 32;

/// Number of voxels of a chunk.
pub const CHUNK_LEN: usize = 1024;

/* ---------------------------------------------------------------------- */
/*      chunk positions                                                   */
/* ---------------------------------------------------------------------- */

/// World coordinates (x, z) of the corner of a chunk.
#[derive(Default, Clone, Copy, PartialEq, Eq, Structural, Hash, Debug)]
pub struct ChunkPosition {
    pub x: i32,
    pub z: i32,
}

impl ChunkPosition {
    pub fn new(x: i32, z: i32) -> (p: ChunkPosition)
        ensures
            p.x == x,
            p.z == z,
    {
        ChunkPosition { x, z }
    }
}

/// The chunk corner coordinate nearest to block coordinate `b`: the multiple
/// of the chunk size closest to `b`, a tie (`b` half a chunk past a multiple)
/// going up. For a position `x` between `b` and `b + 1` this is also the
/// multiple of the chunk size nearest to `x`.
pub open spec fn chunk_origin(b: int) -> int {
    ((b + CHUNK_SIZE_HORIZONTAL as int / 2) / CHUNK_SIZE_HORIZONTAL as int) * CHUNK_SIZE_HORIZONTAL as int
}

/// Rounds a block coordinate to the nearest chunk corner coordinate (the
/// nearest number divisible by the chunk size, ties going up). The result
/// must fit in `i32`, which rules out the top half chunk of the range.
pub fn align_to_chunk(b: i32) -> (r: i32)
    requires
        b <= i32::MAX - CHUNK_SIZE_HORIZONTAL / 2,
    ensures
        r == chunk_origin(b as int),
        r - CHUNK_SIZE_HORIZONTAL / 2 <= b < r + CHUNK_SIZE_HORIZONTAL / 2,
        r % CHUNK_SIZE_HORIZONTAL == 0,
{
    let wide: i64 = b as i64 + 16;
    let q: i64 = if wide >= 0 {
        wide / 32
    } else {
        -((-wide + 31) / 32)
    };
    proof {
        let wi = b as int + 16;
        if wi >= 0 {
            assert(q == wi / 32);
        } else {
            let m = (-wi + 31) / 32;
            assert(m * 32 <= -wi + 31 < m * 32 + 32);
            assert(wi / 32 * 32 <= wi < wi / 32 * 32 + 32);
            assert(-m * 32 <= wi < -m * 32 + 32);
            assert(-m == wi / 32) by (nonlinear_arith)
                requires
                    -m * 32 <= wi < -m * 32 + 32,
                    wi / 32 * 32 <= wi < wi / 32 * 32 + 32,
            ;
        }
        assert(i32::MIN <= q * 32 <= wi < q * 32 + 32) by (nonlinear_arith)
            requires
                q == wi / 32,
                i32::MIN + 16 <= wi,
        ;
        assert((q * 32) % 32 == 0) by (nonlinear_arith);
    }
    (q * 32) as i32
}

/// Half the render distance: the grid reaches this many chunks behind the
/// player's chunk and one less ahead of it.
pub open spec fn half_render_distance() -> int {
    RENDER_DISTANCE as int / 2
}

/// The chunk of the grid around the chunk with corner `(cx, cz)` at column `i`
/// and row `j` (both in `0..RENDER_DISTANCE`).
pub open spec fn grid_cell(cx: int, cz: int, i: int, j: int) -> (int, int) {
    (
        cx + (i - half_render_distance()) * CHUNK_SIZE_HORIZONTAL as int,
        cz + (j - half_render_distance()) * CHUNK_SIZE_HORIZONTAL as int,
    )
}

/// Entry `i * RENDER_DISTANCE + j` of a grid.
pub open spec fn grid_at(grid: Seq<ChunkPosition>, i: int, j: int) -> ChunkPosition {
    grid[i * RENDER_DISTANCE as int + j]
}

/// `grid` lists the chunks around the chunk with corner `(cx, cz)`: column by
/// column (x outer, z inner), from `half_render_distance()` chunks behind to
/// `half_render_distance() - 1` chunks ahead along each axis.
pub open spec fn is_chunk_grid(grid: Seq<ChunkPosition>, cx: int, cz: int) -> bool {
    &&& grid.len() == CHUNK_GRID_LEN
    &&& forall|i: int, j: int|
        0 <= i < RENDER_DISTANCE && 0 <= j < RENDER_DISTANCE ==> {
            let p = #[trigger] grid_at(grid, i, j);
            &&& p.x as int == grid_cell(cx, cz, i, j).0
            &&& p.z as int == grid_cell(cx, cz, i, j).1
        }
}

/// The grid around the player at block coordinates `(block_x, block_z)` can be
/// computed in `i32`.
pub open spec fn chunk_grid_in_range(block_x: int, block_z: int) -> bool {
    &&& i32::MIN <= chunk_origin(block_x) - half_render_distance() * CHUNK_SIZE_HORIZONTAL as int
    &&& chunk_origin(block_x) + (half_render_distance() - 1) * CHUNK_SIZE_HORIZONTAL as int <= i32::MAX
    &&& i32::MIN <= chunk_origin(block_z) - half_render_distance() * CHUNK_SIZE_HORIZONTAL as int
    &&& chunk_origin(block_z) + (half_render_distance() - 1) * CHUNK_SIZE_HORIZONTAL as int <= i32::MAX
}

/// The chunks to keep around a player standing in block column
/// `(block_x, block_z)`: the `RENDER_DISTANCE` by `RENDER_DISTANCE` square of
/// chunks around the player's chunk, the chunk whose corner is the chunk
/// corner nearest to the player (see `align_to_chunk`).
pub fn chunk_grid(block_x: i32, block_z: i32) -> (grid: Vec<ChunkPosition>)
    requires
        chunk_grid_in_range(block_x as int, block_z as int),
    ensures
        is_chunk_grid(grid@, chunk_origin(block_x as int), chunk_origin(block_z as int)),
        grid@.no_duplicates(),
        grid@.contains(
            ChunkPosition {
                x: chunk_origin(block_x as int) as i32,
                z: chunk_origin(block_z as int) as i32,
            },
        ),
        forall|i: int, j: int|
            0 <= i < RENDER_DISTANCE && 0 <= j < RENDER_DISTANCE ==> {
                let p = #[trigger] grid_at(grid@, i, j);
                &&& p.x == chunk_origin(block_x as int) + (i - RENDER_DISTANCE / 2)
                    * CHUNK_SIZE_HORIZONTAL
                &&& p.z == chunk_origin(block_z as int) + (j - RENDER_DISTANCE / 2)
                    * CHUNK_SIZE_HORIZONTAL
            },
        forall|p: ChunkPosition|
            grid@.contains(p) <==> exists|i: int, j: int|
                0 <= i < RENDER_DISTANCE && 0 <= j < RENDER_DISTANCE && #[trigger] grid_at(
                    grid@,
                    i,
                    j,
                ) == p && p.x == chunk_origin(block_x as int) + (i - RENDER_DISTANCE / 2)
                    * CHUNK_SIZE_HORIZONTAL && p.z == chunk_origin(block_z as int) + (j
                    - RENDER_DISTANCE / 2) * CHUNK_SIZE_HORIZONTAL,
{
    let mut new_chunks: Vec<ChunkPosition> = Vec::with_capacity(CHUNK_GRID_LEN);
    let render_half: i32 = RENDER_DISTANCE / 2;

    // the player's chunk: the nearest chunk corner
    let current_chunk = ChunkPosition::new(align_to_chunk(block_x), align_to_chunk(block_z));
    let ghost cx = current_chunk.x as int;
    let ghost cz = current_chunk.z as int;

    let mut x: i32 = -render_half;
    while x < render_half
        invariant
            render_half == half_render_distance(),
            -render_half <= x <= render_half,
            cx == chunk_origin(block_x as int),
            cz == chunk_origin(block_z as int),
            current_chunk.x == cx,
            current_chunk.z == cz,
            chunk_grid_in_range(block_x as int, block_z as int),
            new_chunks@.len() == (x + render_half) * RENDER_DISTANCE,
            forall|i: int, j: int|
                0 <= i < x + render_half && 0 <= j < RENDER_DISTANCE ==> {
                    let p = #[trigger] grid_at(new_chunks@, i, j);
                    &&& p.x as int == grid_cell(cx, cz, i, j).0
                    &&& p.z as int == grid_cell(cx, cz, i, j).1
                },
        decreases render_half - x,
    {
        let mut z: i32 = -render_half;
        while z < render_half
            invariant
                render_half == half_render_distance(),
                -render_half <= x < render_half,
                -render_half <= z <= render_half,
                cx == chunk_origin(block_x as int),
                cz == chunk_origin(block_z as int),
                current_chunk.x == cx,
                current_chunk.z == cz,
                chunk_grid_in_range(block_x as int, block_z as int),
                new_chunks@.len() == (x + render_half) * RENDER_DISTANCE + (z + render_half),
                forall|i: int, j: int|
                    (0 <= i < x + render_half && 0 <= j < RENDER_DISTANCE) || (i == x
                        + render_half && 0 <= j < z + render_half) ==> {
                        let p = #[trigger] grid_at(new_chunks@, i, j);
                        &&& p.x as int == grid_cell(cx, cz, i, j).0
                        &&& p.z as int == grid_cell(cx, cz, i, j).1
                    },
            decreases render_half - z,
        {
            let chunk_x: i32 = current_chunk.x + (x * CHUNK_SIZE_HORIZONTAL);
            let chunk_z: i32 = current_chunk.z + (z * CHUNK_SIZE_HORIZONTAL);
            let ghost before = new_chunks@;
            new_chunks.push(ChunkPosition::new(chunk_x, chunk_z));
            assert forall|i: int, j: int|
                (0 <= i < x + render_half && 0 <= j < RENDER_DISTANCE) || (i == x + render_half
                    && 0 <= j < z + 1 + render_half) implies {
                let p = #[trigger] grid_at(new_chunks@, i, j);
                &&& p.x as int == grid_cell(cx, cz, i, j).0
                &&& p.z as int == grid_cell(cx, cz, i, j).1
            } by {
                if i < x + render_half || j < z + render_half {
                    assert(i * 16 + j < before.len()) by (nonlinear_arith)
                        requires
                            (0 <= i < x + render_half && 0 <= j < 16) || (i == x + render_half
                                && 0 <= j < z + render_half),
                            before.len() == (x + render_half) * 16 + (z + render_half),
                            0 <= z + render_half <= 16,
                    ;
                    assert(grid_at(new_chunks@, i, j) == grid_at(before, i, j));
                }
            }
            z = z + 1;
        }
        x = x + 1;
    }
    proof {
        lemma_chunk_grid(new_chunks@, cx, cz);
        let k = choose|k: int|
            0 <= k < new_chunks@.len() && new_chunks@[k].x == cx && new_chunks@[k].z == cz;
        assert(new_chunks@[k] == current_chunk);
    }
    new_chunks
}

/* ---------------------------------------------------------------------- */
/*      chunk contents                                                    */
/* ---------------------------------------------------------------------- */

/// What terrain generation decided for one column of a chunk: the height of
/// its surface voxel and whether that voxel is dirt (otherwise grass).
#[derive(Clone, Copy, PartialEq, Eq, Structural, Debug)]
pub struct ColumnSample {
    pub height: i32,
    pub dirt: bool,
}

/// The voxel that a column sample yields at local column `(x, z)`.
pub open spec fn column_voxel(x: int, z: int, sample: ColumnSample) -> VoxelData {
    VoxelData {
        position: VoxelPos { x: x as i32, y: sample.height, z: z as i32 },
        texture: if sample.dirt {
            Texture::Dirt
        } else {
            Texture::Grass
        },
    }
}

/// The voxel of a column stands at the column's local `(x, z)` at the sampled
/// height, and is dirt exactly when the sample says so, whatever its height.
pub proof fn lemma_column_voxel(x: int, z: int, sample: ColumnSample)
    requires
        0 <= x < CHUNK_SIZE_HORIZONTAL,
        0 <= z < CHUNK_SIZE_HORIZONTAL,
    ensures
        column_voxel(x, z, sample).position.x == x,
        column_voxel(x, z, sample).position.y == sample.height,
        column_voxel(x, z, sample).position.z == z,
        column_voxel(x, z, sample).texture == Texture::Dirt <==> sample.dirt,
{
}

/// Entry `x * CHUNK_SIZE_HORIZONTAL + z` of a column-major sequence.
pub open spec fn column_at<T>(s: Seq<T>, x: int, z: int) -> T {
    s[x * CHUNK_SIZE_HORIZONTAL as int + z]
}

/// The voxels of a chunk, one per column, from the samples of its columns
/// (`samples[x * CHUNK_SIZE_HORIZONTAL + z]` is the sample of local column
/// `(x, z)`); the voxels come in the same order as the samples.
pub fn chunk_voxels(samples: &Vec<ColumnSample>) -> (voxels: Vec<VoxelData>)
    requires
        samples@.len() == CHUNK_LEN,
    ensures
        voxels@.len() == CHUNK_LEN,
        forall|x: int, z: int|
            0 <= x < CHUNK_SIZE_HORIZONTAL && 0 <= z < CHUNK_SIZE_HORIZONTAL ==> #[trigger] column_at(
                voxels@,
                x,
                z,
            ) == column_voxel(x, z, column_at(samples@, x, z)),
        forall|x: int, z: int|
            0 <= x < CHUNK_SIZE_HORIZONTAL && 0 <= z < CHUNK_SIZE_HORIZONTAL ==> {
                let v = #[trigger] column_at(voxels@, x, z);
                let s = column_at(samples@, x, z);
                &&& v.position.x == x
                &&& v.position.y == s.height
                &&& v.position.z == z
                &&& (v.texture == Texture::Dirt <==> s.dirt)
            },
        forall|a: int, b: int|
            0 <= a < voxels@.len() && 0 <= b < voxels@.len() && a != b ==> (#[trigger] voxels@[a]).position
                != (#[trigger] voxels@[b]).position,
{
    let mut voxels: Vec<VoxelData> = Vec::with_capacity(CHUNK_LEN);
    let mut x: i32 = 0;
    while x < CHUNK_SIZE_HORIZONTAL
        invariant
            0 <= x <= 32,
            samples@.len() == CHUNK_LEN,
            voxels@.len() == x * 32,
            forall|i: int, j: int|
                0 <= i < x && 0 <= j < 32 ==> #[trigger] column_at(voxels@, i, j) == column_voxel(
                    i,
                    j,
                    column_at(samples@, i, j),
                ),
        decreases 32 - x,
    {
        let mut z: i32 = 0;
        while z < CHUNK_SIZE_HORIZONTAL
            invariant
                0 <= x < 32,
                0 <= z <= 32,
                samples@.len() == CHUNK_LEN,
                voxels@.len() == x * 32 + z,
                forall|i: int, j: int|
                    (0 <= i < x && 0 <= j < 32) || (i == x && 0 <= j < z) ==> #[trigger] column_at(
                        voxels@,
                        i,
                        j,
                    ) == column_voxel(i, j, column_at(samples@, i, j)),
            decreases 32 - z,
        {
            let idx: usize = (x * CHUNK_SIZE_HORIZONTAL + z) as usize;
            let sample = samples[idx];
            let texture = if sample.dirt {
                Texture::Dirt
            } else {
                Texture::Grass
            };
            let ghost before = voxels@;
            voxels.push(VoxelData::new(VoxelPos::new(x, sample.height, z), texture));
            assert forall|i: int, j: int|
                (0 <= i < x && 0 <= j < 32) || (i == x && 0 <= j < z + 1) implies #[trigger] column_at(
                voxels@,
                i,
                j,
            ) == column_voxel(i, j, column_at(samples@, i, j)) by {
                if i < x || j < z {
                    assert(i * 32 + j < before.len()) by (nonlinear_arith)
                        requires
                            (0 <= i < x && 0 <= j < 32) || (i == x && 0 <= j < z),
                            before.len() == x * 32 + z,
                            0 <= z,
                    ;
                    assert(column_at(voxels@, i, j) == column_at(before, i, j));
                }
            }
            z = z + 1;
        }
        x = x + 1;
    }
    assert forall|a: int, b: int|
        0 <= a < voxels@.len() && 0 <= b < voxels@.len() && a != b implies (#[trigger] voxels@[a]).position
            != (#[trigger] voxels@[b]).position by {
        lemma_index_split(a, 32);
        lemma_index_split(b, 32);
        assert(voxels@[a] == column_at(voxels@, a / 32, a % 32));
        assert(voxels@[b] == column_at(voxels@, b / 32, b % 32));
    }
    assert forall|x: int, z: int|
        0 <= x < CHUNK_SIZE_HORIZONTAL && 0 <= z < CHUNK_SIZE_HORIZONTAL implies {
        let v = #[trigger] column_at(voxels@, x, z);
        let s = column_at(samples@, x, z);
        &&& v.position.x == x
        &&& v.position.y == s.height
        &&& v.position.z == z
        &&& (v.texture == Texture::Dirt <==> s.dirt)
    } by {
        lemma_column_voxel(x, z, column_at(samples@, x, z));
    }
    voxels
}

/// A chunk: the voxels it is made of.
#[derive(Clone, Debug)]
pub struct Chunk {
    pub voxels: Vec<VoxelData>,
}

/// The mesh of one voxel of a chunk and the position to translate it to.
#[derive(Clone, Debug)]
pub struct ChunkMeshPart {
    pub position: VoxelPos,
    pub mesh: VoxelMesh,
}

/// Every neighbour that face culling looks at, of every voxel of `voxels`, can
/// be computed in `i32`.
pub open spec fn all_neighbors_in_range(voxels: Seq<VoxelData>) -> bool {
    forall|i: int| 0 <= i < voxels.len() ==> neighbors_in_range(#[trigger] voxels[i].position)
}

/// The mesh of a chunk, as one part per voxel in the order of `voxels`: the
/// mesh of the voxel's visible faces with its texture, to be placed at the
/// voxel's position.
pub fn chunk_mesh(voxels: &Vec<VoxelData>) -> (parts: Vec<ChunkMeshPart>)
    requires
        all_neighbors_in_range(voxels@),
    ensures
        parts@.len() == voxels@.len(),
        forall|i: int|
            0 <= i < voxels@.len() ==> (#[trigger] parts@[i]).position == voxels@[i].position
                && is_mesh_of(
                parts@[i].mesh,
                visible_faces_of(voxels@[i].position, voxels@),
                voxels@[i].texture,
            ),
{
    let mut parts: Vec<ChunkMeshPart> = Vec::with_capacity(voxels.len());
    for i in 0..voxels.len()
        invariant
            all_neighbors_in_range(voxels@),
            parts@.len() == i,
            forall|k: int|
                0 <= k < i ==> (#[trigger] parts@[k]).position == voxels@[k].position && is_mesh_of(
                    parts@[k].mesh,
                    visible_faces_of(voxels@[k].position, voxels@),
                    voxels@[k].texture,
                ),
    {
        let voxel = voxels[i];
        let faces = visible_faces(&voxel.position, voxels);
        let mesh = voxel_mesh(faces, &voxel.texture);
        parts.push(ChunkMeshPart { position: voxel.position, mesh });
    }
    parts
}

/* ---------------------------------------------------------------------- */
/*      chunk bookkeeping                                                 */
/* ---------------------------------------------------------------------- */

/// The chunks that exist or are being generated, each listed once.
#[derive(Clone, Debug)]
pub struct ExistingChunks {
    chunks: Vec<ChunkPosition>,
}

impl View for ExistingChunks {
    type V = Set<ChunkPosition>;

    closed spec fn view(&self) -> Set<ChunkPosition> {
        self.chunks@.to_set()
    }
}

impl ExistingChunks {
    /// No chunk is listed twice.
    pub closed spec fn wf(&self) -> bool {
        self.chunks@.no_duplicates()
    }

    /// No chunk exists yet.
    pub fn new() -> (e: ExistingChunks)
        ensures
            e.wf(),
            e@ == Set::<ChunkPosition>::empty(),
    {
        let e = ExistingChunks { chunks: Vec::new() };
        assert(e.chunks@.to_set() =~= Set::<ChunkPosition>::empty());
        e
    }

    /// Number of chunks that exist.
    pub fn len(&self) -> (n: usize)
        requires
            self.wf(),
        ensures
            n == self@.len(),
    {
        proof {
            self.chunks@.unique_seq_to_set();
        }
        self.chunks.len()
    }

    fn index_of(&self, pos: &ChunkPosition) -> (r: Option<usize>)
        ensures
            match r {
                Some(k) => k < self.chunks@.len() && self.chunks@[k as int] == *pos,
                None => !self.chunks@.contains(*pos),
            },
    {
        for k in 0..self.chunks.len()
            invariant
                forall|j: int| 0 <= j < k ==> self.chunks@[j] != *pos,
        {
            if self.chunks[k] == *pos {
                return Some(k);
            }
        }
        None
    }

    /// Whether the chunk at `pos` exists.
    pub fn contains(&self, pos: &ChunkPosition) -> (r: bool)
        ensures
            r == self@.contains(*pos),
    {
        match self.index_of(pos) {
            Some(k) => {
                assert(self.chunks@.contains(*pos));
                true
            },
            None => false,
        }
    }

    /// Records that the chunk at `pos` exists; returns whether it was new.
    pub fn insert(&mut self, pos: ChunkPosition) -> (added: bool)
        requires
            old(self).wf(),
        ensures
            final(self).wf(),
            final(self)@ == old(self)@.insert(pos),
            added == !old(self)@.contains(pos),
    {
        match self.index_of(&pos) {
            Some(k) => {
                assert(self.chunks@.contains(pos));
                assert(self@.insert(pos) =~= self@);
                false
            },
            None => {
                let ghost before = self.chunks@;
                self.chunks.push(pos);
                assert(self.chunks@.no_duplicates()) by {
                    assert forall|i: int, j: int|
                        0 <= i < self.chunks@.len() && 0 <= j < self.chunks@.len() && i != j implies self.chunks@[i]
                        != self.chunks@[j] by {
                        if i == before.len() {
                            assert(before[j] == self.chunks@[j]);
                        }
                        if j == before.len() {
                            assert(before[i] == self.chunks@[i]);
                        }
                    }
                }
                assert(self.chunks@.to_set() =~= before.to_set().insert(pos)) by {
                    assert forall|p: ChunkPosition| #[trigger]
                        self.chunks@.to_set().contains(p) implies before.to_set().insert(
                        p,
                    ).contains(p) || p == pos by {}
                    assert forall|p: ChunkPosition| #[trigger]
                        before.to_set().insert(pos).contains(p) implies self.chunks@.contains(p) by {
                        if p != pos {
                            let k = choose|k: int| 0 <= k < before.len() && before[k] == p;
                            assert(self.chunks@[k] == p);
                        } else {
                            assert(self.chunks@[before.len() as int] == p);
                        }
                    }
                    assert forall|p: ChunkPosition| #[trigger]
                        self.chunks@.contains(p) implies before.to_set().insert(pos).contains(p) by {
                        let k = choose|k: int| 0 <= k < self.chunks@.len() && self.chunks@[k] == p;
                        if k < before.len() {
                            assert(before[k] == p);
                            assert(before.contains(p));
                        }
                    }
                }
                true
            },
        }
    }

    /// Records that the chunk at `pos` no longer exists; returns whether it
    /// existed.
    pub fn remove(&mut self, pos: &ChunkPosition) -> (removed: bool)
        requires
            old(self).wf(),
        ensures
            final(self).wf(),
            final(self)@ == old(self)@.remove(*pos),
            removed == old(self)@.contains(*pos),
    {
        match self.index_of(pos) {
            Some(k) => {
                let ghost before = self.chunks@;
                assert(before.contains(*pos));
                self.chunks.remove(k);
                assert(self.chunks@ =~= before.subrange(0, k as int) + before.subrange(
                    k + 1,
                    before.len() as int,
                ));
                assert forall|i: int|
                    0 <= i < self.chunks@.len() implies #[trigger] self.chunks@[i] == before[if i
                    < k {
                    i
                } else {
                    i + 1
                }] by {}
                assert(self.chunks@.no_duplicates()) by {
                    assert forall|i: int, j: int|
                        0 <= i < self.chunks@.len() && 0 <= j < self.chunks@.len() && i != j implies self.chunks@[i]
                        != self.chunks@[j] by {
                        let bi = if i < k {
                            i
                        } else {
                            i + 1
                        };
                        let bj = if j < k {
                            j
                        } else {
                            j + 1
                        };
                        assert(self.chunks@[i] == before[bi]);
                        assert(self.chunks@[j] == before[bj]);
                    }
                }
                assert(self.chunks@.to_set() =~= before.to_set().remove(*pos)) by {
                    assert forall|p: ChunkPosition| #[trigger]
                        self.chunks@.contains(p) implies before.contains(p) && p != *pos by {
                        let i = choose|i: int| 0 <= i < self.chunks@.len() && self.chunks@[i] == p;
                        let bi = if i < k {
                            i
                        } else {
                            i + 1
                        };
                        assert(before[bi] == p);
                        assert(bi != k);
                    }
                    assert forall|p: ChunkPosition|
                        before.contains(p) && p != *pos implies #[trigger] self.chunks@.contains(p) by {
                        let b = choose|b: int| 0 <= b < before.len() && before[b] == p;
                        assert(b != k);
                        let i = if b < k {
                            b
                        } else {
                            b - 1
                        };
                        assert(self.chunks@[i] == p);
                    }
                }
                true
            },
            None => {
                assert(self@.remove(*pos) =~= self@);
                false
            },
        }
    }
}

/// Whether `pos` is one of `chunks`.
pub fn contains_chunk(chunks: &Vec<ChunkPosition>, pos: &ChunkPosition) -> (r: bool)
    ensures
        r == chunks@.contains(*pos),
{
    for k in 0..chunks.len()
        invariant
            forall|j: int| 0 <= j < k ==> chunks@[j] != *pos,
    {
        if chunks[k] == *pos {
            assert(chunks@[k as int] == *pos);
            return true;
        }
    }
    false
}

/// The loaded chunks that lie outside `grid`.
pub open spec fn chunks_outside(loaded: Seq<ChunkPosition>, grid: Seq<ChunkPosition>) -> Set<
    ChunkPosition,
> {
    loaded.to_set().filter(|p: ChunkPosition| !grid.contains(p))
}

impl ExistingChunks {
    /// Decides which chunks of `grid` must be generated: those that do not
    /// exist yet, in the order of `grid`. All of `grid` exists afterwards.
    pub fn plan_spawns(&mut self, grid: &Vec<ChunkPosition>) -> (spawn: Vec<ChunkPosition>)
        requires
            old(self).wf(),
            grid@.no_duplicates(),
        ensures
            final(self).wf(),
            spawn@ == grid@.filter(|p: ChunkPosition| !old(self)@.contains(p)),
            final(self)@ == old(self)@.union(grid@.to_set()),
    {
        let ghost before = self@;
        let ghost pred = |p: ChunkPosition| !before.contains(p);
        let mut spawn: Vec<ChunkPosition> = Vec::new();
        for i in 0..grid.len()
            invariant
                self.wf(),
                grid@.no_duplicates(),
                pred == (|p: ChunkPosition| !before.contains(p)),
                self@ == before.union(grid@.take(i as int).to_set()),
                spawn@ == grid@.take(i as int).filter(pred),
        {
            reveal(Seq::filter);
            let pos = grid[i];
            let ghost done = grid@.take(i as int);
            assert(grid@.take(i + 1).drop_last() =~= done);
            assert(grid@.take(i + 1).last() == pos);
            assert(!done.contains(pos)) by {
                if done.contains(pos) {
                    let k = choose|k: int| 0 <= k < done.len() && done[k] == pos;
                    assert(grid@[k] == grid@[i as int]);
                }
            }
            assert(grid@.take(i + 1).to_set() =~= done.to_set().insert(pos)) by {
                assert forall|p: ChunkPosition|
                    #[trigger] grid@.take(i + 1).contains(p) implies done.contains(p) || p == pos by {
                    let next = grid@.take(i + 1);
                    let k = choose|k: int| 0 <= k < next.len() && next[k] == p;
                    if k < i {
                        assert(done[k] == p);
                    }
                }
                assert forall|p: ChunkPosition|
                    #[trigger] done.contains(p) implies grid@.take(i + 1).contains(p) by {
                    let k = choose|k: int| 0 <= k < done.len() && done[k] == p;
                    assert(grid@.take(i + 1)[k] == p);
                }
                assert(grid@.take(i + 1)[i as int] == pos);
            }
            let is_new = !self.contains(&pos);
            assert(is_new == pred(pos));
            if is_new {
                spawn.push(pos);
                self.insert(pos);
            }
            assert(self@ =~= before.union(grid@.take(i + 1).to_set()));
        }
        assert(grid@.take(grid@.len() as int) =~= grid@);
        spawn
    }

    /// Decides which of the `loaded` chunks to despawn: those outside `grid`
    /// (`despawn[i]` is the decision for `loaded[i]`). They no longer exist
    /// afterwards; every other chunk keeps its status.
    pub fn plan_despawns(
        &mut self,
        loaded: &Vec<ChunkPosition>,
        grid: &Vec<ChunkPosition>,
    ) -> (despawn: Vec<bool>)
        requires
            old(self).wf(),
        ensures
            final(self).wf(),
            despawn@.len() == loaded@.len(),
            forall|i: int|
                0 <= i < loaded@.len() ==> #[trigger] despawn@[i] == !grid@.contains(loaded@[i]),
            final(self)@ == old(self)@.difference(chunks_outside(loaded@, grid@)),
    {
        let ghost before = self@;
        let mut despawn: Vec<bool> = Vec::new();
        for i in 0..loaded.len()
            invariant
                self.wf(),
                despawn@.len() == i,
                forall|k: int|
                    0 <= k < i ==> #[trigger] despawn@[k] == !grid@.contains(loaded@[k]),
                self@ == before.difference(chunks_outside(loaded@.take(i as int), grid@)),
        {
            let pos = loaded[i];
            let ghost done = loaded@.take(i as int);
            assert(loaded@.take(i + 1).to_set() =~= done.to_set().insert(pos)) by {
                assert forall|p: ChunkPosition|
                    #[trigger] loaded@.take(i + 1).contains(p) implies done.contains(p) || p == pos by {
                    let next = loaded@.take(i + 1);
                    let k = choose|k: int| 0 <= k < next.len() && next[k] == p;
                    if k < i {
                        assert(done[k] == p);
                    }
                }
                assert forall|p: ChunkPosition|
                    #[trigger] done.contains(p) implies loaded@.take(i + 1).contains(p) by {
                    let k = choose|k: int| 0 <= k < done.len() && done[k] == p;
                    assert(loaded@.take(i + 1)[k] == p);
                }
                assert(loaded@.take(i + 1)[i as int] == pos);
            }
            let outside = !contains_chunk(grid, &pos);
            if outside {
                self.remove(&pos);
            }
            despawn.push(outside);
            assert(self@ =~= before.difference(chunks_outside(loaded@.take(i + 1), grid@)));
        }
        assert(loaded@.take(loaded@.len() as int) =~= loaded@);
        despawn
    }
}

/* ---------------------------------------------------------------------- */
/*      laws                                                              */
/* ---------------------------------------------------------------------- */

/// The grid holds `RENDER_DISTANCE` by `RENDER_DISTANCE` chunks (the render
/// distance being even, the player's chunk sits at the grid's centre), and a
/// chunk holds `CHUNK_SIZE_HORIZONTAL` by `CHUNK_SIZE_HORIZONTAL` voxels.
pub proof fn lemma_sizes()
    ensures
        CHUNK_GRID_LEN == RENDER_DISTANCE * RENDER_DISTANCE,
        RENDER_DISTANCE % 2 == 0,
        CHUNK_LEN == CHUNK_SIZE_HORIZONTAL * CHUNK_SIZE_HORIZONTAL,
{
}

/// The set of existing chunks keeps listing every chunk that exists or will
/// exist. If it is the union of the loaded chunks and the pending ones (being
/// computed), then after planning the spawns of `grid` it is the union of the
/// loaded chunks and of the pending ones together with the newly spawned.
pub proof fn lemma_existing_after_spawns(
    existing: Set<ChunkPosition>,
    loaded: Set<ChunkPosition>,
    pending: Set<ChunkPosition>,
    grid: Seq<ChunkPosition>,
)
    requires
        existing == loaded.union(pending),
    ensures
        existing.union(grid.to_set()) == loaded.union(
            pending.union(grid.filter(|p: ChunkPosition| !existing.contains(p)).to_set()),
        ),
{
    let pred = |p: ChunkPosition| !existing.contains(p);
    let spawned = grid.filter(pred);
    assert forall|p: ChunkPosition| #[trigger] grid.to_set().contains(p) && !existing.contains(p) implies spawned.to_set().contains(p) by {
        let k = choose|k: int| 0 <= k < grid.len() && grid[k] == p;
        grid.lemma_filter_contains(pred, k);
    }
    assert forall|p: ChunkPosition| #[trigger] spawned.to_set().contains(p) implies grid.to_set().contains(p) by {
        grid.lemma_filter_contains_rev(pred, p);
    }
    assert(existing.union(grid.to_set()) =~= loaded.union(pending.union(spawned.to_set())));
}

/// The same after planning despawns: when the existing chunks are the loaded
/// ones and the pending ones, and no pending chunk is loaded already, then
/// afterwards they are the loaded chunks that stay and the pending ones.
pub proof fn lemma_existing_after_despawns(
    existing: Set<ChunkPosition>,
    pending: Set<ChunkPosition>,
    loaded: Seq<ChunkPosition>,
    grid: Seq<ChunkPosition>,
)
    requires
        existing == loaded.to_set().union(pending),
        loaded.to_set().disjoint(pending),
    ensures
        existing.difference(chunks_outside(loaded, grid)) == loaded.to_set().difference(
            chunks_outside(loaded, grid),
        ).union(pending),
{
    assert forall|p: ChunkPosition| #[trigger] pending.contains(p) implies !chunks_outside(loaded, grid).contains(p) by {
        assert(!loaded.to_set().contains(p));
    }
    assert(existing.difference(chunks_outside(loaded, grid)) =~= loaded.to_set().difference(
        chunks_outside(loaded, grid),
    ).union(pending));
}

/// An index below `n * n` splits into a row and a column below `n`.
proof fn lemma_index_split(k: int, n: int)
    requires
        0 < n,
        0 <= k < n * n,
    ensures
        0 <= k / n < n,
        0 <= k % n < n,
        k == (k / n) * n + k % n,
{
    assert(0 <= k / n < n) by (nonlinear_arith)
        requires
            0 < n,
            0 <= k < n * n,
    ;
    assert(k == (k / n) * n + k % n) by (nonlinear_arith)
        requires
            0 < n,
    ;
}

/// The chunk grid around the chunk with corner `(cx, cz)` lists each chunk of
/// the square once; it holds exactly the chunks `cx + 32 i`, `cz + 32 j` with
/// `i`, `j` from `-half_render_distance()` up to `half_render_distance() - 1`;
/// among them the centre chunk `(cx, cz)` itself; and when the centre is
/// aligned to the chunk size, so is every chunk of the grid.
pub proof fn lemma_chunk_grid(grid: Seq<ChunkPosition>, cx: int, cz: int)
    requires
        is_chunk_grid(grid, cx, cz),
    ensures
        grid.no_duplicates(),
        forall|p: ChunkPosition|
            grid.contains(p) <==> exists|i: int, j: int|
                0 <= i < RENDER_DISTANCE && 0 <= j < RENDER_DISTANCE && p.x as int
                    == #[trigger] grid_cell(cx, cz, i, j).0 && p.z as int == grid_cell(
                    cx,
                    cz,
                    i,
                    j,
                ).1,
        exists|k: int| 0 <= k < grid.len() && grid[k].x == cx && grid[k].z == cz,
        forall|i: int, j: int|
            0 <= i < RENDER_DISTANCE && 0 <= j < RENDER_DISTANCE ==> {
                let p = #[trigger] grid_at(grid, i, j);
                &&& p.x == cx + (i - RENDER_DISTANCE / 2) * CHUNK_SIZE_HORIZONTAL
                &&& p.z == cz + (j - RENDER_DISTANCE / 2) * CHUNK_SIZE_HORIZONTAL
            },
        forall|p: ChunkPosition|
            grid.contains(p) <==> exists|i: int, j: int|
                0 <= i < RENDER_DISTANCE && 0 <= j < RENDER_DISTANCE && #[trigger] grid_at(
                    grid,
                    i,
                    j,
                ) == p && p.x == cx + (i - RENDER_DISTANCE / 2) * CHUNK_SIZE_HORIZONTAL && p.z
                    == cz + (j - RENDER_DISTANCE / 2) * CHUNK_SIZE_HORIZONTAL,
        cx % CHUNK_SIZE_HORIZONTAL as int == 0 && cz % CHUNK_SIZE_HORIZONTAL as int == 0 ==> forall|
            k: int,
        |
            0 <= k < grid.len() ==> (#[trigger] grid[k]).x % CHUNK_SIZE_HORIZONTAL == 0
                && grid[k].z % CHUNK_SIZE_HORIZONTAL == 0,
{
    assert forall|k: int| 0 <= k < grid.len() implies {
        let i = k / 16;
        let j = k % 16;
        &&& 0 <= i < 16
        &&& 0 <= j < 16
        &&& #[trigger] grid[k] == grid_at(grid, i, j)
    } by {
        lemma_index_split(k, 16);
    }
    assert forall|a: int, b: int|
        0 <= a < grid.len() && 0 <= b < grid.len() && a != b implies grid[a] != grid[b] by {
        lemma_index_split(a, 16);
        lemma_index_split(b, 16);
        let (ia, ja) = (a / 16, a % 16);
        let (ib, jb) = (b / 16, b % 16);
        assert(grid[a] == grid_at(grid, ia, ja));
        assert(grid[b] == grid_at(grid, ib, jb));
    }
    assert forall|p: ChunkPosition|
        grid.contains(p) <==> exists|i: int, j: int|
            0 <= i < RENDER_DISTANCE && 0 <= j < RENDER_DISTANCE && p.x as int == #[trigger] grid_cell(
                cx,
                cz,
                i,
                j,
            ).0 && p.z as int == grid_cell(cx, cz, i, j).1 by {
        if grid.contains(p) {
            let k = choose|k: int| 0 <= k < grid.len() && grid[k] == p;
            lemma_index_split(k, 16);
            assert(grid[k] == grid_at(grid, k / 16, k % 16));
        }
        if exists|i: int, j: int|
            0 <= i < RENDER_DISTANCE && 0 <= j < RENDER_DISTANCE && p.x as int == #[trigger] grid_cell(
                cx,
                cz,
                i,
                j,
            ).0 && p.z as int == grid_cell(cx, cz, i, j).1 {
            let (i, j) = choose|i: int, j: int|
                0 <= i < RENDER_DISTANCE && 0 <= j < RENDER_DISTANCE && p.x as int
                    == #[trigger] grid_cell(cx, cz, i, j).0 && p.z as int == grid_cell(
                    cx,
                    cz,
                    i,
                    j,
                ).1;
            let q = grid_at(grid, i, j);
            assert(0 <= i * 16 + j < 256) by (nonlinear_arith)
                requires
                    0 <= i < 16,
                    0 <= j < 16,
            ;
            assert(grid[i * 16 + j] == p);
        }
    }
    assert(grid[136int] == grid_at(grid, 8, 8));
    if cx % 32 == 0 && cz % 32 == 0 {
        assert forall|k: int| 0 <= k < grid.len() implies (#[trigger] grid[k]).x % 32 == 0
            && grid[k].z % 32 == 0 by {
            lemma_index_split(k, 16);
            let (i, j) = (k / 16, k % 16);
            assert(grid[k] == grid_at(grid, i, j));
            assert((cx + (i - 8) * 32) % 32 == 0) by (nonlinear_arith)
                requires
                    cx % 32 == 0,
            ;
            assert((cz + (j - 8) * 32) % 32 == 0) by (nonlinear_arith)
                requires
                    cz % 32 == 0,
            ;
        }
    }
}

/// Planning the spawns of the same grid twice in a row spawns nothing the
/// second time: the first pass already recorded every chunk of the grid.
pub proof fn lemma_plan_spawns_idempotent(existing: Set<ChunkPosition>, grid: Seq<ChunkPosition>)
    ensures
        grid.filter(|p: ChunkPosition| !existing.union(grid.to_set()).contains(p)) == Seq::<
            ChunkPosition,
        >::empty(),
{
    let pred = |p: ChunkPosition| !existing.union(grid.to_set()).contains(p);
    broadcast use vstd::seq_lib::group_filter_ensures;

    if grid.filter(pred).len() > 0 {
        let x = grid.filter(pred)[0];
        assert(pred(x));
        assert(grid.filter(pred).contains(x));
        grid.lemma_filter_contains_rev(pred, x);
        assert(grid.to_set().contains(x));
    }
    assert(grid.filter(pred) =~= Seq::<ChunkPosition>::empty());
}

/// Planning despawns never removes a chunk of the grid, and afterwards no
/// loaded chunk outside the grid is recorded.
pub proof fn lemma_plan_despawns_keeps_grid(
    existing: Set<ChunkPosition>,
    loaded: Seq<ChunkPosition>,
    grid: Seq<ChunkPosition>,
)
    ensures
        forall|p: ChunkPosition|
            grid.contains(p) ==> (#[trigger] existing.difference(
                chunks_outside(loaded, grid),
            ).contains(p) <==> existing.contains(p)),
        forall|k: int|
            0 <= k < loaded.len() && !grid.contains(#[trigger] loaded[k]) ==> !existing.difference(
                chunks_outside(loaded, grid),
            ).contains(loaded[k]),
{
    assert forall|k: int| 0 <= k < loaded.len() && !grid.contains(#[trigger] loaded[k]) implies !existing.difference(
        chunks_outside(loaded, grid),
    ).contains(loaded[k]) by {
        assert(loaded.to_set().contains(loaded[k]));
    }
}

} // verus!
