use vstd::prelude::*;

use crate::chunk::ChunkPosition;

verus! {

/// Side of the square of chunks spawned around the player, in chunks.
pub const AREA_CHUNKS: i32 = 3;

/// Side of a chunk along x and z, in blocks.
pub const AREA_CHUNK_SIZE: i32 = 32;

/// Offset, in blocks, from the player's block to the corner of the first chunk
/// of the square (half the square, so that the player stands in its centre).
pub open spec fn area_start() -> int {
    -(AREA_CHUNK_SIZE as int * AREA_CHUNKS as int) / 2
}

/// The corner of chunk `(i, j)` of the square around the player standing on
/// block column `(px, pz)`.
pub open spec fn area_cell(px: int, pz: int, i: int, j: int) -> (int, int) {
    (px + area_start() + AREA_CHUNK_SIZE as int * i, pz + area_start() + AREA_CHUNK_SIZE as int * j)
}

/// The square around `(px, pz)` can be computed in `i32`.
pub open spec fn area_in_range(px: int, pz: int) -> bool {
    &&& i32::MIN <= px + area_start()
    &&& px + area_start() + AREA_CHUNK_SIZE as int * (AREA_CHUNKS as int - 1) <= i32::MAX
    &&& i32::MIN <= pz + area_start()
    &&& pz + area_start() + AREA_CHUNK_SIZE as int * (AREA_CHUNKS as int - 1) <= i32::MAX
}

/// The corners of the `AREA_CHUNKS` by `AREA_CHUNKS` chunks spawned around a
/// player standing on block column `(px, pz)` (the player's coordinates
/// rounded), x outer and z inner, so that the player stands in the middle
/// chunk.
pub fn spawn_area_chunks(px: i32, pz: i32) -> (chunks: Vec<ChunkPosition>)
    requires
        area_in_range(px as int, pz as int),
    ensures
        chunks@.len() == AREA_CHUNKS * AREA_CHUNKS,
        forall|i: int, j: int|
            0 <= i < AREA_CHUNKS && 0 <= j < AREA_CHUNKS ==> {
                let p = #[trigger] chunks@[AREA_CHUNKS * i + j];
                &&& p.x as int == area_cell(px as int, pz as int, i, j).0
                &&& p.z as int == area_cell(px as int, pz as int, i, j).1
            },
        chunks@[4].x <= px < chunks@[4].x + AREA_CHUNK_SIZE,
        chunks@[4].z <= pz < chunks@[4].z + AREA_CHUNK_SIZE,
{
    let start_offset: i32 = -(AREA_CHUNK_SIZE * AREA_CHUNKS) / 2;
    assert(start_offset == area_start());
    let mut chunks: Vec<ChunkPosition> = Vec::new();
    for chunk_x in 0..AREA_CHUNKS
        invariant
            start_offset == area_start(),
            area_in_range(px as int, pz as int),
            chunks@.len() == AREA_CHUNKS * chunk_x,
            forall|i: int, j: int|
                0 <= i < chunk_x && 0 <= j < AREA_CHUNKS ==> {
                    let p = #[trigger] chunks@[AREA_CHUNKS * i + j];
                    &&& p.x as int == area_cell(px as int, pz as int, i, j).0
                    &&& p.z as int == area_cell(px as int, pz as int, i, j).1
                },
    {
        for chunk_z in 0..AREA_CHUNKS
            invariant
                0 <= chunk_x < AREA_CHUNKS,
                start_offset == area_start(),
                area_in_range(px as int, pz as int),
                chunks@.len() == AREA_CHUNKS * chunk_x + chunk_z,
                forall|i: int, j: int|
                    (0 <= i < chunk_x && 0 <= j < AREA_CHUNKS) || (i == chunk_x && 0 <= j
                        < chunk_z) ==> {
                        let p = #[trigger] chunks@[AREA_CHUNKS * i + j];
                        &&& p.x as int == area_cell(px as int, pz as int, i, j).0
                        &&& p.z as int == area_cell(px as int, pz as int, i, j).1
                    },
        {
            let chunk_pos_x = px + start_offset + AREA_CHUNK_SIZE * chunk_x;
            let chunk_pos_z = pz + start_offset + AREA_CHUNK_SIZE * chunk_z;
            let ghost before = chunks@;
            chunks.push(ChunkPosition::new(chunk_pos_x, chunk_pos_z));
            assert forall|i: int, j: int|
                (0 <= i < chunk_x && 0 <= j < AREA_CHUNKS) || (i == chunk_x && 0 <= j < chunk_z
                    + 1) implies {
                let p = #[trigger] chunks@[AREA_CHUNKS * i + j];
                &&& p.x as int == area_cell(px as int, pz as int, i, j).0
                &&& p.z as int == area_cell(px as int, pz as int, i, j).1
            } by {
                if i < chunk_x || j < chunk_z {
                    assert(3 * i + j < before.len());
                    assert(chunks@[3 * i + j] == before[3 * i + j]);
                }
            }
        }
    }
    assert(chunks@[4] == chunks@[AREA_CHUNKS * 1 + 1]);
    chunks
}

/// Whether block column `(bx, bz)` lies in the chunk with corner `chunk`.
pub fn chunk_contains(chunk: &ChunkPosition, bx: i32, bz: i32) -> (r: bool)
    ensures
        r == (chunk.x <= bx < chunk.x + AREA_CHUNK_SIZE && chunk.z <= bz < chunk.z
            + AREA_CHUNK_SIZE),
{
    let min_x = chunk.x as i64;
    let max_x = chunk.x as i64 + AREA_CHUNK_SIZE as i64;
    let min_z = chunk.z as i64;
    let max_z = chunk.z as i64 + AREA_CHUNK_SIZE as i64;
    bx as i64 >= min_x && (bx as i64) < max_x && bz as i64 >= min_z && (bz as i64) < max_z
}

} // verus!
