use vstd::prelude::*;

use crate::voxel::{VoxelData, VoxelPos};

verus! {

/// A structure (tree, bush, rock, ...) to be placed on a voxel: the structure's
/// number in the list of structure kinds and the voxel's number in the chunk.
#[derive(Clone, Copy, PartialEq, Eq, Structural, Debug)]
pub struct Placement {
    pub structure: usize,
    pub voxel: usize,
}

/// `(i2, v2)` comes before `(i, v)`: structures are tried one after the other,
/// and for each structure the voxels one after the other.
pub open spec fn tried_before(i2: int, v2: int, i: int, v: int) -> bool {
    i2 < i || (i2 == i && v2 < v)
}

/// Structure `i` passes its spawn test on voxel `v`.
pub open spec fn passes_at(passes: Seq<Vec<bool>>, i: int, v: int) -> bool {
    passes[i]@[v]
}

/// Some pair tried before `(i, v)` passed its test on a voxel at the position
/// of voxel `v`, which thereby holds a structure already.
pub open spec fn claimed_before(
    voxels: Seq<VoxelData>,
    passes: Seq<Vec<bool>>,
    i: int,
    v: int,
) -> bool {
    exists|i2: int, v2: int|
        #![trigger passes_at(passes, i2, v2), voxels[v2]]
        0 <= i2 < passes.len() && 0 <= v2 < voxels.len() && tried_before(i2, v2, i, v)
            && passes_at(passes, i2, v2) && voxels[v2].position == voxels[v].position
}

/// Structure `i` is placed on voxel `v`: it passes its test there and the
/// position of the voxel has not been claimed before.
pub open spec fn spawns_at(voxels: Seq<VoxelData>, passes: Seq<Vec<bool>>, i: int, v: int) -> bool {
    passes_at(passes, i, v) && !claimed_before(voxels, passes, i, v)
}

/// The voxels stand at pairwise distinct positions (as those of a chunk do).
pub open spec fn distinct_positions(voxels: Seq<VoxelData>) -> bool {
    forall|a: int, b: int|
        0 <= a < b < voxels.len() ==> !((#[trigger] voxels[a]).position.x == (
        #[trigger] voxels[b]).position.x && voxels[a].position.y == voxels[b].position.y
            && voxels[a].position.z == voxels[b].position.z)
}

/// A voxel is claimed before `(i, v)` only by an earlier passing pair on a
/// voxel at the very same position: same x, same y and same z.
pub proof fn lemma_claimed_only_by_same_position(
    voxels: Seq<VoxelData>,
    passes: Seq<Vec<bool>>,
    i: int,
    v: int,
)
    requires
        0 <= v < voxels.len(),
    ensures
        claimed_before(voxels, passes, i, v) <==> exists|i2: int, v2: int|
            #![trigger passes[i2]@[v2], voxels[v2]]
            0 <= i2 < passes.len() && 0 <= v2 < voxels.len() && (i2 < i || (i2 == i && v2 < v))
                && passes[i2]@[v2] && voxels[v2].position.x == voxels[v].position.x
                && voxels[v2].position.y == voxels[v].position.y && voxels[v2].position.z
                == voxels[v].position.z,
{
    if claimed_before(voxels, passes, i, v) {
        let (i2, v2) = choose|i2: int, v2: int|
            #![trigger passes_at(passes, i2, v2), voxels[v2]]
            0 <= i2 < passes.len() && 0 <= v2 < voxels.len() && tried_before(i2, v2, i, v)
                && passes_at(passes, i2, v2) && voxels[v2].position == voxels[v].position;
        assert(passes[i2]@[v2]);
    }
    if exists|i2: int, v2: int|
        #![trigger passes[i2]@[v2], voxels[v2]]
        0 <= i2 < passes.len() && 0 <= v2 < voxels.len() && (i2 < i || (i2 == i && v2 < v))
            && passes[i2]@[v2] && voxels[v2].position.x == voxels[v].position.x
            && voxels[v2].position.y == voxels[v].position.y && voxels[v2].position.z
            == voxels[v].position.z {
        let (i2, v2) = choose|i2: int, v2: int|
            #![trigger passes[i2]@[v2], voxels[v2]]
            0 <= i2 < passes.len() && 0 <= v2 < voxels.len() && (i2 < i || (i2 == i && v2 < v))
                && passes[i2]@[v2] && voxels[v2].position.x == voxels[v].position.x
                && voxels[v2].position.y == voxels[v].position.y && voxels[v2].position.z
                == voxels[v].position.z;
        assert(passes_at(passes, i2, v2));
        assert(voxels[v2].position == voxels[v].position);
    }
}

/// On voxels at distinct positions, structure `i` is placed on voxel `v`
/// exactly when it is the first structure that passes there.
pub proof fn lemma_first_passing_structure(
    voxels: Seq<VoxelData>,
    passes: Seq<Vec<bool>>,
    i: int,
    v: int,
)
    requires
        distinct_positions(voxels),
        0 <= i < passes.len(),
        0 <= v < voxels.len(),
    ensures
        spawns_at(voxels, passes, i, v) <==> (passes[i]@[v] && forall|i2: int|
            0 <= i2 < i ==> !(#[trigger] passes[i2]@[v])),
{
    lemma_claimed_only_by_same_position(voxels, passes, i, v);
    if claimed_before(voxels, passes, i, v) {
        let (i2, v2) = choose|i2: int, v2: int|
            #![trigger passes[i2]@[v2], voxels[v2]]
            0 <= i2 < passes.len() && 0 <= v2 < voxels.len() && (i2 < i || (i2 == i && v2 < v))
                && passes[i2]@[v2] && voxels[v2].position.x == voxels[v].position.x
                && voxels[v2].position.y == voxels[v].position.y && voxels[v2].position.z
                == voxels[v].position.z;
        if v2 < v {
            assert(!(voxels[v2].position.x == voxels[v].position.x && voxels[v2].position.y
                == voxels[v].position.y && voxels[v2].position.z == voxels[v].position.z));
        } else if v < v2 {
            assert(!(voxels[v].position.x == voxels[v2].position.x && voxels[v].position.y
                == voxels[v2].position.y && voxels[v].position.z == voxels[v2].position.z));
        }
        assert(v2 == v);
        assert(i2 < i);
    }
    assert forall|i2: int| 0 <= i2 < i && #[trigger] passes[i2]@[v] implies claimed_before(
        voxels,
        passes,
        i,
        v,
    ) by {
        assert(passes_at(passes, i2, v));
    }
}

/// The placements of structures on the voxels of a chunk. `passes[i]@[v]` says
/// whether structure `i` passes its spawn test on voxel `v` (it may stand on the
/// voxel's texture, and the structure's noise there reaches the structure's
/// threshold for that texture). Structures are tried in order, and for each the
/// voxels in order; a structure is placed where it passes, unless a structure
/// was already placed at that position. The placements come in the order they
/// were made.
pub fn place_structures(voxels: &Vec<VoxelData>, passes: &Vec<Vec<bool>>) -> (placed: Vec<
    Placement,
>)
    requires
        forall|i: int| 0 <= i < passes@.len() ==> (#[trigger] passes@[i])@.len() == voxels@.len(),
    ensures
        forall|k: int|
            0 <= k < placed@.len() ==> {
                let p = #[trigger] placed@[k];
                &&& p.structure < passes@.len()
                &&& p.voxel < voxels@.len()
                &&& spawns_at(voxels@, passes@, p.structure as int, p.voxel as int)
            },
        forall|k1: int, k2: int|
            0 <= k1 < k2 < placed@.len() ==> tried_before(
                #[trigger] placed@[k1].structure as int,
                placed@[k1].voxel as int,
                #[trigger] placed@[k2].structure as int,
                placed@[k2].voxel as int,
            ),
        forall|i: int, v: int|
            0 <= i < passes@.len() && 0 <= v < voxels@.len() && #[trigger] spawns_at(voxels@, passes@, i, v)
                ==> exists|k: int|
                0 <= k < placed@.len() && #[trigger] placed@[k] == (Placement {
                    structure: i as usize,
                    voxel: v as usize,
                }),
        forall|k1: int, k2: int|
            0 <= k1 < placed@.len() && 0 <= k2 < placed@.len() && k1 != k2 ==> voxels@[
            #[trigger] placed@[k1].voxel as int].position != voxels@[
            #[trigger] placed@[k2].voxel as int].position,
        distinct_positions(voxels@) ==> forall|i: int, v: int|
            0 <= i < passes@.len() && 0 <= v < voxels@.len() && #[trigger] passes@[i]@[v] && (
            forall|i2: int| 0 <= i2 < i ==> !(#[trigger] passes@[i2]@[v])) ==> exists|k: int|
                0 <= k < placed@.len() && #[trigger] placed@[k] == (Placement {
                    structure: i as usize,
                    voxel: v as usize,
                }),
        distinct_positions(voxels@) ==> forall|k: int, i2: int|
            0 <= k < placed@.len() && 0 <= i2 < placed@[k].structure ==> !(
            #[trigger] passes@[i2]@[(#[trigger] placed@[k]).voxel as int]),
{
    // the positions that already hold a structure
    let mut taken_blocks: Vec<VoxelPos> = Vec::new();
    let mut placed: Vec<Placement> = Vec::new();
    let n_voxels = voxels.len();

    for i in 0..passes.len()
        invariant
            n_voxels == voxels@.len(),
            forall|i: int| 0 <= i < passes@.len() ==> (#[trigger] passes@[i])@.len() == voxels@.len(),
            forall|p: VoxelPos| #[trigger]
                taken_blocks@.contains(p) <==> exists|i2: int, v2: int|
                    #![trigger passes_at(passes@, i2, v2), voxels@[v2]]
                    0 <= i2 < i && 0 <= v2 < voxels@.len() && passes_at(passes@, i2, v2)
                        && voxels@[v2].position == p,
            forall|k: int|
                0 <= k < placed@.len() ==> {
                    let p = #[trigger] placed@[k];
                    &&& p.structure < i
                    &&& p.voxel < voxels@.len()
                    &&& spawns_at(voxels@, passes@, p.structure as int, p.voxel as int)
                },
            forall|k1: int, k2: int|
                0 <= k1 < k2 < placed@.len() ==> tried_before(
                    #[trigger] placed@[k1].structure as int,
                    placed@[k1].voxel as int,
                    #[trigger] placed@[k2].structure as int,
                    placed@[k2].voxel as int,
                ),
            forall|i2: int, v: int|
                0 <= i2 < i && 0 <= v < voxels@.len() && #[trigger] spawns_at(voxels@, passes@, i2, v)
                    ==> exists|k: int|
                    0 <= k < placed@.len() && #[trigger] placed@[k] == (Placement {
                        structure: i2 as usize,
                        voxel: v as usize,
                    }),
    {
        let row = &passes[i];
        assert(row@.len() == voxels@.len());
        for v in 0..n_voxels
            invariant
                n_voxels == voxels@.len(),
                row@.len() == voxels@.len(),
                *row == passes@[i as int],
                i < passes@.len(),
                forall|i: int|
                    0 <= i < passes@.len() ==> (#[trigger] passes@[i])@.len() == voxels@.len(),
                forall|p: VoxelPos| #[trigger]
                    taken_blocks@.contains(p) <==> exists|i2: int, v2: int|
                        #![trigger passes_at(passes@, i2, v2), voxels@[v2]]
                        0 <= i2 < passes@.len() && 0 <= v2 < voxels@.len() && tried_before(
                            i2,
                            v2,
                            i as int,
                            v as int,
                        ) && passes_at(passes@, i2, v2) && voxels@[v2].position == p,
                forall|k: int|
                    0 <= k < placed@.len() ==> {
                        let p = #[trigger] placed@[k];
                        &&& tried_before(p.structure as int, p.voxel as int, i as int, v as int)
                        &&& p.voxel < voxels@.len()
                        &&& spawns_at(voxels@, passes@, p.structure as int, p.voxel as int)
                    },
                forall|k1: int, k2: int|
                    0 <= k1 < k2 < placed@.len() ==> tried_before(
                        #[trigger] placed@[k1].structure as int,
                        placed@[k1].voxel as int,
                        #[trigger] placed@[k2].structure as int,
                        placed@[k2].voxel as int,
                    ),
                forall|i2: int, v2: int|
                    0 <= i2 < passes@.len() && 0 <= v2 < voxels@.len() && tried_before(
                        i2,
                        v2,
                        i as int,
                        v as int,
                    ) && #[trigger] spawns_at(voxels@, passes@, i2, v2) ==> exists|k: int|
                        0 <= k < placed@.len() && #[trigger] placed@[k] == (Placement {
                            structure: i2 as usize,
                            voxel: v2 as usize,
                        }),
        {
            let local_pos = voxels[v].position;
            let ghost before_taken = taken_blocks@;
            let ghost before_placed = placed@;
            assert(passes_at(passes@, i as int, v as int) == row@[v as int]);
            if row[v] {
                let mut already = false;
                for t in 0..taken_blocks.len()
                    invariant
                        already == (exists|t2: int| 0 <= t2 < t && taken_blocks@[t2] == local_pos),
                {
                    if taken_blocks[t] == local_pos {
                        already = true;
                    }
                }
                assert(already == taken_blocks@.contains(local_pos));
                // claimed before (i, v) exactly when the position is taken
                assert(claimed_before(voxels@, passes@, i as int, v as int)
                    == taken_blocks@.contains(local_pos));
                if !already {
                    taken_blocks.push(local_pos);
                    placed.push(Placement { structure: i, voxel: v });
                    assert(placed@[placed@.len() - 1] == Placement { structure: i, voxel: v });
                }
            }
            assert forall|p: VoxelPos| #[trigger]
                taken_blocks@.contains(p) <==> exists|i2: int, v2: int|
                    #![trigger passes_at(passes@, i2, v2), voxels@[v2]]
                    0 <= i2 < passes@.len() && 0 <= v2 < voxels@.len() && tried_before(
                        i2,
                        v2,
                        i as int,
                        v + 1,
                    ) && passes_at(passes@, i2, v2) && voxels@[v2].position == p by {
                if taken_blocks@.contains(p) {
                    let t = choose|t: int| 0 <= t < taken_blocks@.len() && taken_blocks@[t] == p;
                    if t < before_taken.len() {
                        assert(before_taken[t] == p);
                        assert(before_taken.contains(p));
                    } else {
                        assert(passes_at(passes@, i as int, v as int)
                            && voxels@[v as int].position == p);
                    }
                }
                if before_taken.contains(p) {
                    let t = choose|t: int| 0 <= t < before_taken.len() && before_taken[t] == p;
                    assert(taken_blocks@[t] == p);
                }
                if passes_at(passes@, i as int, v as int) && voxels@[v as int].position == p {
                    if !before_taken.contains(p) {
                        assert(taken_blocks@[taken_blocks@.len() - 1] == p);
                    }
                }
            }
            assert forall|i2: int, v2: int|
                0 <= i2 < passes@.len() && 0 <= v2 < voxels@.len() && tried_before(
                    i2,
                    v2,
                    i as int,
                    v + 1,
                ) && #[trigger] spawns_at(voxels@, passes@, i2, v2) implies exists|k: int|
                0 <= k < placed@.len() && #[trigger] placed@[k] == (Placement {
                    structure: i2 as usize,
                    voxel: v2 as usize,
                }) by {
                if tried_before(i2, v2, i as int, v as int) {
                    let k = choose|k: int|
                        0 <= k < before_placed.len() && #[trigger] before_placed[k] == (Placement {
                            structure: i2 as usize,
                            voxel: v2 as usize,
                        });
                    assert(placed@[k] == before_placed[k]);
                } else {
                    assert(i2 == i && v2 == v);
                    assert(placed@[placed@.len() - 1] == Placement { structure: i, voxel: v });
                }
            }
        }
    }
    assert forall|k1: int, k2: int|
        0 <= k1 < placed@.len() && 0 <= k2 < placed@.len() && k1 != k2 implies voxels@[
        #[trigger] placed@[k1].voxel as int].position != voxels@[
        #[trigger] placed@[k2].voxel as int].position by {
        let (a, b) = if k1 < k2 {
            (placed@[k1], placed@[k2])
        } else {
            (placed@[k2], placed@[k1])
        };
        assert(tried_before(a.structure as int, a.voxel as int, b.structure as int, b.voxel as int));
        assert(passes_at(passes@, a.structure as int, a.voxel as int));
        assert(!claimed_before(voxels@, passes@, b.structure as int, b.voxel as int));
    }
    proof {
        if distinct_positions(voxels@) {
            assert forall|i: int, v: int|
                0 <= i < passes@.len() && 0 <= v < voxels@.len() && #[trigger] passes@[i]@[v] && (
                forall|i2: int| 0 <= i2 < i ==> !(#[trigger] passes@[i2]@[v])) implies exists|k: int|
                0 <= k < placed@.len() && #[trigger] placed@[k] == (Placement {
                    structure: i as usize,
                    voxel: v as usize,
                }) by {
                lemma_first_passing_structure(voxels@, passes@, i, v);
                assert(spawns_at(voxels@, passes@, i, v));
            }
            assert forall|k: int, i2: int|
                0 <= k < placed@.len() && 0 <= i2 < placed@[k].structure implies !(
                #[trigger] passes@[i2]@[(#[trigger] placed@[k]).voxel as int]) by {
                let p = placed@[k];
                lemma_first_passing_structure(voxels@, passes@, p.structure as int, p.voxel as int);
            }
        }
    }
    placed
}

} // verus!
