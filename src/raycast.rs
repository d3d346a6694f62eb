//! The cell-level decisions of voxel picking: given the cells that a ray visits inside one
//! chunk, in order, which one it stops at and through which face it entered.
use vstd::prelude::*;
use crate::chunk::Chunk;
use crate::coords::{ChunkCoord, IVec3, WorldCoord, linear_index};
use crate::cell::empty_cell;

verus! {

/// Largest magnitude of a path coordinate, relative to the chunk.
pub const PATH_BOUND: i32 = 1073741823;

/// `c` is a position inside the chunk whose cell is occupied.
pub open spec fn occupied_cell(chunk: &Chunk, c: IVec3) -> bool {
    &&& 0 <= c.x < 32 && 0 <= c.y < 32 && 0 <= c.z < 32
    &&& chunk.voxels@[linear_index(c.x as int, c.y as int, c.z as int)] != empty_cell()
}

/// Each coordinate of each position of `path` is at most `PATH_BOUND` in magnitude.
pub open spec fn path_bounded(path: Seq<IVec3>) -> bool {
    forall|i: int|
        0 <= i < path.len() ==> -PATH_BOUND <= (#[trigger] path[i]).x <= PATH_BOUND && -PATH_BOUND
            <= path[i].y <= PATH_BOUND && -PATH_BOUND <= path[i].z <= PATH_BOUND
}

/// Where a path of cells first meets an occupied cell.
#[derive(Clone, Copy, Debug, PartialEq, Eq, Hash, Structural)]
pub struct PathHit {
    /// Position in the path of the cell hit.
    pub index: usize,
    /// The cell hit.
    pub world_coord: WorldCoord,
    /// The face through which the path entered the cell: the step from the previous cell,
    /// reversed. `None` when the path starts inside the cell.
    pub normal: Option<IVec3>,
}

/// The first occupied cell of `path`, a sequence of positions relative to the first cell of
/// `chunk_coord`; `None` when the path meets no occupied cell of `chunk`.
pub fn first_hit_on_path(chunk: &Chunk, chunk_coord: &ChunkCoord, path: &Vec<IVec3>) -> (r: Option<PathHit>)
    requires
        chunk.wf(),
        chunk_coord.valid(),
        path_bounded(path@),
    ensures
        r.is_none() == (forall|i: int| 0 <= i < path@.len() ==> !occupied_cell(chunk, #[trigger] path@[i])),
        r.is_some() ==> {
            let h = r.unwrap();
            let c = path@[h.index as int];
            &&& h.index < path@.len()
            &&& occupied_cell(chunk, c)
            &&& forall|j: int| 0 <= j < h.index ==> !occupied_cell(chunk, #[trigger] path@[j])
            &&& h.world_coord == chunk_coord.cell_spec(c.x as int, c.y as int, c.z as int)
            &&& h.normal == if h.index == 0 {
                None::<IVec3>
            } else {
                let p = path@[h.index - 1];
                Some(IVec3 { x: (p.x - c.x) as i32, y: (p.y - c.y) as i32, z: (p.z - c.z) as i32 })
            }
        },
{
    let mut i: usize = 0;
    while i < path.len()
        invariant
            chunk.wf(),
            chunk_coord.valid(),
            path_bounded(path@),
            0 <= i <= path@.len(),
            forall|j: int| 0 <= j < i ==> !occupied_cell(chunk, #[trigger] path@[j]),
        decreases path@.len() - i,
    {
        let c = path[i];
        if chunk.occupied_at(c.x, c.y, c.z) {
            let first = chunk_coord.first_cell_coord();
            let world_coord = WorldCoord(IVec3::new(first.0.x + c.x, first.0.y + c.y, first.0.z + c.z));
            let normal = if i == 0 {
                None
            } else {
                let p = path[i - 1];
                Some(IVec3::new(p.x - c.x, p.y - c.y, p.z - c.z))
            };
            return Some(PathHit { index: i, world_coord, normal });
        }
        i = i + 1;
    }
    None
}

} // verus!
