//! A dense 32x32x32 block of cells that counts its occupied cells.
use vstd::prelude::*;
use crate::cell::{PbrProps, empty_cell};
use crate::coords::{COUNT, LocalCoord, UVec3, linear_index};

verus! {

/// 1 for an occupied cell, 0 for the empty one.
pub open spec fn occupancy(p: PbrProps) -> nat {
    if p == empty_cell() {
        0
    } else {
        1
    }
}

/// Number of occupied cells in `s`.
pub open spec fn count_occupied(s: Seq<PbrProps>) -> nat
    decreases s.len(),
{
    if s.len() == 0 {
        0
    } else {
        count_occupied(s.drop_last()) + occupancy(s.last())
    }
}

pub proof fn lemma_count_bounded(s: Seq<PbrProps>)
    ensures
        count_occupied(s) <= s.len(),
    decreases s.len(),
{
    if s.len() > 0 {
        lemma_count_bounded(s.drop_last());
    }
}

/// Writing `v` at `i` changes the number of occupied cells by the occupancy of `v` less that
/// of the cell it replaces.
pub proof fn lemma_count_update(s: Seq<PbrProps>, i: int, v: PbrProps)
    requires
        0 <= i < s.len(),
    ensures
        count_occupied(s.update(i, v)) + occupancy(s[i]) == count_occupied(s) + occupancy(v),
    decreases s.len(),
{
    let t = s.update(i, v);
    if i == s.len() - 1 {
        assert(t.drop_last() =~= s.drop_last());
    } else {
        lemma_count_update(s.drop_last(), i, v);
        assert(t.drop_last() =~= s.drop_last().update(i, v));
    }
}

/// A sequence of empty cells has no occupied cell.
pub proof fn lemma_count_all_empty(s: Seq<PbrProps>)
    requires
        forall|i: int| 0 <= i < s.len() ==> s[i] == empty_cell(),
    ensures
        count_occupied(s) == 0,
    decreases s.len(),
{
    if s.len() > 0 {
        lemma_count_all_empty(s.drop_last());
    }
}

/// A sequence with no occupied cell holds only empty cells.
pub proof fn lemma_count_zero_all_empty(s: Seq<PbrProps>)
    requires
        count_occupied(s) == 0,
    ensures
        forall|i: int| 0 <= i < s.len() ==> s[i] == empty_cell(),
    decreases s.len(),
{
    if s.len() > 0 {
        lemma_count_zero_all_empty(s.drop_last());
        assert forall|i: int| 0 <= i < s.len() implies s[i] == empty_cell() by {
            if i < s.len() - 1 {
                assert(s[i] == s.drop_last()[i]);
            }
        }
    }
}

/// 32768 cells, stored at the linear index of their local position, and the number of
/// occupied ones among them.
#[derive(Clone, Debug)]
pub struct Chunk {
    pub voxels: Vec<PbrProps>,
    pub count: usize,
}

impl Chunk {
    /// The chunk holds `COUNT` cells and `count` is the number of occupied ones.
    pub open spec fn wf(&self) -> bool {
        &&& self.voxels@.len() == COUNT
        &&& self.count == count_occupied(self.voxels@)
    }

    /// The chunk with every cell empty.
    pub fn new() -> (r: Chunk)
        ensures
            r.wf(),
            r.count == 0,
            forall|i: int| 0 <= i < COUNT ==> r.voxels@[i] == empty_cell(),
    {
        let voxels = vec![PbrProps::empty(); COUNT];
        proof {
            lemma_count_all_empty(voxels@);
        }
        Chunk { voxels, count: 0 }
    }

    /// The cell at local position `c`.
    pub fn get(&self, c: LocalCoord) -> (r: PbrProps)
        requires
            self.wf(),
            c.valid(),
        ensures
            r == self.voxels@[c.index_spec()],
    {
        let idx = c.linearize();
        self.voxels[idx]
    }

    /// Whether `(x, y, z)` is a position inside the chunk whose cell is occupied.
    pub fn occupied_at(&self, x: i32, y: i32, z: i32) -> (r: bool)
        requires
            self.wf(),
        ensures
            r == (0 <= x < 32 && 0 <= y < 32 && 0 <= z < 32 && self.voxels@[linear_index(
                x as int,
                y as int,
                z as int,
            )] != empty_cell()),
    {
        if 0 <= x && x < 32 && 0 <= y && y < 32 && 0 <= z && z < 32 {
            !self.get(LocalCoord(UVec3::new(x as u32, y as u32, z as u32))).is_empty()
        } else {
            false
        }
    }

    /// Stores `mat` at local position `c`, keeping `count` equal to the number of occupied cells.
    pub fn set(&mut self, c: LocalCoord, mat: PbrProps)
        requires
            old(self).wf(),
            c.valid(),
        ensures
            final(self).wf(),
            final(self).voxels@ == old(self).voxels@.update(c.index_spec(), mat),
            final(self).count + occupancy(old(self).voxels@[c.index_spec()]) == old(self).count
                + occupancy(mat),
    {
        let idx = c.linearize();
        proof {
            lemma_count_update(self.voxels@, idx as int, mat);
            lemma_count_bounded(self.voxels@);
            lemma_count_bounded(self.voxels@.update(idx as int, mat));
        }
        let was_empty = self.voxels[idx].is_empty();
        let now_empty = mat.is_empty();
        if was_empty && !now_empty {
            self.count = self.count + 1;
        } else if !was_empty && now_empty {
            self.count = self.count - 1;
        }
        self.voxels.set(idx, mat);
    }
}

impl Default for Chunk {
    fn default() -> (r: Chunk)
        ensures
            r.wf(),
            r.count == 0,
            forall|i: int| 0 <= i < COUNT ==> r.voxels@[i] == empty_cell(),
    {
        Chunk::new()
    }
}

} // verus!
