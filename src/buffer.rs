//! The sparse voxel grid: a persistent map from chunk coordinate to chunk, in which only
//! chunks holding at least one occupied cell are present.
use vstd::prelude::*;
use crate::cell::{PbrProps, empty_cell};
use crate::chunk::{
    Chunk,
    count_occupied,
    lemma_count_all_empty,
    lemma_count_zero_all_empty,
    lemma_count_bounded,
    occupancy,
};
use crate::coords::{
    ChunkCoord,
    IVec3,
    LocalCoord,
    WorldCoord,
    delinearize,
    lemma_cell_of_chunk,
    lemma_chunk_local_split,
    lemma_linear_inverse,
    lemma_linearize_bijective,
    linear_index,
};

verus! {

/// A chunk coordinate as the key of the chunk table.
pub type ChunkKey = (i32, i32, i32);

#[verifier::external_type_specification]
#[verifier::external_body]
#[verifier::reject_recursive_types(K)]
#[verifier::reject_recursive_types(V)]
#[verifier::reject_recursive_types(S)]
pub struct ExImHashMap<K, V, S>(im::HashMap<K, V, S>);

/// Relies on `im::HashMap::clone`, which shares the map's structure with the original; it
/// is what makes copying a grid cheap. Nothing is claimed of its result here.
pub assume_specification<K, V, S>[ <im::HashMap<K, V, S> as core::clone::Clone>::clone ](
    m: &im::HashMap<K, V, S>,
) -> im::HashMap<K, V, S>
    where
        K: core::clone::Clone,
        V: core::clone::Clone,
;

/// The persistent map that stores the chunks of a grid.
pub type ChunkTable = im::HashMap<ChunkKey, Chunk>;

/// What a chunk table holds.
pub uninterp spec fn chunk_table(m: ChunkTable) -> Map<ChunkKey, Chunk>;

/// Relies on `im::HashMap::new`: the new map is empty.
#[verifier::external_body]
fn table_new() -> (r: ChunkTable)
    ensures
        chunk_table(r).dom().len() == 0,
        chunk_table(r).dom().finite(),
{
    im::HashMap::new()
}

/// Relies on `im::HashMap::get`: the value stored under `k`, if any.
#[verifier::external_body]
fn table_get<'a>(m: &'a ChunkTable, k: &ChunkKey) -> (r: Option<&'a Chunk>)
    ensures
        r.is_some() == chunk_table(*m).contains_key(*k),
        r.is_some() ==> *r.unwrap() == chunk_table(*m)[*k],
{
    m.get(k)
}

/// Relies on `im::HashMap::insert`: afterwards `k` maps to `v`, other keys are unchanged.
#[verifier::external_body]
fn table_insert(m: &mut ChunkTable, k: ChunkKey, v: Chunk)
    ensures
        chunk_table(*final(m)) == chunk_table(*old(m)).insert(k, v),
{
    m.insert(k, v);
}

/// Relies on `im::HashMap::remove`: `k` is no longer present, other keys are unchanged,
/// and the value that `k` had is returned.
#[verifier::external_body]
fn table_remove(m: &mut ChunkTable, k: &ChunkKey) -> (r: Option<Chunk>)
    ensures
        chunk_table(*final(m)) == chunk_table(*old(m)).remove(*k),
        r.is_some() == chunk_table(*old(m)).contains_key(*k),
        r.is_some() ==> r.unwrap() == chunk_table(*old(m))[*k],
{
    m.remove(k)
}

/// Relies on `im::HashMap::keys`: each key of the map exactly once, in the map's own order.
#[verifier::external_body]
fn table_keys(m: &ChunkTable) -> (r: Vec<ChunkKey>)
    ensures
        r@.no_duplicates(),
        forall|i: int| 0 <= i < r@.len() ==> chunk_table(*m).contains_key(#[trigger] r@[i]),
        forall|k: ChunkKey| chunk_table(*m).contains_key(k) ==> r@.contains(k),
{
    m.keys().cloned().collect()
}

pub open spec fn key_of(c: ChunkCoord) -> ChunkKey {
    (c.0.x, c.0.y, c.0.z)
}

pub open spec fn coord_of(k: ChunkKey) -> ChunkCoord {
    ChunkCoord(IVec3 { x: k.0, y: k.1, z: k.2 })
}

/// The cell at `w` in a chunk table: the empty cell where its chunk is absent.
pub open spec fn cell_in(m: Map<ChunkKey, Chunk>, w: WorldCoord) -> PbrProps {
    let k = key_of(w.chunk_spec());
    if m.contains_key(k) {
        m[k].voxels@[w.local_spec().index_spec()]
    } else {
        empty_cell()
    }
}

/// Sum of the occupied-cell counts of the chunks in `m`.
pub open spec fn total_count(m: Map<ChunkKey, Chunk>) -> nat
    decreases m.dom().len(),
{
    if m.dom().finite() && m.dom().len() > 0 {
        let k = m.dom().choose();
        (m[k].count + total_count(m.remove(k))) as nat
    } else {
        0
    }
}

/// The total can be split at any present key.
pub proof fn lemma_total_remove(m: Map<ChunkKey, Chunk>, k: ChunkKey)
    requires
        m.dom().finite(),
        m.contains_key(k),
    ensures
        total_count(m) == m[k].count + total_count(m.remove(k)),
    decreases m.dom().len(),
{
    let c = m.dom().choose();
    assert(m.dom().contains(c));
    if c != k {
        lemma_total_remove(m.remove(c), k);
        lemma_total_remove(m.remove(k), c);
        assert(m.remove(c).remove(k) =~= m.remove(k).remove(c));
    }
}

/// Sum of the occupied-cell counts of the chunks at the keys `ks` of `m`.
pub open spec fn sum_counts(m: Map<ChunkKey, Chunk>, ks: Seq<ChunkKey>) -> nat
    decreases ks.len(),
{
    if ks.len() == 0 {
        0
    } else {
        (sum_counts(m, ks.drop_last()) + m[ks.last()].count) as nat
    }
}

pub proof fn lemma_sum_agree(m1: Map<ChunkKey, Chunk>, m2: Map<ChunkKey, Chunk>, ks: Seq<ChunkKey>)
    requires
        forall|i: int| 0 <= i < ks.len() ==> m1[#[trigger] ks[i]] == m2[ks[i]],
    ensures
        sum_counts(m1, ks) == sum_counts(m2, ks),
    decreases ks.len(),
{
    if ks.len() > 0 {
        let d = ks.drop_last();
        assert forall|i: int| 0 <= i < d.len() implies m1[#[trigger] d[i]] == m2[d[i]] by {
            assert(d[i] == ks[i]);
        }
        lemma_sum_agree(m1, m2, d);
        assert(m1[ks[ks.len() - 1]] == m2[ks[ks.len() - 1]]);
    }
}

proof fn lemma_sum_prefix(m: Map<ChunkKey, Chunk>, ks: Seq<ChunkKey>, j: int)
    requires
        0 <= j <= ks.len(),
    ensures
        sum_counts(m, ks.subrange(0, j)) <= sum_counts(m, ks),
    decreases ks.len(),
{
    if j == ks.len() {
        assert(ks.subrange(0, j) =~= ks);
    } else {
        lemma_sum_prefix(m, ks.drop_last(), j);
        assert(ks.drop_last().subrange(0, j) =~= ks.subrange(0, j));
    }
}

/// Summing over a list that holds each key of `m` once gives the total.
pub proof fn lemma_sum_is_total(m: Map<ChunkKey, Chunk>, ks: Seq<ChunkKey>)
    requires
        ks.no_duplicates(),
        ks.to_set() == m.dom(),
    ensures
        sum_counts(m, ks) == total_count(m),
    decreases ks.len(),
{
    ks.unique_seq_to_set();
    if ks.len() == 0 {
        assert(m.dom().len() == 0);
    } else {
        let last = ks.last();
        let d = ks.drop_last();
        assert(ks.to_set().contains(last)) by {
            assert(ks[ks.len() - 1] == last);
        }
        let m1 = m.remove(last);
        assert(d.no_duplicates()) by {
            assert forall|i: int, j: int| 0 <= i < j < d.len() implies d[i] != d[j] by {
                assert(d[i] == ks[i] && d[j] == ks[j]);
            }
        }
        assert(d.to_set() =~= m1.dom()) by {
            assert forall|k: ChunkKey| d.to_set().contains(k) implies m1.dom().contains(k) by {
                let i = d.index_of(k);
                assert(ks[i] == k);
                assert(ks.to_set().contains(k));
                assert(k != last);
            }
            assert forall|k: ChunkKey| m1.dom().contains(k) implies d.to_set().contains(k) by {
                assert(ks.to_set().contains(k));
                assert(ks.contains(k));
                let i = ks.index_of(k);
                assert(i != ks.len() - 1);
                assert(d[i] == k);
            }
        }
        lemma_sum_is_total(m1, d);
        assert forall|i: int| 0 <= i < d.len() implies m[#[trigger] d[i]] == m1[d[i]] by {
            assert(d[i] != last);
        }
        lemma_sum_agree(m, m1, d);
        lemma_total_remove(m, last);
    }
}

/// `c` lies within the box from `lo` to `hi`, bounds included.
pub open spec fn bounded_by(c: ChunkCoord, lo: ChunkCoord, hi: ChunkCoord) -> bool {
    &&& lo.0.x <= c.0.x <= hi.0.x
    &&& lo.0.y <= c.0.y <= hi.0.y
    &&& lo.0.z <= c.0.z <= hi.0.z
}

/// `lo` and `hi` are the component-wise minimum and maximum of the keys of `m`.
pub open spec fn is_chunk_aabb(m: Map<ChunkKey, Chunk>, lo: ChunkCoord, hi: ChunkCoord) -> bool {
    &&& forall|k: ChunkKey| #[trigger] m.contains_key(k) ==> bounded_by(coord_of(k), lo, hi)
    &&& exists|k: ChunkKey| #[trigger] m.contains_key(k) && k.0 == lo.0.x
    &&& exists|k: ChunkKey| #[trigger] m.contains_key(k) && k.1 == lo.0.y
    &&& exists|k: ChunkKey| #[trigger] m.contains_key(k) && k.2 == lo.0.z
    &&& exists|k: ChunkKey| #[trigger] m.contains_key(k) && k.0 == hi.0.x
    &&& exists|k: ChunkKey| #[trigger] m.contains_key(k) && k.1 == hi.0.y
    &&& exists|k: ChunkKey| #[trigger] m.contains_key(k) && k.2 == hi.0.z
}

/// A sparse voxel grid. Chunks that would hold no occupied cell are never stored, and a
/// clone shares every chunk with the original until one of the two writes to it.
#[derive(Clone)]
pub struct Buffer {
    chunks: ChunkTable,
}

impl View for Buffer {
    type V = Map<ChunkKey, Chunk>;

    closed spec fn view(&self) -> Map<ChunkKey, Chunk> {
        chunk_table(self.chunks)
    }
}

impl Buffer {
    /// Every stored chunk is well formed, holds an occupied cell, and has valid coordinates.
    pub open spec fn wf(&self) -> bool {
        &&& self@.dom().finite()
        &&& forall|k: ChunkKey|
            #[trigger] self@.contains_key(k) ==> self@[k].wf() && self@[k].count > 0 && coord_of(
                k,
            ).valid()
    }

    /// The cell at `w`.
    pub open spec fn cell_at(&self, w: WorldCoord) -> PbrProps {
        cell_in(self@, w)
    }

    /// The cell at integer position `p`; positions outside the `i32` range hold nothing.
    pub open spec fn cell_at_pos(&self, p: (int, int, int)) -> PbrProps {
        if i32::MIN <= p.0 <= i32::MAX && i32::MIN <= p.1 <= i32::MAX && i32::MIN <= p.2 <= i32::MAX {
            self.cell_at(WorldCoord(IVec3 { x: p.0 as i32, y: p.1 as i32, z: p.2 as i32 }))
        } else {
            empty_cell()
        }
    }

    /// Number of occupied cells.
    pub open spec fn count_spec(&self) -> nat {
        total_count(self@)
    }

    /// The empty grid.
    pub fn new() -> (r: Buffer)
        ensures
            r.wf(),
            r@ == Map::<ChunkKey, Chunk>::empty(),
            forall|w: WorldCoord| #[trigger] r.cell_at(w) == empty_cell(),
    {
        Buffer { chunks: table_new() }
    }

    /// The cell at `c`; the empty cell where nothing was stored.
    pub fn get(&self, c: WorldCoord) -> (r: PbrProps)
        requires
            self.wf(),
        ensures
            r == self.cell_at(c),
    {
        let chunk_coord = ChunkCoord::from(c);
        let key = (chunk_coord.0.x, chunk_coord.0.y, chunk_coord.0.z);
        match table_get(&self.chunks, &key) {
            Some(chunk) => {
                proof {
                    lemma_chunk_local_split(c);
                }
                chunk.get(LocalCoord::from(c))
            },
            None => PbrProps::empty(),
        }
    }

    /// Stores `cell` at `c`. The chunk of `c` is created when absent and dropped when it no
    /// longer holds an occupied cell; every other chunk is left as it was.
    pub fn set(&mut self, c: WorldCoord, cell: PbrProps)
        requires
            old(self).wf(),
        ensures
            final(self).wf(),
            forall|w: WorldCoord| #[trigger]
                final(self).cell_at(w) == if w == c {
                    cell
                } else {
                    old(self).cell_at(w)
                },
            final(self).count_spec() + occupancy(old(self).cell_at(c)) == old(self).count_spec()
                + occupancy(cell),
            forall|k: ChunkKey|
                k != key_of(c.chunk_spec()) ==> #[trigger] final(self)@.contains_key(k)
                    == old(self)@.contains_key(k) && (old(self)@.contains_key(k)
                    ==> final(self)@[k] == old(self)@[k]),
    {
        let chunk_coord = ChunkCoord::from(c);
        let local = LocalCoord::from(c);
        let key = (chunk_coord.0.x, chunk_coord.0.y, chunk_coord.0.z);
        proof {
            lemma_chunk_local_split(c);
        }
        let ghost m0 = self@;
        let removed = table_remove(&mut self.chunks, &key);
        let ghost m1 = self@;
        let mut chunk = match removed {
            Some(ch) => ch,
            None => Chunk::new(),
        };
        let ghost before = chunk;
        assert(before.voxels@[local.index_spec()] == old(self).cell_at(c));
        chunk.set(local, cell);
        let ghost after = chunk;
        if chunk.count > 0 {
            table_insert(&mut self.chunks, key, chunk);
        }
        proof {
            let m2 = self@;
            assert(m2.dom().finite());
            if after.count > 0 {
                assert(m2 == m1.insert(key, after));
            } else {
                assert(m2 == m1);
                lemma_count_zero_all_empty(after.voxels@);
            }
            assert forall|k: ChunkKey| #[trigger] m2.contains_key(k) implies m2[k].wf() && m2[
                k
            ].count > 0 && coord_of(k).valid() by {
                if k == key {
                    assert(coord_of(k) == chunk_coord);
                }
            }
            assert forall|w: WorldCoord| #[trigger]
                cell_in(m2, w) == if w == c {
                    cell
                } else {
                    cell_in(m0, w)
                } by {
                lemma_chunk_local_split(w);
                let kw = key_of(w.chunk_spec());
                let lw = w.local_spec();
                lemma_linear_inverse(lw.0.x as int, lw.0.y as int, lw.0.z as int);
                lemma_linear_inverse(local.0.x as int, local.0.y as int, local.0.z as int);
                if kw == key {
                    assert(w.chunk_spec() == chunk_coord);
                    if w != c {
                        if lw.index_spec() == local.index_spec() {
                            assert(lw == local);
                        }
                        assert(after.voxels@[lw.index_spec()] == before.voxels@[lw.index_spec()]);
                    } else {
                        assert(after.voxels@[lw.index_spec()] == cell);
                    }
                }
            }
            if m0.contains_key(key) {
                lemma_total_remove(m0, key);
            } else {
                assert(m1 =~= m0);
            }
            if after.count > 0 {
                lemma_total_remove(m2, key);
                assert(m2.remove(key) =~= m1);
            }
        }
    }

    /// Number of occupied cells: the sum of the counts of the stored chunks, which is the
    /// number of coordinates holding an occupied cell.
    pub fn count(&self) -> (r: usize)
        requires
            self.wf(),
            self.count_spec() <= usize::MAX,
        ensures
            r == self.count_spec(),
            r == occupied_cells(self@).len(),
    {
        proof {
            lemma_count_is_occupied_cells(self);
        }
        let keys = table_keys(&self.chunks);
        let ghost m = self@;
        proof {
            assert(keys@.to_set() =~= m.dom());
            lemma_sum_is_total(m, keys@);
        }
        let mut total: usize = 0;
        let mut i: usize = 0;
        while i < keys.len()
            invariant
                self.wf(),
                m == self@,
                0 <= i <= keys@.len(),
                total == sum_counts(m, keys@.subrange(0, i as int)),
                sum_counts(m, keys@) == total_count(m),
                total_count(m) <= usize::MAX,
                forall|j: int| 0 <= j < keys@.len() ==> m.contains_key(#[trigger] keys@[j]),
            decreases keys@.len() - i,
        {
            let chunk = table_get(&self.chunks, &keys[i]).unwrap();
            proof {
                lemma_sum_prefix(m, keys@, i + 1);
                assert(keys@.subrange(0, i + 1).drop_last() =~= keys@.subrange(0, i as int));
            }
            total = total + chunk.count;
            i = i + 1;
        }
        assert(keys@.subrange(0, i as int) =~= keys@);
        total
    }

    /// The smallest and largest chunk coordinate on each axis over the stored chunks, or
    /// `None` when no chunk is stored.
    pub fn chunk_aabb(&self) -> (r: Option<(ChunkCoord, ChunkCoord)>)
        requires
            self.wf(),
        ensures
            r.is_none() == (self@.dom().len() == 0),
            r.is_some() ==> is_chunk_aabb(self@, r.unwrap().0, r.unwrap().1),
    {
        let coords = self.chunk_coords();
        if coords.len() == 0 {
            return None;
        }
        let mut lo = coords[0];
        let mut hi = coords[0];
        let mut i: usize = 1;
        while i < coords.len()
            invariant
                1 <= i <= coords@.len(),
                forall|j: int| 0 <= j < coords@.len() ==> self@.contains_key(key_of(#[trigger] coords@[j])),
                forall|j: int| 0 <= j < i ==> bounded_by(#[trigger] coords@[j], lo, hi),
                exists|j: int| 0 <= j < i && #[trigger] coords@[j].0.x == lo.0.x,
                exists|j: int| 0 <= j < i && #[trigger] coords@[j].0.y == lo.0.y,
                exists|j: int| 0 <= j < i && #[trigger] coords@[j].0.z == lo.0.z,
                exists|j: int| 0 <= j < i && #[trigger] coords@[j].0.x == hi.0.x,
                exists|j: int| 0 <= j < i && #[trigger] coords@[j].0.y == hi.0.y,
                exists|j: int| 0 <= j < i && #[trigger] coords@[j].0.z == hi.0.z,
            decreases coords@.len() - i,
        {
            let c = coords[i];
            if c.0.x < lo.0.x {
                lo.0.x = c.0.x;
            }
            if c.0.y < lo.0.y {
                lo.0.y = c.0.y;
            }
            if c.0.z < lo.0.z {
                lo.0.z = c.0.z;
            }
            if c.0.x > hi.0.x {
                hi.0.x = c.0.x;
            }
            if c.0.y > hi.0.y {
                hi.0.y = c.0.y;
            }
            if c.0.z > hi.0.z {
                hi.0.z = c.0.z;
            }
            i = i + 1;
            proof {
                assert(coords@[i - 1] == c);
            }
        }
        proof {
            assert forall|k: ChunkKey| #[trigger] self@.contains_key(k) implies bounded_by(
                coord_of(k),
                lo,
                hi,
            ) by {
                let j = choose|j: int| 0 <= j < coords@.len() && #[trigger] coords@[j] == coord_of(k);
                assert(bounded_by(coords@[j], lo, hi));
            }
        }
        Some((lo, hi))
    }

    /// Stores a whole chunk at a coordinate where none is stored.
    pub(crate) fn insert_chunk(&mut self, c: ChunkCoord, chunk: Chunk)
        requires
            old(self).wf(),
            chunk.wf(),
            chunk.count > 0,
            c.valid(),
            !old(self)@.contains_key(key_of(c)),
        ensures
            final(self).wf(),
            final(self)@ == old(self)@.insert(key_of(c), chunk),
            final(self).count_spec() == old(self).count_spec() + chunk.count,
    {
        table_insert(&mut self.chunks, (c.0.x, c.0.y, c.0.z), chunk);
        proof {
            let m = self@;
            lemma_total_remove(m, key_of(c));
            assert(m.remove(key_of(c)) =~= old(self)@);
            assert(coord_of(key_of(c)) == c);
        }
    }

    /// The chunk stored at `c`, if any.
    pub fn chunk(&self, c: &ChunkCoord) -> (r: Option<&Chunk>)
        ensures
            r.is_some() == self@.contains_key(key_of(*c)),
            r.is_some() ==> *r.unwrap() == self@[key_of(*c)],
    {
        table_get(&self.chunks, &(c.0.x, c.0.y, c.0.z))
    }

    /// Whether a chunk is stored at `c`.
    pub fn contains_chunk(&self, c: &ChunkCoord) -> (r: bool)
        ensures
            r == self@.contains_key(key_of(*c)),
    {
        table_get(&self.chunks, &(c.0.x, c.0.y, c.0.z)).is_some()
    }

    /// The coordinates of the stored chunks, each once.
    pub fn chunk_coords(&self) -> (r: Vec<ChunkCoord>)
        requires
            self.wf(),
        ensures
            r@.len() == self@.dom().len(),
            forall|i: int, j: int| 0 <= i < j < r@.len() ==> r@[i] != r@[j],
            forall|i: int| 0 <= i < r@.len() ==> self@.contains_key(key_of(#[trigger] r@[i])),
            forall|i: int| 0 <= i < r@.len() ==> (#[trigger] r@[i]).valid(),
            forall|k: ChunkKey|
                self@.contains_key(k) ==> exists|i: int|
                    0 <= i < r@.len() && #[trigger] r@[i] == coord_of(k),
    {
        let keys = table_keys(&self.chunks);
        let mut r: Vec<ChunkCoord> = Vec::new();
        let mut i: usize = 0;
        while i < keys.len()
            invariant
                self.wf(),
                0 <= i <= keys@.len(),
                r@.len() == i,
                keys@.no_duplicates(),
                forall|j: int| 0 <= j < keys@.len() ==> self@.contains_key(#[trigger] keys@[j]),
                forall|j: int| 0 <= j < i ==> #[trigger] r@[j] == coord_of(keys@[j]),
            decreases keys@.len() - i,
        {
            let k = keys[i];
            r.push(ChunkCoord(IVec3::new(k.0, k.1, k.2)));
            i = i + 1;
        }
        proof {
            assert forall|k: ChunkKey| self@.contains_key(k) implies exists|i: int|
                0 <= i < r@.len() && #[trigger] r@[i] == coord_of(k) by {
                assert(chunk_table(self.chunks).contains_key(k));
                assert(keys@.contains(k));
                let j = keys@.index_of(k);
                assert(keys@[j] == k);
                assert(r@[j] == coord_of(k));
            }
            assert forall|i: int| 0 <= i < r@.len() implies (#[trigger] r@[i]).valid() by {
                assert(self@.contains_key(keys@[i]));
            }
            assert forall|i: int, j: int| 0 <= i < j < r@.len() implies r@[i] != r@[j] by {
                assert(keys@[i] != keys@[j]);
            }
            let ks = keys@.to_set();
            assert(ks =~= self@.dom());
            keys@.unique_seq_to_set();
        }
        r
    }
}

impl Default for Buffer {
    fn default() -> (r: Buffer)
        ensures
            r.wf(),
            r@.dom().len() == 0,
            forall|w: WorldCoord| #[trigger] r.cell_at(w) == empty_cell(),
    {
        Buffer::new()
    }
}

/// A chunk is stored exactly when one of its cells is occupied; in particular a chunk whose
/// cells were all written back to empty is absent.
pub proof fn lemma_stored_iff_occupied(b: &Buffer, k: ChunkCoord)
    requires
        b.wf(),
        k.valid(),
    ensures
        b@.contains_key(key_of(k)) <==> exists|x: int, y: int, z: int|
            0 <= x < 32 && 0 <= y < 32 && 0 <= z < 32 && #[trigger] b.cell_at(k.cell_spec(x, y, z))
                != empty_cell(),
{
    if b@.contains_key(key_of(k)) {
        let ch = b@[key_of(k)];
        if forall|i: int| 0 <= i < ch.voxels@.len() ==> ch.voxels@[i] == empty_cell() {
            lemma_count_all_empty(ch.voxels@);
        }
        let i = choose|i: int| 0 <= i < ch.voxels@.len() && ch.voxels@[i] != empty_cell();
        crate::coords::lemma_linearize_bijective();
        let (x, y, z) = crate::coords::delinearize(i);
        assert(0 <= x < 32 && 0 <= y < 32 && 0 <= z < 32 && crate::coords::linear_index(x, y, z) == i);
        lemma_cell_of_chunk(k, x, y, z);
        assert(b.cell_at(k.cell_spec(x, y, z)) != empty_cell());
    } else {
        assert forall|x: int, y: int, z: int|
            0 <= x < 32 && 0 <= y < 32 && 0 <= z < 32 implies #[trigger] b.cell_at(
            k.cell_spec(x, y, z),
        ) == empty_cell() by {
            lemma_cell_of_chunk(k, x, y, z);
        }
    }
}

/// Reads cells of a grid, remembering the chunk of the previous read so that a run of reads
/// inside one chunk looks the chunk up once.
pub struct FastBufferReader<'a> {
    buffer: &'a Buffer,
    chunk: Option<&'a Chunk>,
    chunk_coord: Option<ChunkCoord>,
}

impl<'a> FastBufferReader<'a> {
    /// The grid being read.
    pub closed spec fn source(&self) -> Buffer {
        *self.buffer
    }

    pub closed spec fn wf(&self) -> bool {
        &&& self.buffer.wf()
        &&& self.chunk_coord.is_some() ==> {
            let k = key_of(self.chunk_coord.unwrap());
            &&& self.chunk.is_some() == self.buffer@.contains_key(k)
            &&& self.chunk.is_some() ==> *self.chunk.unwrap() == self.buffer@[k]
        }
    }

    pub fn new(buffer: &'a Buffer) -> (r: FastBufferReader<'a>)
        requires
            buffer.wf(),
        ensures
            r.wf(),
            r.source() == *buffer,
    {
        FastBufferReader { buffer, chunk: None, chunk_coord: None }
    }

    /// The cell at `c`, as `Buffer::get` gives it.
    pub fn get(&mut self, c: WorldCoord) -> (r: PbrProps)
        requires
            old(self).wf(),
        ensures
            final(self).wf(),
            final(self).source() == old(self).source(),
            r == old(self).source().cell_at(c),
    {
        let chunk_coord = ChunkCoord::from(c);
        let same = match self.chunk_coord {
            Some(k) => k == chunk_coord,
            None => false,
        };
        if !same {
            self.chunk_coord = Some(chunk_coord);
            self.chunk = self.buffer.chunk(&chunk_coord);
        }
        proof {
            lemma_chunk_local_split(c);
        }
        match self.chunk {
            Some(ch) => ch.get(LocalCoord::from(c)),
            None => PbrProps::empty(),
        }
    }

    /// The cell at integer position `(x, y, z)`; the empty cell outside the `i32` range.
    pub fn get_pos(&mut self, x: i64, y: i64, z: i64) -> (r: PbrProps)
        requires
            old(self).wf(),
        ensures
            final(self).wf(),
            final(self).source() == old(self).source(),
            r == old(self).source().cell_at_pos((x as int, y as int, z as int)),
    {
        let lo = i32::MIN as i64;
        let hi = i32::MAX as i64;
        if lo <= x && x <= hi && lo <= y && y <= hi && lo <= z && z <= hi {
            self.get(WorldCoord(IVec3::new(x as i32, y as i32, z as i32)))
        } else {
            PbrProps::empty()
        }
    }
}

/// The occupied cells of a chunk table.
pub open spec fn occupied_cells(m: Map<ChunkKey, Chunk>) -> Set<WorldCoord> {
    Set::new(|w: WorldCoord| cell_in(m, w) != empty_cell())
}

/// The occupied cells of a chunk table that lie in the chunk `k`.
pub open spec fn occupied_in_chunk(m: Map<ChunkKey, Chunk>, k: ChunkKey) -> Set<WorldCoord> {
    Set::new(|w: WorldCoord| key_of(w.chunk_spec()) == k && cell_in(m, w) != empty_cell())
}

/// Positions of the occupied cells in `s`.
pub open spec fn occupied_indices(s: Seq<PbrProps>) -> Set<int> {
    Set::new(|i: int| 0 <= i < s.len() && s[i] != empty_cell())
}

/// The cell of chunk `k` stored at linear index `i`.
pub open spec fn cell_of_index(k: ChunkCoord, i: int) -> WorldCoord {
    let (x, y, z) = delinearize(i);
    k.cell_spec(x, y, z)
}

proof fn lemma_occupied_indices(s: Seq<PbrProps>)
    ensures
        occupied_indices(s).finite(),
        occupied_indices(s).len() == count_occupied(s),
    decreases s.len(),
{
    if s.len() == 0 {
        assert(occupied_indices(s) =~= Set::<int>::empty());
    } else {
        let d = s.drop_last();
        lemma_occupied_indices(d);
        let n = s.len() - 1;
        if s[n] != empty_cell() {
            assert(occupied_indices(s) =~= occupied_indices(d).insert(n));
            assert(!occupied_indices(d).contains(n));
        } else {
            assert(occupied_indices(s) =~= occupied_indices(d));
        }
    }
}

proof fn lemma_chunk_occupied_len(m: Map<ChunkKey, Chunk>, k: ChunkKey)
    requires
        m.contains_key(k),
        m[k].wf(),
        coord_of(k).valid(),
    ensures
        occupied_in_chunk(m, k).finite(),
        occupied_in_chunk(m, k).len() == m[k].count,
{
    let kc = coord_of(k);
    let s = m[k].voxels@;
    let f = |i: int| cell_of_index(kc, i);
    let idx = occupied_indices(s);
    lemma_occupied_indices(s);
    lemma_linearize_bijective();
    assert forall|i: int| idx.contains(i) implies #[trigger] f(i).chunk_spec() == kc && f(
        i,
    ).local_spec().index_spec() == i by {
        let (x, y, z) = delinearize(i);
        lemma_cell_of_chunk(kc, x, y, z);
        assert(linear_index(x, y, z) == i);
    }
    assert(vstd::relations::injective_on(f, idx)) by {
        assert forall|i: int, j: int| idx.contains(i) && idx.contains(j) && #[trigger] f(i) == #[trigger] f(
            j,
        ) implies i == j by {
            assert(f(i).local_spec().index_spec() == i);
            assert(f(j).local_spec().index_spec() == j);
        }
    }
    assert(idx.map(f) =~= occupied_in_chunk(m, k)) by {
        assert forall|w: WorldCoord| idx.map(f).contains(w) implies occupied_in_chunk(m, k).contains(w) by {
            let i = choose|i: int| idx.contains(i) && f(i) == w;
            assert(f(i).chunk_spec() == kc);
            assert(key_of(kc) == k);
        }
        assert forall|w: WorldCoord| occupied_in_chunk(m, k).contains(w) implies idx.map(f).contains(w) by {
            lemma_chunk_local_split(w);
            let l = w.local_spec();
            let i = l.index_spec();
            lemma_linear_inverse(l.0.x as int, l.0.y as int, l.0.z as int);
            assert(w.chunk_spec() == kc);
            assert(idx.contains(i));
            assert(f(i) == w);
        }
    }
    vstd::set_lib::lemma_map_size(idx, occupied_in_chunk(m, k), f);
}

proof fn lemma_occupied_total(m: Map<ChunkKey, Chunk>)
    requires
        m.dom().finite(),
        forall|k: ChunkKey| #[trigger] m.contains_key(k) ==> m[k].wf() && coord_of(k).valid(),
    ensures
        occupied_cells(m).finite(),
        occupied_cells(m).len() == total_count(m),
    decreases m.dom().len(),
{
    if m.dom().len() == 0 {
        assert forall|w: WorldCoord| !occupied_cells(m).contains(w) by {
            assert(!m.dom().contains(key_of(w.chunk_spec())));
        }
        assert(occupied_cells(m) =~= Set::<WorldCoord>::empty());
    } else {
        let k = m.dom().choose();
        let r = m.remove(k);
        lemma_occupied_total(r);
        lemma_chunk_occupied_len(m, k);
        let a = occupied_in_chunk(m, k);
        let b = occupied_cells(r);
        assert(a.disjoint(b));
        assert(occupied_cells(m) =~= a.union(b));
        vstd::set_lib::lemma_set_disjoint_lens(a, b);
    }
}

/// The count of a grid is the number of its occupied cells, whatever writes produced it.
pub proof fn lemma_count_is_occupied_cells(b: &Buffer)
    requires
        b.wf(),
    ensures
        occupied_cells(b@).finite(),
        b.count_spec() == occupied_cells(b@).len(),
{
    lemma_occupied_total(b@);
}

/// `a` comes before `b` in the order of x, then y, then z.
pub open spec fn coord_lt(a: ChunkCoord, b: ChunkCoord) -> bool {
    a.0.x < b.0.x || (a.0.x == b.0.x && (a.0.y < b.0.y || (a.0.y == b.0.y && a.0.z < b.0.z)))
}

pub open spec fn strictly_sorted(s: Seq<ChunkCoord>) -> bool {
    forall|i: int, j: int| 0 <= i < j < s.len() ==> coord_lt(#[trigger] s[i], #[trigger] s[j])
}

/// The coordinates of the chunks stored in `m`.
pub open spec fn stored_coords(m: Map<ChunkKey, Chunk>) -> Set<ChunkCoord> {
    Set::new(|c: ChunkCoord| m.contains_key(key_of(c)))
}

/// The coordinates of the chunks stored in `m`, in increasing order.
pub open spec fn canonical_coords(m: Map<ChunkKey, Chunk>) -> Seq<ChunkCoord> {
    choose|s: Seq<ChunkCoord>| strictly_sorted(s) && s.to_set() == stored_coords(m)
}

fn coord_lt_exec(a: ChunkCoord, b: ChunkCoord) -> (r: bool)
    ensures
        r == coord_lt(a, b),
{
    a.0.x < b.0.x || (a.0.x == b.0.x && (a.0.y < b.0.y || (a.0.y == b.0.y && a.0.z < b.0.z)))
}

/// Two increasing sequences holding the same coordinates are equal.
pub proof fn lemma_sorted_unique(a: Seq<ChunkCoord>, b: Seq<ChunkCoord>)
    requires
        strictly_sorted(a),
        strictly_sorted(b),
        a.to_set() == b.to_set(),
    ensures
        a == b,
    decreases a.len(),
{
    if a.len() == 0 {
        if b.len() > 0 {
            assert(b.to_set().contains(b[0]));
        }
        assert(a =~= b);
    } else {
        assert(a.to_set().contains(a[0]));
        let j = b.index_of(a[0]);
        assert(b.len() > 0);
        assert(b.to_set().contains(b[0]));
        let i = a.index_of(b[0]);
        if j > 0 {
            assert(coord_lt(b[0], b[j]));
            if i > 0 {
                assert(coord_lt(a[0], a[i]));
            }
        }
        assert(a[0] == b[0]);
        let a1 = a.subrange(1, a.len() as int);
        let b1 = b.subrange(1, b.len() as int);
        assert forall|x: ChunkCoord| a1.to_set().contains(x) implies b1.to_set().contains(x) by {
            let k = a1.index_of(x);
            assert(a[k + 1] == x);
            assert(coord_lt(a[0], x));
            assert(b.to_set().contains(x));
            let m = b.index_of(x);
            assert(m != 0);
            assert(b1[m - 1] == x);
        }
        assert forall|x: ChunkCoord| b1.to_set().contains(x) implies a1.to_set().contains(x) by {
            let k = b1.index_of(x);
            assert(b[k + 1] == x);
            assert(coord_lt(b[0], x));
            assert(a.to_set().contains(x));
            let m = a.index_of(x);
            assert(m != 0);
            assert(a1[m - 1] == x);
        }
        assert(a1.to_set() =~= b1.to_set());
        lemma_sorted_unique(a1, b1);
        assert(a =~= b) by {
            assert forall|k: int| 0 <= k < a.len() implies a[k] == b[k] by {
                if k > 0 {
                    assert(a[k] == a1[k - 1]);
                    assert(b[k] == b1[k - 1]);
                }
            }
        }
    }
}

impl Buffer {
    /// The coordinates of the stored chunks, in increasing order of x, then y, then z.
    pub fn sorted_chunk_coords(&self) -> (r: Vec<ChunkCoord>)
        requires
            self.wf(),
        ensures
            r@ == canonical_coords(self@),
            strictly_sorted(r@),
            r@.to_set() == stored_coords(self@),
            forall|i: int| 0 <= i < r@.len() ==> (#[trigger] r@[i]).valid(),
            forall|i: int| 0 <= i < r@.len() ==> self@.contains_key(key_of(#[trigger] r@[i])),
    {
        let coords = self.chunk_coords();
        let mut r: Vec<ChunkCoord> = Vec::new();
        let mut i: usize = 0;
        while i < coords.len()
            invariant
                0 <= i <= coords@.len(),
                forall|a: int, b: int| 0 <= a < b < coords@.len() ==> coords@[a] != coords@[b],
                strictly_sorted(r@),
                r@.to_set() == coords@.subrange(0, i as int).to_set(),
            decreases coords@.len() - i,
        {
            let c = coords[i];
            let mut j: usize = 0;
            while j < r.len() && coord_lt_exec(r[j], c)
                invariant
                    j <= r@.len(),
                    forall|a: int| 0 <= a < j ==> coord_lt(#[trigger] r@[a], c),
                decreases r@.len() - j,
            {
                j = j + 1;
            }
            let ghost before = r@;
            proof {
                assert(!before.to_set().contains(c)) by {
                    if before.to_set().contains(c) {
                        assert(coords@.subrange(0, i as int).to_set().contains(c));
                        let a = coords@.subrange(0, i as int).index_of(c);
                        assert(coords@[a] == c);
                    }
                }
                if j < before.len() {
                    assert(before[j as int] != c) by {
                        assert(before.to_set().contains(before[j as int]));
                    }
                }
            }
            r.insert(j, c);
            proof {
                assert forall|a: int, b: int| 0 <= a < b < r@.len() implies coord_lt(#[trigger] r@[a], #[trigger] r@[b]) by {
                    if b < j {
                    } else if b == j {
                        assert(r@[a] == before[a]);
                    } else if a < j {
                        assert(r@[b] == before[b - 1]);
                        assert(coord_lt(before[a], c));
                    } else if a == j {
                        assert(r@[b] == before[b - 1]);
                        if b - 1 > j {
                            assert(coord_lt(before[j as int], before[b - 1]));
                        }
                    } else {
                        assert(r@[a] == before[a - 1] && r@[b] == before[b - 1]);
                    }
                }
                assert(r@.to_set() =~= coords@.subrange(0, i + 1).to_set()) by {
                    assert(coords@.subrange(0, i + 1) =~= coords@.subrange(0, i as int).push(c));
                    assert forall|x: ChunkCoord| r@.to_set().contains(x) implies coords@.subrange(0, i + 1).to_set().contains(x) by {
                        let a = r@.index_of(x);
                        if a != j {
                            let a0 = if a < j { a } else { a - 1 };
                            assert(before[a0] == x);
                            assert(before.to_set().contains(x));
                            assert(coords@.subrange(0, i as int).to_set().contains(x));
                            let b0 = coords@.subrange(0, i as int).index_of(x);
                            assert(coords@.subrange(0, i + 1)[b0] == x);
                        } else {
                            assert(coords@.subrange(0, i + 1)[i as int] == x);
                        }
                    }
                    assert forall|x: ChunkCoord| coords@.subrange(0, i + 1).to_set().contains(x) implies r@.to_set().contains(x) by {
                        let b0 = coords@.subrange(0, i + 1).index_of(x);
                        if b0 < i {
                            assert(coords@.subrange(0, i as int)[b0] == x);
                            assert(before.to_set().contains(x));
                            let a = before.index_of(x);
                            if a < j {
                                assert(r@[a] == x);
                            } else {
                                assert(r@[a + 1] == x);
                            }
                        } else {
                            assert(r@[j as int] == x);
                        }
                    }
                }
            }
            i = i + 1;
        }
        proof {
            assert(coords@.subrange(0, i as int) =~= coords@);
            assert(r@.to_set() =~= stored_coords(self@)) by {
                assert forall|x: ChunkCoord| r@.to_set().contains(x) implies stored_coords(self@).contains(x) by {
                    let a = coords@.index_of(x);
                }
                assert forall|x: ChunkCoord| stored_coords(self@).contains(x) implies r@.to_set().contains(x) by {
                    let k = key_of(x);
                    assert(self@.contains_key(k));
                    let a = choose|a: int| 0 <= a < coords@.len() && #[trigger] coords@[a] == coord_of(k);
                    assert(coord_of(k) == x);
                    assert(coords@.to_set().contains(x));
                }
            }
            lemma_sorted_unique(r@, canonical_coords(self@));
            assert forall|i: int| 0 <= i < r@.len() implies (#[trigger] r@[i]).valid() && self@.contains_key(key_of(r@[i])) by {
                assert(r@.to_set().contains(r@[i]));
                let a = coords@.index_of(r@[i]);
            }
        }
        r
    }
}

} // verus!
