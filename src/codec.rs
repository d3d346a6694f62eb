//! Run-length encoding of chunks and grids for storage and transmission.
use vstd::prelude::*;
use crate::cell::{PbrProps, empty_cell};
use crate::chunk::{Chunk, count_occupied, lemma_count_bounded, occupancy};
use crate::buffer::{
    Buffer,
    ChunkKey,
    canonical_coords,
    coord_of,
    key_of,
    lemma_sum_is_total,
    sum_counts,
    total_count,
};
use crate::chunk::lemma_count_zero_all_empty;
use crate::coords::{
    COUNT,
    CHUNK_LIMIT,
    CHUNK_MIN,
    ChunkCoord,
    IVec3,
    WorldCoord,
    lemma_chunk_local_split,
    lemma_linear_inverse,
};

verus! {

/// `len` consecutive cells holding `pbr_props`.
#[derive(Clone, Copy, Debug, PartialEq, Eq, Hash, Structural)]
pub struct Run {
    pub len: u32,
    pub pbr_props: PbrProps,
}

/// A chunk as runs of equal cells, in linear-index order.
#[derive(Clone, Debug)]
pub struct CompressedChunk {
    pub runs: Vec<Run>,
}

/// Why compressed data was rejected.
#[derive(Clone, Copy, Debug, PartialEq, Eq, Hash, Structural)]
pub enum DecompressError {
    /// The run lengths of a chunk do not add up to the number of cells in a chunk.
    RunLength,
    /// Two chunks have the same coordinate.
    DuplicateChunk,
    /// A chunk coordinate lies outside the range whose cells have `i32` coordinates.
    ChunkOutOfRange,
}

/// The cells that `runs` stand for, in order.
pub open spec fn expand(runs: Seq<Run>) -> Seq<PbrProps>
    decreases runs.len(),
{
    if runs.len() == 0 {
        Seq::empty()
    } else {
        expand(runs.drop_last()) + Seq::new(runs.last().len as nat, |_i: int| runs.last().pbr_props)
    }
}

/// Sum of the run lengths.
pub open spec fn total_len(runs: Seq<Run>) -> nat
    decreases runs.len(),
{
    if runs.len() == 0 {
        0
    } else {
        (total_len(runs.drop_last()) + runs.last().len) as nat
    }
}

/// No run is empty and neighbouring runs hold different cells: the shortest encoding.
pub open spec fn canonical(runs: Seq<Run>) -> bool {
    &&& forall|i: int| 0 <= i < runs.len() ==> (#[trigger] runs[i]).len > 0
    &&& forall|i: int| 0 <= i < runs.len() - 1 ==> (#[trigger] runs[i]).pbr_props != runs[i + 1].pbr_props
}

pub proof fn lemma_expand_len(runs: Seq<Run>)
    ensures
        expand(runs).len() == total_len(runs),
    decreases runs.len(),
{
    if runs.len() > 0 {
        lemma_expand_len(runs.drop_last());
    }
}

proof fn lemma_expand_prefix(runs: Seq<Run>, r: int)
    requires
        0 <= r < runs.len(),
    ensures
        expand(runs.subrange(0, r + 1)) == expand(runs.subrange(0, r)) + Seq::new(
            runs[r].len as nat,
            |_i: int| runs[r].pbr_props,
        ),
        total_len(runs.subrange(0, r + 1)) == total_len(runs.subrange(0, r)) + runs[r].len,
{
    assert(runs.subrange(0, r + 1).drop_last() =~= runs.subrange(0, r));
}

impl CompressedChunk {
    /// The runs of `chunk`: the shortest run-length encoding of its cells. A chunk of empty
    /// cells gives one run over the whole chunk.
    pub fn from_chunk(chunk: &Chunk) -> (r: CompressedChunk)
        requires
            chunk.wf(),
        ensures
            expand(r.runs@) == chunk.voxels@,
            canonical(r.runs@),
    {
        let mut runs: Vec<Run> = Vec::new();
        let mut run = Run { len: 0, pbr_props: PbrProps::empty() };
        let mut i: usize = 0;
        while i < chunk.voxels.len()
            invariant
                chunk.wf(),
                0 <= i <= COUNT,
                run.len == i - total_len(runs@),
                i == 0 ==> runs@.len() == 0 && run.len == 0,
                i > 0 ==> run.len > 0,
                canonical(runs@),
                runs@.len() > 0 ==> runs@.last().pbr_props != run.pbr_props,
                expand(runs@) + Seq::new(run.len as nat, |_j: int| run.pbr_props)
                    == chunk.voxels@.subrange(0, i as int),
            decreases COUNT - i,
        {
            let p = chunk.voxels[i];
            let ghost prev = expand(runs@);
            proof {
                lemma_expand_len(runs@);
            }
            if run.pbr_props == p {
                run.len = run.len + 1;
                assert(expand(runs@) + Seq::new(run.len as nat, |_j: int| run.pbr_props)
                    =~= chunk.voxels@.subrange(0, i + 1));
            } else {
                if run.len > 0 {
                    let ghost old_runs = runs@;
                    runs.push(run);
                    assert(runs@.drop_last() =~= old_runs);
                    assert(canonical(runs@)) by {
                        assert forall|j: int| 0 <= j < runs@.len() - 1 implies (#[trigger] runs@[j]).pbr_props
                            != runs@[j + 1].pbr_props by {
                            if j < runs@.len() - 2 {
                                assert(runs@[j] == old_runs[j] && runs@[j + 1] == old_runs[j + 1]);
                            }
                        }
                    }
                }
                run = Run { len: 1, pbr_props: p };
                assert(expand(runs@) + Seq::new(run.len as nat, |_j: int| run.pbr_props)
                    =~= chunk.voxels@.subrange(0, i + 1));
            }
            i = i + 1;
        }
        let ghost old_runs = runs@;
        runs.push(run);
        proof {
            assert(runs@.drop_last() =~= old_runs);
            assert(chunk.voxels@.subrange(0, COUNT as int) =~= chunk.voxels@);
            assert forall|j: int| 0 <= j < runs@.len() - 1 implies (#[trigger] runs@[j]).pbr_props
                != runs@[j + 1].pbr_props by {
                if j < runs@.len() - 2 {
                    assert(runs@[j] == old_runs[j] && runs@[j + 1] == old_runs[j + 1]);
                }
            }
        }
        CompressedChunk { runs }
    }

    /// Whether the run lengths add up to the number of cells in a chunk.
    pub open spec fn decodable(&self) -> bool {
        total_len(self.runs@) == COUNT
    }

    /// Sum of the run lengths when it is at most `COUNT`, else `None`.
    fn checked_total(&self) -> (r: Option<usize>)
        ensures
            r.is_some() == (total_len(self.runs@) <= COUNT),
            r.is_some() ==> r.unwrap() == total_len(self.runs@),
    {
        let mut total: usize = 0;
        let mut i: usize = 0;
        while i < self.runs.len()
            invariant
                0 <= i <= self.runs@.len(),
                total == total_len(self.runs@.subrange(0, i as int)),
                total <= COUNT,
            decreases self.runs@.len() - i,
        {
            proof {
                lemma_expand_prefix(self.runs@, i as int);
            }
            let len = self.runs[i].len as usize;
            if len > COUNT - total {
                proof {
                    lemma_total_prefix_le(self.runs@, i + 1);
                }
                return None;
            }
            total = total + len;
            i = i + 1;
        }
        assert(self.runs@.subrange(0, i as int) =~= self.runs@);
        Some(total)
    }
}

proof fn lemma_total_prefix_le(runs: Seq<Run>, j: int)
    requires
        0 <= j <= runs.len(),
    ensures
        total_len(runs.subrange(0, j)) <= total_len(runs),
    decreases runs.len(),
{
    if j == runs.len() {
        assert(runs.subrange(0, j) =~= runs);
    } else {
        lemma_total_prefix_le(runs.drop_last(), j);
        assert(runs.drop_last().subrange(0, j) =~= runs.subrange(0, j));
    }
}

impl Chunk {
    /// The chunk that `compressed` encodes; rejected when its run lengths do not add up to
    /// the number of cells in a chunk.
    pub fn from_compressed(compressed: &CompressedChunk) -> (r: Result<Chunk, DecompressError>)
        ensures
            r.is_ok() == compressed.decodable(),
            r.is_err() ==> r == Err::<Chunk, DecompressError>(DecompressError::RunLength),
            r.is_ok() ==> r.unwrap().wf() && r.unwrap().voxels@ == expand(compressed.runs@),
    {
        match compressed.checked_total() {
            Some(total) => {
                if total != COUNT {
                    return Err(DecompressError::RunLength);
                }
            },
            None => {
                return Err(DecompressError::RunLength);
            },
        }
        let runs = &compressed.runs;
        let mut voxels: Vec<PbrProps> = Vec::new();
        let mut count: usize = 0;
        let mut r: usize = 0;
        while r < runs.len()
            invariant
                0 <= r <= runs@.len(),
                total_len(runs@) == COUNT,
                voxels@ == expand(runs@.subrange(0, r as int)),
                count == count_occupied(voxels@),
            decreases runs@.len() - r,
        {
            let run = runs[r];
            proof {
                lemma_expand_prefix(runs@, r as int);
                lemma_total_prefix_le(runs@, r + 1);
                lemma_expand_len(runs@.subrange(0, r + 1));
            }
            let mut j: u32 = 0;
            while j < run.len
                invariant
                    0 <= r < runs@.len(),
                    run == runs@[r as int],
                    j <= run.len,
                    voxels@ == expand(runs@.subrange(0, r as int)) + Seq::new(
                        j as nat,
                        |_i: int| run.pbr_props,
                    ),
                    expand(runs@.subrange(0, r + 1)).len() <= COUNT,
                    expand(runs@.subrange(0, r + 1)) == expand(runs@.subrange(0, r as int))
                        + Seq::new(run.len as nat, |_i: int| run.pbr_props),
                    count == count_occupied(voxels@),
                decreases run.len - j,
            {
                let ghost before = voxels@;
                voxels.push(run.pbr_props);
                proof {
                    assert(voxels@.drop_last() =~= before);
                    lemma_count_bounded(before);
                }
                count = count + if run.pbr_props.is_empty() {
                    0
                } else {
                    1
                };
                j = j + 1;
                assert(voxels@ =~= expand(runs@.subrange(0, r as int)) + Seq::new(
                    j as nat,
                    |_i: int| run.pbr_props,
                ));
            }
            assert(voxels@ =~= expand(runs@.subrange(0, r + 1)));
            r = r + 1;
        }
        proof {
            assert(runs@.subrange(0, r as int) =~= runs@);
            lemma_expand_len(runs@);
        }
        Ok(Chunk { voxels, count })
    }
}

/// A grid as the compressed chunks of its stored chunks, each with its chunk coordinate.
#[derive(Clone, Debug)]
pub struct CompressedBuffer {
    pub chunks: Vec<(IVec3, CompressedChunk)>,
}

/// The chunk key of an entry.
pub open spec fn entry_key(e: (IVec3, CompressedChunk)) -> ChunkKey {
    (e.0.x, e.0.y, e.0.z)
}

/// The cell at `w` that the entries `es` stand for; the empty cell where no entry holds it.
pub open spec fn cell_of_entries(es: Seq<(IVec3, CompressedChunk)>, w: WorldCoord) -> PbrProps {
    let k = key_of(w.chunk_spec());
    if exists|i: int| 0 <= i < es.len() && #[trigger] entry_key(es[i]) == k {
        let i = choose|i: int| 0 <= i < es.len() && #[trigger] entry_key(es[i]) == k;
        expand(es[i].1.runs@)[w.local_spec().index_spec()]
    } else {
        empty_cell()
    }
}

/// Number of occupied cells that the entries `es` stand for.
pub open spec fn count_of_entries(es: Seq<(IVec3, CompressedChunk)>) -> nat
    decreases es.len(),
{
    if es.len() == 0 {
        0
    } else {
        count_of_entries(es.drop_last()) + count_occupied(expand(es.last().1.runs@))
    }
}

pub open spec fn keys_distinct(es: Seq<(IVec3, CompressedChunk)>) -> bool {
    forall|i: int, j: int|
        0 <= i < j < es.len() ==> entry_key(#[trigger] es[i]) != entry_key(#[trigger] es[j])
}

impl CompressedBuffer {
    /// No two entries share a coordinate, every coordinate is a valid chunk, and every
    /// chunk's run lengths add up to the number of cells in a chunk.
    pub open spec fn decodable(&self) -> bool {
        &&& keys_distinct(self.chunks@)
        &&& forall|i: int|
            0 <= i < self.chunks@.len() ==> coord_of(entry_key(#[trigger] self.chunks@[i])).valid()
        &&& forall|i: int|
            0 <= i < self.chunks@.len() ==> (#[trigger] self.chunks@[i]).1.decodable()
    }

    /// The cell at `w` that this compressed grid stands for.
    pub open spec fn decoded_cell(&self, w: WorldCoord) -> PbrProps {
        cell_of_entries(self.chunks@, w)
    }

    /// Number of occupied cells that this compressed grid stands for.
    pub open spec fn decoded_count(&self) -> nat {
        count_of_entries(self.chunks@)
    }

    /// This compressed grid holds, for each stored chunk of `m` and for nothing else, one
    /// entry whose runs are the shortest encoding of that chunk's cells.
    pub open spec fn encodes(&self, m: Map<ChunkKey, Chunk>) -> bool {
        &&& keys_distinct(self.chunks@)
        &&& self.chunks@.len() == m.dom().len()
        &&& forall|i: int|
            0 <= i < self.chunks@.len() ==> {
                let e = #[trigger] self.chunks@[i];
                &&& m.contains_key(entry_key(e))
                &&& expand(e.1.runs@) == m[entry_key(e)].voxels@
                &&& canonical(e.1.runs@)
            }
        &&& forall|k: ChunkKey|
            #[trigger] m.contains_key(k) ==> exists|i: int|
                0 <= i < self.chunks@.len() && #[trigger] entry_key(self.chunks@[i]) == k
    }

    /// Compresses every stored chunk of `buffer`, in increasing order of chunk coordinate.
    pub fn from_buffer(buffer: &Buffer) -> (r: CompressedBuffer)
        requires
            buffer.wf(),
        ensures
            r.encodes(buffer@),
            r.chunks@.len() == canonical_coords(buffer@).len(),
            forall|i: int|
                0 <= i < r.chunks@.len() ==> ChunkCoord((#[trigger] r.chunks@[i]).0) == canonical_coords(
                    buffer@,
                )[i],
    {
        let coords = buffer.sorted_chunk_coords();
        proof {
            assert forall|a: int, b: int| 0 <= a < b < coords@.len() implies coords@[a] != coords@[b] by {
                assert(crate::buffer::coord_lt(coords@[a], coords@[b]));
            }
            assert(coords@.len() == buffer@.dom().len()) by {
                let cs = coords@.to_set();
                coords@.unique_seq_to_set();
                let f = |c: ChunkCoord| key_of(c);
                assert(cs.map(f) =~= buffer@.dom()) by {
                    assert forall|k: ChunkKey| buffer@.dom().contains(k) implies cs.map(f).contains(k) by {
                        assert(crate::buffer::stored_coords(buffer@).contains(coord_of(k)));
                        assert(f(coord_of(k)) == k);
                    }
                }
                assert(vstd::relations::injective_on(f, cs));
                vstd::set_lib::lemma_map_size(cs, buffer@.dom(), f);
            }
        }
        let mut chunks: Vec<(IVec3, CompressedChunk)> = Vec::new();
        let mut i: usize = 0;
        while i < coords.len()
            invariant
                buffer.wf(),
                0 <= i <= coords@.len(),
                chunks@.len() == i,
                forall|j: int| 0 <= j < i ==> ChunkCoord((#[trigger] chunks@[j]).0) == coords@[j],
                forall|a: int, b: int| 0 <= a < b < coords@.len() ==> coords@[a] != coords@[b],
                forall|j: int|
                    0 <= j < coords@.len() ==> buffer@.contains_key(key_of(#[trigger] coords@[j])),
                forall|j: int|
                    0 <= j < i ==> {
                        let e = #[trigger] chunks@[j];
                        &&& entry_key(e) == key_of(coords@[j])
                        &&& expand(e.1.runs@) == buffer@[entry_key(e)].voxels@
                        &&& canonical(e.1.runs@)
                    },
            decreases coords@.len() - i,
        {
            let c = coords[i];
            let chunk = buffer.chunk(&c).unwrap();
            let compressed = CompressedChunk::from_chunk(chunk);
            chunks.push((c.0, compressed));
            i = i + 1;
        }
        let r = CompressedBuffer { chunks };
        proof {
            assert forall|a: int, b: int| 0 <= a < b < r.chunks@.len() implies entry_key(
                #[trigger] r.chunks@[a],
            ) != entry_key(#[trigger] r.chunks@[b]) by {
                assert(coords@[a] != coords@[b]);
            }
            assert forall|k: ChunkKey| #[trigger] buffer@.contains_key(k) implies exists|j: int|
                0 <= j < r.chunks@.len() && #[trigger] entry_key(r.chunks@[j]) == k by {
                assert(crate::buffer::stored_coords(buffer@).contains(coord_of(k)));
                assert(coords@.to_set().contains(coord_of(k)));
                let j = coords@.index_of(coord_of(k));
                assert(entry_key(r.chunks@[j]) == k);
            }
        }
        r
    }
}

proof fn lemma_count_of_entries_prefix(es: Seq<(IVec3, CompressedChunk)>, i: int)
    requires
        0 <= i < es.len(),
    ensures
        count_of_entries(es.subrange(0, i + 1)) == count_of_entries(es.subrange(0, i))
            + count_occupied(expand(es[i].1.runs@)),
{
    assert(es.subrange(0, i + 1).drop_last() =~= es.subrange(0, i));
}

/// Adding an entry whose key no earlier entry has changes the cells of its chunk only.
proof fn lemma_cell_of_entries_push(
    es: Seq<(IVec3, CompressedChunk)>,
    e: (IVec3, CompressedChunk),
    w: WorldCoord,
)
    requires
        keys_distinct(es),
        forall|i: int| 0 <= i < es.len() ==> entry_key(#[trigger] es[i]) != entry_key(e),
    ensures
        cell_of_entries(es.push(e), w) == if key_of(w.chunk_spec()) == entry_key(e) {
            expand(e.1.runs@)[w.local_spec().index_spec()]
        } else {
            cell_of_entries(es, w)
        },
{
    let k = key_of(w.chunk_spec());
    let t = es.push(e);
    if k == entry_key(e) {
        assert(entry_key(t[es.len() as int]) == k);
        let i = choose|i: int| 0 <= i < t.len() && #[trigger] entry_key(t[i]) == k;
        if i < es.len() {
            assert(t[i] == es[i]);
        }
    } else {
        if exists|i: int| 0 <= i < es.len() && #[trigger] entry_key(es[i]) == k {
            let i0 = choose|i: int| 0 <= i < es.len() && #[trigger] entry_key(es[i]) == k;
            assert(t[i0] == es[i0]);
            assert(entry_key(t[i0]) == k);
            let i = choose|i: int| 0 <= i < t.len() && #[trigger] entry_key(t[i]) == k;
            assert(i < es.len());
            assert(t[i] == es[i]);
            if i != i0 {
                if i < i0 {
                    assert(entry_key(es[i]) != entry_key(es[i0]));
                } else {
                    assert(entry_key(es[i0]) != entry_key(es[i]));
                }
            }
        } else {
            assert forall|i: int| 0 <= i < t.len() implies #[trigger] entry_key(t[i]) != k by {
                if i < es.len() {
                    assert(t[i] == es[i]);
                }
            }
        }
    }
}

/// Whether `c` is a valid chunk coordinate component.
fn in_chunk_range_exec(c: i32) -> (r: bool)
    ensures
        r == crate::coords::in_chunk_range(c as int),
{
    CHUNK_MIN <= c && c < CHUNK_LIMIT
}

impl Buffer {
    /// The grid that `compressed` stands for. Rejected when two entries share a coordinate,
    /// when a coordinate is not a valid chunk, or when a chunk's run lengths do not add up to
    /// the number of cells in a chunk. Chunks that hold only empty cells are not stored.
    pub fn from_compressed(compressed: &CompressedBuffer) -> (r: Result<Buffer, DecompressError>)
        ensures
            r.is_ok() == compressed.decodable(),
            r.is_ok() ==> {
                let b = r.unwrap();
                &&& b.wf()
                &&& forall|w: WorldCoord| #[trigger] b.cell_at(w) == compressed.decoded_cell(w)
                &&& b.count_spec() == compressed.decoded_count()
            },
            r == Err::<Buffer, DecompressError>(DecompressError::DuplicateChunk) ==> !keys_distinct(
                compressed.chunks@,
            ),
            r == Err::<Buffer, DecompressError>(DecompressError::ChunkOutOfRange) ==> exists|i: int|
                0 <= i < compressed.chunks@.len() && !coord_of(
                    entry_key(#[trigger] compressed.chunks@[i]),
                ).valid(),
            r == Err::<Buffer, DecompressError>(DecompressError::RunLength) ==> exists|i: int|
                0 <= i < compressed.chunks@.len() && !(#[trigger] compressed.chunks@[i]).1.decodable(),
    {
        let es = &compressed.chunks;
        let mut b = Buffer::new();
        let mut i: usize = 0;
        while i < es.len()
            invariant
                0 <= i <= es@.len(),
                es@ == compressed.chunks@,
                b.wf(),
                keys_distinct(es@.subrange(0, i as int)),
                forall|j: int|
                    0 <= j < i ==> coord_of(entry_key(#[trigger] es@[j])).valid() && es@[j].1.decodable(),
                forall|w: WorldCoord| #[trigger]
                    b.cell_at(w) == cell_of_entries(es@.subrange(0, i as int), w),
                b.count_spec() == count_of_entries(es@.subrange(0, i as int)),
                forall|k: ChunkKey|
                    #[trigger] b@.contains_key(k) ==> exists|j: int|
                        0 <= j < i && #[trigger] entry_key(es@[j]) == k,
            decreases es@.len() - i,
        {
            let e = &es[i];
            if !(in_chunk_range_exec(e.0.x) && in_chunk_range_exec(e.0.y) && in_chunk_range_exec(e.0.z)) {
                assert(!coord_of(entry_key(es@[i as int])).valid());
                return Err(DecompressError::ChunkOutOfRange);
            }
            let mut j: usize = 0;
            while j < i
                invariant
                    0 <= j <= i < es@.len(),
                    es@ == compressed.chunks@,
                    *e == es@[i as int],
                    forall|jj: int| 0 <= jj < j ==> entry_key(#[trigger] es@[jj]) != entry_key(es@[i as int]),
                decreases i - j,
            {
                if es[j].0 == e.0 {
                    assert(entry_key(es@[j as int]) == entry_key(es@[i as int]));
                    return Err(DecompressError::DuplicateChunk);
                }
                j = j + 1;
            }
            let chunk = match Chunk::from_compressed(&e.1) {
                Ok(ch) => ch,
                Err(err) => {
                    return Err(err);
                },
            };
            let c = ChunkCoord(e.0);
            let ghost before = b;
            let ghost prefix = es@.subrange(0, i as int);
            proof {
                lemma_expand_len(e.1.runs@);
                assert(es@.subrange(0, i + 1) =~= prefix.push(*e));
                lemma_count_of_entries_prefix(es@, i as int);
                assert(forall|jj: int| 0 <= jj < prefix.len() ==> #[trigger] prefix[jj] == es@[jj]);
                assert(!before@.contains_key(key_of(c))) by {
                    if before@.contains_key(key_of(c)) {
                        let jj = choose|jj: int| 0 <= jj < i && #[trigger] entry_key(es@[jj]) == key_of(c);
                        assert(entry_key(es@[jj]) != entry_key(es@[i as int]));
                    }
                }
            }
            if chunk.count > 0 {
                b.insert_chunk(c, chunk);
            }
            proof {
                let next = es@.subrange(0, i + 1);
                assert forall|a: int, bb: int| 0 <= a < bb < next.len() implies entry_key(
                    #[trigger] next[a],
                ) != entry_key(#[trigger] next[bb]) by {
                    if bb < i {
                        assert(prefix[a] == next[a] && prefix[bb] == next[bb]);
                    } else {
                        assert(next[a] == es@[a]);
                    }
                }
                if chunk.count == 0 {
                    lemma_count_zero_all_empty(chunk.voxels@);
                }
                assert forall|w: WorldCoord| #[trigger]
                    b.cell_at(w) == cell_of_entries(next, w) by {
                    lemma_cell_of_entries_push(prefix, *e, w);
                    lemma_chunk_local_split(w);
                    let lw = w.local_spec();
                    lemma_linear_inverse(lw.0.x as int, lw.0.y as int, lw.0.z as int);
                    assert(before.cell_at(w) == cell_of_entries(prefix, w));
                }
                assert forall|k: ChunkKey| #[trigger] b@.contains_key(k) implies exists|jj: int|
                    0 <= jj < i + 1 && #[trigger] entry_key(es@[jj]) == k by {
                    if k == key_of(c) {
                        assert(entry_key(es@[i as int]) == k);
                    } else {
                        assert(before@.contains_key(k));
                    }
                }
            }
            i = i + 1;
        }
        assert(es@.subrange(0, i as int) =~= es@);
        Ok(b)
    }
}

/// The chunk keys of the entries, in order.
pub open spec fn keys_of_entries(es: Seq<(IVec3, CompressedChunk)>) -> Seq<ChunkKey> {
    es.map_values(|e: (IVec3, CompressedChunk)| entry_key(e))
}

proof fn lemma_entries_sum(m: Map<ChunkKey, Chunk>, es: Seq<(IVec3, CompressedChunk)>)
    requires
        forall|i: int|
            0 <= i < es.len() ==> count_occupied(expand((#[trigger] es[i]).1.runs@))
                == m[entry_key(es[i])].count,
    ensures
        count_of_entries(es) == sum_counts(m, keys_of_entries(es)),
    decreases es.len(),
{
    if es.len() > 0 {
        let d = es.drop_last();
        assert forall|i: int| 0 <= i < d.len() implies count_occupied(expand((#[trigger] d[i]).1.runs@))
            == m[entry_key(d[i])].count by {
            assert(d[i] == es[i]);
        }
        lemma_entries_sum(m, d);
        assert(keys_of_entries(es).drop_last() =~= keys_of_entries(d));
        assert(es.last() == es[es.len() - 1]);
    }
}

/// Decompressing the compression of a grid succeeds and restores every cell and the number
/// of occupied cells.
pub proof fn lemma_round_trip(b: &Buffer, c: &CompressedBuffer)
    requires
        b.wf(),
        c.encodes(b@),
    ensures
        c.decodable(),
        forall|w: WorldCoord| #[trigger] c.decoded_cell(w) == b.cell_at(w),
        c.decoded_count() == b.count_spec(),
{
    let es = c.chunks@;
    let m = b@;
    assert forall|i: int| 0 <= i < es.len() implies (#[trigger] es[i]).1.decodable() by {
        lemma_expand_len(es[i].1.runs@);
        assert(m.contains_key(entry_key(es[i])));
    }
    assert forall|i: int| 0 <= i < es.len() implies coord_of(entry_key(#[trigger] es[i])).valid() by {
        assert(m.contains_key(entry_key(es[i])));
    }
    assert forall|w: WorldCoord| #[trigger] c.decoded_cell(w) == b.cell_at(w) by {
        let k = key_of(w.chunk_spec());
        if m.contains_key(k) {
            let i0 = choose|i: int| 0 <= i < es.len() && #[trigger] entry_key(es[i]) == k;
            assert(entry_key(es[i0]) == k);
        } else {
            assert forall|i: int| 0 <= i < es.len() implies #[trigger] entry_key(es[i]) != k by {
                assert(m.contains_key(entry_key(es[i])));
            }
        }
    }
    assert forall|i: int| 0 <= i < es.len() implies count_occupied(expand((#[trigger] es[i]).1.runs@))
        == m[entry_key(es[i])].count by {
        assert(m.contains_key(entry_key(es[i])));
    }
    lemma_entries_sum(m, es);
    let ks = keys_of_entries(es);
    assert(ks.no_duplicates()) by {
        assert forall|i: int, j: int| 0 <= i < ks.len() && 0 <= j < ks.len() && i != j implies ks[i]
            != ks[j] by {
            if i < j {
                assert(entry_key(es[i]) != entry_key(es[j]));
            } else {
                assert(entry_key(es[j]) != entry_key(es[i]));
            }
        }
    }
    assert(ks.to_set() =~= m.dom()) by {
        assert forall|k: ChunkKey| ks.to_set().contains(k) implies m.dom().contains(k) by {
            let i = ks.index_of(k);
            assert(m.contains_key(entry_key(es[i])));
        }
        assert forall|k: ChunkKey| m.dom().contains(k) implies ks.to_set().contains(k) by {
            assert(m.contains_key(k));
            let i = choose|i: int| 0 <= i < es.len() && #[trigger] entry_key(es[i]) == k;
            assert(ks[i] == k);
        }
    }
    lemma_sum_is_total(m, ks);
}

} // verus!
