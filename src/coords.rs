//! Coordinate spaces of the voxel grid: world cells, 32-wide chunks, and
//! positions local to one chunk, with the linear index used for chunk storage.
use vstd::prelude::*;

verus! {

/// Width of a chunk along each axis.
pub const WIDTH: usize = 32;

/// Base-two logarithm of `WIDTH`.
pub const LN_SIZE: usize = 5;

/// Number of cells in one chunk.
pub const COUNT: usize = 32768;

/// All bits above the in-chunk part of a coordinate (`!(WIDTH - 1)`).
const UPPER_MASK: i32 = -32;

/// Smallest chunk coordinate whose cells all have `i32` world coordinates.
pub const CHUNK_MIN: i32 = -67108864;

/// One past the largest chunk coordinate whose cells all have `i32` world coordinates.
pub const CHUNK_LIMIT: i32 = 67108864;

/// A signed integer 3-vector.
#[derive(Clone, Copy, Debug, PartialEq, Eq, Hash, Structural)]
pub struct IVec3 {
    pub x: i32,
    pub y: i32,
    pub z: i32,
}

/// An unsigned integer 3-vector.
#[derive(Clone, Copy, Debug, PartialEq, Eq, Hash, Structural)]
pub struct UVec3 {
    pub x: u32,
    pub y: u32,
    pub z: u32,
}

impl IVec3 {
    pub fn new(x: i32, y: i32, z: i32) -> (r: IVec3)
        ensures
            r == (IVec3 { x, y, z }),
    {
        IVec3 { x, y, z }
    }
}

impl UVec3 {
    pub fn new(x: u32, y: u32, z: u32) -> (r: UVec3)
        ensures
            r == (UVec3 { x, y, z }),
    {
        UVec3 { x, y, z }
    }
}

/// A single cell of the grid.
#[derive(Clone, Copy, Debug, PartialEq, Eq, Hash, Structural)]
pub struct WorldCoord(pub IVec3);

/// A chunk of 32x32x32 cells; chunk `c` holds the world cells `32 * c ..= 32 * c + 31`.
#[derive(Clone, Copy, Debug, PartialEq, Eq, Hash, Structural)]
pub struct ChunkCoord(pub IVec3);

/// A cell relative to the first cell of its chunk; each component is below 32 when valid.
#[derive(Clone, Copy, Debug, PartialEq, Eq, Hash, Structural)]
pub struct LocalCoord(pub UVec3);

/// A displacement between world cells.
#[derive(Clone, Copy, Debug, PartialEq, Eq, Hash, Structural)]
pub struct WorldCoordOffset(pub IVec3);

/// A coordinate tagged with the space it lives in.
#[derive(Clone, Copy, Debug, PartialEq, Eq, Hash, Structural)]
pub enum Coord {
    Cell(IVec3),
    Chunk(IVec3),
    Local(UVec3),
}

/// The chunk that holds world component `c`: division rounding toward negative infinity.
pub open spec fn chunk_of(c: int) -> int {
    c / 32
}

/// The position of world component `c` inside its chunk, in `0..32`.
pub open spec fn local_of(c: int) -> int {
    c % 32
}

/// Linear index of a local position: `x + 32 * y + 1024 * z`.
pub open spec fn linear_index(x: int, y: int, z: int) -> int {
    x + y * 32 + z * 1024
}

/// The local position whose linear index is `i`.
pub open spec fn delinearize(i: int) -> (int, int, int) {
    (i % 32, (i / 32) % 32, i / 1024)
}

pub open spec fn in_chunk_range(c: int) -> bool {
    CHUNK_MIN <= c < CHUNK_LIMIT
}

impl WorldCoord {
    /// The chunk holding this cell.
    pub open spec fn chunk_spec(self) -> ChunkCoord {
        ChunkCoord(
            IVec3 {
                x: chunk_of(self.0.x as int) as i32,
                y: chunk_of(self.0.y as int) as i32,
                z: chunk_of(self.0.z as int) as i32,
            },
        )
    }

    /// This cell's position within its chunk.
    pub open spec fn local_spec(self) -> LocalCoord {
        LocalCoord(
            UVec3 {
                x: local_of(self.0.x as int) as u32,
                y: local_of(self.0.y as int) as u32,
                z: local_of(self.0.z as int) as u32,
            },
        )
    }
}

impl ChunkCoord {
    /// Every cell of the chunk has `i32` world coordinates.
    pub open spec fn valid(self) -> bool {
        in_chunk_range(self.0.x as int) && in_chunk_range(self.0.y as int) && in_chunk_range(
            self.0.z as int,
        )
    }

    /// The world cell at offset `(x, y, z)` from the chunk's first cell.
    pub open spec fn cell_spec(self, x: int, y: int, z: int) -> WorldCoord {
        WorldCoord(
            IVec3 {
                x: (self.0.x * 32 + x) as i32,
                y: (self.0.y * 32 + y) as i32,
                z: (self.0.z * 32 + z) as i32,
            },
        )
    }
}

impl LocalCoord {
    pub open spec fn valid(self) -> bool {
        self.0.x < 32 && self.0.y < 32 && self.0.z < 32
    }

    pub open spec fn index_spec(self) -> int {
        linear_index(self.0.x as int, self.0.y as int, self.0.z as int)
    }
}

proof fn lemma_shr_floor(c: i32)
    ensures
        (c >> 5u32) as int == chunk_of(c as int),
        (c & 31i32) as int == local_of(c as int),
        c - (c & UPPER_MASK) == c & 31i32,
{
    assert(0 <= (c & 31i32) < 32) by (bit_vector);
    assert(((c >> 5u32) << 5u32) + (c & 31i32) == c) by (bit_vector);
    assert(-67108864 <= (c >> 5u32) < 67108864) by (bit_vector);
    assert((c >> 5u32) << 5u32 == (c >> 5u32) * 32) by (bit_vector)
        requires
            -67108864 <= (c >> 5u32) < 67108864,
    ;
    assert((c & -32i32) + (c & 31i32) == c) by (bit_vector);
}

/// World component of the first cell of chunk component `c`.
fn first_of_chunk(c: i32) -> (r: i32)
    requires
        in_chunk_range(c as int),
    ensures
        r == c * 32,
{
    assert(c << 5u32 == c * 32) by (bit_vector)
        requires
            -67108864 <= c < 67108864,
    ;
    c << 5u32
}

/// Chunk component holding world component `c`.
fn chunk_component(c: i32) -> (r: i32)
    ensures
        r as int == chunk_of(c as int),
        in_chunk_range(r as int),
{
    proof {
        lemma_shr_floor(c);
    }
    c >> 5u32
}

/// Local component of world component `c`.
fn local_component(c: i32) -> (r: u32)
    ensures
        r as int == local_of(c as int),
        r < 32,
{
    proof {
        lemma_shr_floor(c);
    }
    (c - (c & UPPER_MASK)) as u32
}

impl From<(i32, i32, i32)> for WorldCoord {
    fn from(v: (i32, i32, i32)) -> (r: WorldCoord) {
        WorldCoord(IVec3::new(v.0, v.1, v.2))
    }
}

impl vstd::std_specs::convert::FromSpecImpl<(i32, i32, i32)> for WorldCoord {
    open spec fn obeys_from_spec() -> bool {
        true
    }

    open spec fn from_spec(v: (i32, i32, i32)) -> WorldCoord {
        WorldCoord(IVec3 { x: v.0, y: v.1, z: v.2 })
    }
}

impl From<(i32, i32, i32)> for WorldCoordOffset {
    fn from(v: (i32, i32, i32)) -> (r: WorldCoordOffset) {
        WorldCoordOffset(IVec3::new(v.0, v.1, v.2))
    }
}

impl vstd::std_specs::convert::FromSpecImpl<(i32, i32, i32)> for WorldCoordOffset {
    open spec fn obeys_from_spec() -> bool {
        true
    }

    open spec fn from_spec(v: (i32, i32, i32)) -> WorldCoordOffset {
        WorldCoordOffset(IVec3 { x: v.0, y: v.1, z: v.2 })
    }
}

impl From<WorldCoord> for ChunkCoord {
    fn from(c: WorldCoord) -> (r: ChunkCoord) {
        ChunkCoord(IVec3::new(chunk_component(c.0.x), chunk_component(c.0.y), chunk_component(c.0.z)))
    }
}

impl vstd::std_specs::convert::FromSpecImpl<WorldCoord> for ChunkCoord {
    open spec fn obeys_from_spec() -> bool {
        true
    }

    open spec fn from_spec(c: WorldCoord) -> ChunkCoord {
        c.chunk_spec()
    }
}

impl From<WorldCoord> for LocalCoord {
    fn from(c: WorldCoord) -> (r: LocalCoord) {
        LocalCoord(UVec3::new(local_component(c.0.x), local_component(c.0.y), local_component(c.0.z)))
    }
}

impl vstd::std_specs::convert::FromSpecImpl<WorldCoord> for LocalCoord {
    open spec fn obeys_from_spec() -> bool {
        true
    }

    open spec fn from_spec(c: WorldCoord) -> LocalCoord {
        c.local_spec()
    }
}

impl WorldCoord {
    /// The cell at offset `(x, y, z)` from the first cell of `chunk_coord`.
    pub fn from_offset_into_chunk(chunk_coord: &ChunkCoord, x: usize, y: usize, z: usize) -> (r:
        WorldCoord)
        requires
            chunk_coord.valid(),
            x < WIDTH,
            y < WIDTH,
            z < WIDTH,
        ensures
            r == chunk_coord.cell_spec(x as int, y as int, z as int),
    {
        WorldCoord(
            IVec3::new(
                first_of_chunk(chunk_coord.0.x) + x as i32,
                first_of_chunk(chunk_coord.0.y) + y as i32,
                first_of_chunk(chunk_coord.0.z) + z as i32,
            ),
        )
    }
}

impl ChunkCoord {
    /// The chunk's cell with the smallest coordinates.
    pub fn first_cell_coord(&self) -> (r: WorldCoord)
        requires
            self.valid(),
        ensures
            r == self.cell_spec(0, 0, 0),
    {
        WorldCoord(
            IVec3::new(first_of_chunk(self.0.x), first_of_chunk(self.0.y), first_of_chunk(self.0.z)),
        )
    }

    /// The chunk's cell with the largest coordinates.
    pub fn last_cell_coord(&self) -> (r: WorldCoord)
        requires
            self.valid(),
        ensures
            r == self.cell_spec(31, 31, 31),
    {
        WorldCoord(
            IVec3::new(
                first_of_chunk(self.0.x) + 31,
                first_of_chunk(self.0.y) + 31,
                first_of_chunk(self.0.z) + 31,
            ),
        )
    }

    /// All cells of the chunk, in the order of their linear index.
    pub fn iter_world_coords(&self) -> (r: Vec<WorldCoord>)
        requires
            self.valid(),
        ensures
            r@.len() == COUNT,
            forall|x: int, y: int, z: int|
                0 <= x < 32 && 0 <= y < 32 && 0 <= z < 32 ==> #[trigger] r@[linear_index(x, y, z)]
                    == self.cell_spec(x, y, z),
    {
        let first = self.first_cell_coord();
        let mut r: Vec<WorldCoord> = Vec::new();
        let mut z: usize = 0;
        while z < WIDTH
            invariant
                z <= 32,
                self.valid(),
                first == self.cell_spec(0, 0, 0),
                r@.len() == z * 1024,
                forall|x: int, y: int, zz: int|
                    0 <= x < 32 && 0 <= y < 32 && 0 <= zz < z ==> #[trigger] r@[linear_index(
                        x,
                        y,
                        zz,
                    )] == self.cell_spec(x, y, zz),
            decreases 32 - z,
        {
            let mut y: usize = 0;
            while y < WIDTH
                invariant
                    z < 32,
                    y <= 32,
                    self.valid(),
                    first == self.cell_spec(0, 0, 0),
                    r@.len() == z * 1024 + y * 32,
                    forall|x: int, yy: int, zz: int|
                        0 <= x < 32 && 0 <= yy < 32 && 0 <= zz < z ==> #[trigger] r@[linear_index(
                            x,
                            yy,
                            zz,
                        )] == self.cell_spec(x, yy, zz),
                    forall|x: int, yy: int|
                        0 <= x < 32 && 0 <= yy < y ==> #[trigger] r@[linear_index(x, yy, z as int)]
                            == self.cell_spec(x, yy, z as int),
                decreases 32 - y,
            {
                let mut x: usize = 0;
                while x < WIDTH
                    invariant
                        z < 32,
                        y < 32,
                        x <= 32,
                        self.valid(),
                        first == self.cell_spec(0, 0, 0),
                        r@.len() == z * 1024 + y * 32 + x,
                        forall|xx: int, yy: int, zz: int|
                            0 <= xx < 32 && 0 <= yy < 32 && 0 <= zz < z ==> #[trigger] r@[linear_index(
                                xx,
                                yy,
                                zz,
                            )] == self.cell_spec(xx, yy, zz),
                        forall|xx: int, yy: int|
                            0 <= xx < 32 && 0 <= yy < y ==> #[trigger] r@[linear_index(
                                xx,
                                yy,
                                z as int,
                            )] == self.cell_spec(xx, yy, z as int),
                        forall|xx: int|
                            0 <= xx < x ==> #[trigger] r@[linear_index(xx, y as int, z as int)]
                                == self.cell_spec(xx, y as int, z as int),
                    decreases 32 - x,
                {
                    r.push(
                        WorldCoord(
                            IVec3::new(first.0.x + x as i32, first.0.y + y as i32, first.0.z + z as i32),
                        ),
                    );
                    x = x + 1;
                }
                y = y + 1;
            }
            z = z + 1;
        }
        r
    }
}

impl LocalCoord {
    /// The world cell at this position inside `chunk_coord`.
    pub fn to_cell_coord(&self, chunk_coord: &ChunkCoord) -> (r: WorldCoord)
        requires
            self.valid(),
            chunk_coord.valid(),
        ensures
            r == chunk_coord.cell_spec(self.0.x as int, self.0.y as int, self.0.z as int),
    {
        let first = chunk_coord.first_cell_coord();
        WorldCoord(
            IVec3::new(
                first.0.x + self.0.x as i32,
                first.0.y + self.0.y as i32,
                first.0.z + self.0.z as i32,
            ),
        )
    }

    /// Index of this position in a chunk's cell storage: `x + 32 * y + 1024 * z`.
    pub fn linearize(&self) -> (r: usize)
        requires
            self.valid(),
        ensures
            r == self.index_spec(),
            r < COUNT,
    {
        (self.0.x as usize) + (self.0.y as usize) * 32 + (self.0.z as usize) * 1024
    }
}

impl WorldCoordOffset {
    /// The cell displaced by this offset from `anchor`.
    pub fn to_cell_coord(&self, anchor: WorldCoord) -> (r: WorldCoord)
        requires
            i32::MIN <= anchor.0.x + self.0.x <= i32::MAX,
            i32::MIN <= anchor.0.y + self.0.y <= i32::MAX,
            i32::MIN <= anchor.0.z + self.0.z <= i32::MAX,
        ensures
            r.0.x == anchor.0.x + self.0.x,
            r.0.y == anchor.0.y + self.0.y,
            r.0.z == anchor.0.z + self.0.z,
    {
        WorldCoord(IVec3::new(anchor.0.x + self.0.x, anchor.0.y + self.0.y, anchor.0.z + self.0.z))
    }
}

/// Every world cell has a local position inside `0..32` on each axis, its chunk is a valid
/// chunk, the cell is that chunk's cell at that position, and the chunk of the chunk's first
/// cell is the chunk itself.
pub proof fn lemma_chunk_local_split(c: WorldCoord)
    ensures
        c.local_spec().valid(),
        c.chunk_spec().valid(),
        c.chunk_spec().cell_spec(
            c.local_spec().0.x as int,
            c.local_spec().0.y as int,
            c.local_spec().0.z as int,
        ) == c,
        c.chunk_spec().cell_spec(0, 0, 0).chunk_spec() == c.chunk_spec(),
{
    lemma_shr_floor(c.0.x);
    lemma_shr_floor(c.0.y);
    lemma_shr_floor(c.0.z);
    let k = c.chunk_spec();
    assert(k.0.x * 32 / 32 == k.0.x);
    assert(k.0.y * 32 / 32 == k.0.y);
    assert(k.0.z * 32 / 32 == k.0.z);
}

/// The cell at local position `(x, y, z)` of a valid chunk lies in that chunk, at that position.
pub proof fn lemma_cell_of_chunk(k: ChunkCoord, x: int, y: int, z: int)
    requires
        k.valid(),
        0 <= x < 32,
        0 <= y < 32,
        0 <= z < 32,
    ensures
        k.cell_spec(x, y, z).chunk_spec() == k,
        k.cell_spec(x, y, z).local_spec() == (LocalCoord(
            UVec3 { x: x as u32, y: y as u32, z: z as u32 },
        )),
{
    assert((k.0.x * 32 + x) / 32 == k.0.x && (k.0.x * 32 + x) % 32 == x) by (nonlinear_arith)
        requires
            0 <= x < 32,
    ;
    assert((k.0.y * 32 + y) / 32 == k.0.y && (k.0.y * 32 + y) % 32 == y) by (nonlinear_arith)
        requires
            0 <= y < 32,
    ;
    assert((k.0.z * 32 + z) / 32 == k.0.z && (k.0.z * 32 + z) % 32 == z) by (nonlinear_arith)
        requires
            0 <= z < 32,
    ;
}

/// Linearization is a bijection from the local positions `[0, 32)^3` onto `[0, 32768)`:
/// every position lands in range, `delinearize` inverts it, and every index in range is the
/// image of exactly the position `delinearize` gives.
pub proof fn lemma_linearize_bijective()
    ensures
        forall|x: int, y: int, z: int|
            0 <= x < 32 && 0 <= y < 32 && 0 <= z < 32 ==> 0 <= #[trigger] linear_index(x, y, z)
                < COUNT && delinearize(linear_index(x, y, z)) == (x, y, z),
        forall|i: int|
            0 <= i < COUNT ==> {
                let (x, y, z) = #[trigger] delinearize(i);
                &&& 0 <= x < 32
                &&& 0 <= y < 32
                &&& 0 <= z < 32
                &&& linear_index(x, y, z) == i
            },
{
    assert forall|x: int, y: int, z: int|
        0 <= x < 32 && 0 <= y < 32 && 0 <= z < 32 implies 0 <= #[trigger] linear_index(x, y, z)
        < COUNT && delinearize(linear_index(x, y, z)) == (x, y, z) by {
        lemma_linear_inverse(x, y, z);
    }
    assert forall|i: int| 0 <= i < COUNT implies {
        let (x, y, z) = #[trigger] delinearize(i);
        &&& 0 <= x < 32
        &&& 0 <= y < 32
        &&& 0 <= z < 32
        &&& linear_index(x, y, z) == i
    } by {
        lemma_delinear_inverse(i);
    }
}

pub proof fn lemma_linear_inverse(x: int, y: int, z: int)
    requires
        0 <= x < 32,
        0 <= y < 32,
        0 <= z < 32,
    ensures
        0 <= linear_index(x, y, z) < COUNT,
        delinearize(linear_index(x, y, z)) == (x, y, z),
{
    let i = linear_index(x, y, z);
    assert(i % 32 == x && (i / 32) % 32 == y && i / 1024 == z) by (nonlinear_arith)
        requires
            i == x + y * 32 + z * 1024,
            0 <= x < 32,
            0 <= y < 32,
            0 <= z < 32,
    ;
}

proof fn lemma_delinear_inverse(i: int)
    requires
        0 <= i < COUNT,
    ensures
        ({
            let (x, y, z) = delinearize(i);
            &&& 0 <= x < 32
            &&& 0 <= y < 32
            &&& 0 <= z < 32
            &&& linear_index(x, y, z) == i
        }),
{
    assert(0 <= i % 32 < 32 && 0 <= (i / 32) % 32 < 32 && 0 <= i / 1024 < 32 && i % 32 + ((i / 32)
        % 32) * 32 + (i / 1024) * 1024 == i) by (nonlinear_arith)
        requires
            0 <= i < 32768,
    ;
}

} // verus!
