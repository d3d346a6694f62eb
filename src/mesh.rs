//! Greedy surface meshing: the visible faces of each stored chunk, merged slice by slice into
//! rectangles of equal material, with per-corner ambient occlusion.
use vstd::prelude::*;
use crate::buffer::{
    Buffer,
    FastBufferReader,
    canonical_coords,
    key_of,
    stored_coords,
    strictly_sorted,
};
use crate::cell::{PbrProps, empty_cell};
use crate::coords::{ChunkCoord, WorldCoord, lemma_chunk_local_split};

verus! {

/// Position `(u, v)` of a 32x32 slice as an index into its row-major storage.
pub open spec fn sidx(u: int, v: int) -> int {
    v * 32 + u
}

/// The cell at `(u, v)` is occupied and its neighbour along the face normal is empty.
pub open spec fn visible_at(cells: Seq<PbrProps>, open: Seq<bool>, u: int, v: int) -> bool {
    cells[sidx(u, v)] != empty_cell() && open[sidx(u, v)]
}

/// A rectangle of a slice: `w` positions along `u` from `u`, `h` along `v` from `v`.
#[derive(Clone, Copy, Debug, PartialEq, Eq, Hash, Structural)]
pub struct SliceQuad {
    pub u: usize,
    pub v: usize,
    pub w: usize,
    pub h: usize,
    pub pbr_props: PbrProps,
}

impl SliceQuad {
    pub open spec fn covers(self, u: int, v: int) -> bool {
        self.u <= u < self.u + self.w && self.v <= v < self.v + self.h
    }

    /// The rectangle is non-empty, inside the slice, and each position in it is visible and
    /// holds `pbr_props`.
    pub open spec fn sound(self, cells: Seq<PbrProps>, open: Seq<bool>) -> bool {
        &&& 1 <= self.w && self.u + self.w <= 32
        &&& 1 <= self.h && self.v + self.h <= 32
        &&& self.pbr_props != empty_cell()
        &&& forall|u: int, v: int|
            #[trigger] self.covers(u, v) ==> cells[sidx(u, v)] == self.pbr_props && open[sidx(u, v)]
    }
}

/// The rectangles are sound, pairwise disjoint, and cover every visible position.
pub open spec fn slice_partition(qs: Seq<SliceQuad>, cells: Seq<PbrProps>, open: Seq<bool>) -> bool {
    &&& forall|i: int| 0 <= i < qs.len() ==> (#[trigger] qs[i]).sound(cells, open)
    &&& forall|i: int, j: int, u: int, v: int|
        0 <= i < j < qs.len() ==> !(#[trigger] qs[i].covers(u, v) && #[trigger] qs[j].covers(u, v))
    &&& forall|u: int, v: int|
        0 <= u < 32 && 0 <= v < 32 && visible_at(cells, open, u, v) ==> exists|i: int|
            0 <= i < qs.len() && #[trigger] qs[i].covers(u, v)
}

/// Two greedy partitions of one slice that agree before index `n` agree at `n`.
proof fn lemma_greedy_step(a: Seq<SliceQuad>, b: Seq<SliceQuad>, cells: Seq<PbrProps>, open: Seq<bool>, n: int)
    requires
        cells.len() == 1024,
        open.len() == 1024,
        slice_partition(a, cells, open),
        greedy_order(a, cells, open),
        slice_partition(b, cells, open),
        greedy_order(b, cells, open),
        0 <= n < a.len(),
        0 <= n < b.len(),
        forall|j: int| 0 <= j < n ==> #[trigger] a[j] == b[j],
    ensures
        a[n] == b[n],
{
    let qa = a[n];
    let qb = b[n];
    assert(qa.sound(cells, open) && qb.sound(cells, open));
    assert forall|u: int, v: int| true implies #[trigger] covered_before(a, n, u, v) == covered_before(b, n, u, v) by {
        if covered_before(a, n, u, v) {
            let j = choose|j: int| 0 <= j < n && #[trigger] a[j].covers(u, v);
            assert(b[j].covers(u, v));
        }
        if covered_before(b, n, u, v) {
            let j = choose|j: int| 0 <= j < n && #[trigger] b[j].covers(u, v);
            assert(a[j].covers(u, v));
        }
    }
    // A position of quad `n` is covered by no earlier quad.
    assert forall|u: int, v: int| #[trigger] qa.covers(u, v) implies !covered_before(a, n, u, v) by {
        if covered_before(a, n, u, v) {
            let j = choose|j: int| 0 <= j < n && #[trigger] a[j].covers(u, v);
            assert(!(a[j].covers(u, v) && a[n].covers(u, v)));
        }
    }
    assert forall|u: int, v: int| #[trigger] qb.covers(u, v) implies !covered_before(b, n, u, v) by {
        if covered_before(b, n, u, v) {
            let j = choose|j: int| 0 <= j < n && #[trigger] b[j].covers(u, v);
            assert(!(b[j].covers(u, v) && b[n].covers(u, v)));
        }
    }
    assert(qa.covers(qa.u as int, qa.v as int));
    assert(qb.covers(qb.u as int, qb.v as int));
    // Same first position.
    if origin_of(qa) < origin_of(qb) {
        assert(covered_before(b, n, qa.u as int, qa.v as int));
    }
    if origin_of(qb) < origin_of(qa) {
        assert(covered_before(a, n, qb.u as int, qb.v as int));
    }
    assert(qa.u == qb.u && qa.v == qb.v);
    assert(qa.pbr_props == qb.pbr_props);
    // Same width.
    if qa.w < qb.w {
        assert(qb.covers(qa.u + qa.w, qa.v as int));
        assert(free_for(a, n, cells, open, qa.pbr_props, qa.u + qa.w, qa.v as int));
    }
    if qb.w < qa.w {
        assert(qa.covers(qb.u + qb.w, qb.v as int));
        assert(free_for(b, n, cells, open, qb.pbr_props, qb.u + qb.w, qb.v as int));
    }
    // Same height.
    if qa.h < qb.h {
        let u = choose|u: int|
            qa.u <= u < qa.u + qa.w && !#[trigger] free_for(a, n, cells, open, qa.pbr_props, u, qa.v + qa.h);
        assert(qb.covers(u, qa.v + qa.h));
    }
    if qb.h < qa.h {
        let u = choose|u: int|
            qb.u <= u < qb.u + qb.w && !#[trigger] free_for(b, n, cells, open, qb.pbr_props, u, qb.v + qb.h);
        assert(qa.covers(u, qb.v + qb.h));
    }
}

proof fn lemma_greedy_prefix(a: Seq<SliceQuad>, b: Seq<SliceQuad>, cells: Seq<PbrProps>, open: Seq<bool>, n: int)
    requires
        cells.len() == 1024,
        open.len() == 1024,
        slice_partition(a, cells, open),
        greedy_order(a, cells, open),
        slice_partition(b, cells, open),
        greedy_order(b, cells, open),
        0 <= n <= a.len(),
        n <= b.len(),
    ensures
        forall|j: int| 0 <= j < n ==> #[trigger] a[j] == b[j],
    decreases n,
{
    if n > 0 {
        lemma_greedy_prefix(a, b, cells, open, n - 1);
        lemma_greedy_step(a, b, cells, open, n - 1);
    }
}

proof fn lemma_greedy_not_longer(a: Seq<SliceQuad>, b: Seq<SliceQuad>, cells: Seq<PbrProps>, open: Seq<bool>)
    requires
        slice_partition(a, cells, open),
        slice_partition(b, cells, open),
        b.len() <= a.len(),
        forall|j: int| 0 <= j < b.len() ==> #[trigger] a[j] == b[j],
    ensures
        a.len() == b.len(),
{
    if b.len() < a.len() {
        let m = b.len() as int;
        let q = a[m];
        assert(q.sound(cells, open));
        assert(q.covers(q.u as int, q.v as int));
        assert(visible_at(cells, open, q.u as int, q.v as int));
        let j = choose|j: int| 0 <= j < b.len() && #[trigger] b[j].covers(q.u as int, q.v as int);
        assert(a[j].covers(q.u as int, q.v as int));
        assert(!(a[j].covers(q.u as int, q.v as int) && a[m].covers(q.u as int, q.v as int)));
    }
}

/// A slice has exactly one greedy partition: `greedy_slice` gives the same quads, in the same
/// order, whenever it is called on the same slice.
pub proof fn lemma_greedy_unique(a: Seq<SliceQuad>, b: Seq<SliceQuad>, cells: Seq<PbrProps>, open: Seq<bool>)
    requires
        cells.len() == 1024,
        open.len() == 1024,
        slice_partition(a, cells, open),
        greedy_order(a, cells, open),
        slice_partition(b, cells, open),
        greedy_order(b, cells, open),
    ensures
        a == b,
{
    if a.len() <= b.len() {
        lemma_greedy_prefix(a, b, cells, open, a.len() as int);
        assert forall|j: int| 0 <= j < a.len() implies #[trigger] b[j] == a[j] by {}
        lemma_greedy_not_longer(b, a, cells, open);
    } else {
        lemma_greedy_prefix(a, b, cells, open, b.len() as int);
        lemma_greedy_not_longer(a, b, cells, open);
    }
    assert(a =~= b);
}

/// Whether position `j` can still join a quad of material `p`.
fn joinable(cells: &Vec<PbrProps>, open: &Vec<bool>, mask: &Vec<bool>, j: usize, p: PbrProps) -> (r: bool)
    requires
        j < cells@.len(),
        j < open@.len(),
        j < mask@.len(),
    ensures
        r == (!mask@[j as int] && cells@[j as int] == p && open@[j as int]),
{
    !mask[j] && cells[j] == p && open[j]
}

/// Some quad before index `i` covers `(u, v)`.
pub open spec fn covered_before(qs: Seq<SliceQuad>, i: int, u: int, v: int) -> bool {
    exists|j: int| 0 <= j < i && #[trigger] qs[j].covers(u, v)
}

/// Position `(u, v)` could join quad `i` of material `p`: it is in the slice, visible, holds
/// `p`, and no earlier quad covers it.
pub open spec fn free_for(
    qs: Seq<SliceQuad>,
    i: int,
    cells: Seq<PbrProps>,
    open: Seq<bool>,
    p: PbrProps,
    u: int,
    v: int,
) -> bool {
    &&& 0 <= u < 32 && 0 <= v < 32
    &&& !covered_before(qs, i, u, v)
    &&& cells[sidx(u, v)] == p
    &&& open[sidx(u, v)]
}

pub open spec fn origin_of(q: SliceQuad) -> int {
    sidx(q.u as int, q.v as int)
}

/// The quads are those of the greedy scan: their first positions come in scan order, every
/// visible position scanned before a quad's first one is covered by an earlier quad, no quad
/// can grow one more position along `u`, and none can grow one more full row along `v`.
pub open spec fn greedy_order(qs: Seq<SliceQuad>, cells: Seq<PbrProps>, open: Seq<bool>) -> bool {
    &&& forall|i: int, j: int|
        0 <= i < j < qs.len() ==> origin_of(#[trigger] qs[i]) < origin_of(#[trigger] qs[j])
    &&& forall|i: int, u: int, v: int|
        0 <= i < qs.len() && 0 <= u < 32 && 0 <= v < 32 && visible_at(cells, open, u, v) && sidx(u, v)
            < origin_of(qs[i]) ==> #[trigger] covered_before(qs, i, u, v)
    &&& forall|i: int|
        0 <= i < qs.len() ==> !free_for(
            qs,
            i,
            cells,
            open,
            (#[trigger] qs[i]).pbr_props,
            qs[i].u + qs[i].w,
            qs[i].v as int,
        )
    &&& forall|i: int|
        0 <= i < qs.len() && (#[trigger] qs[i]).v + qs[i].h < 32 ==> exists|u: int|
            qs[i].u <= u < qs[i].u + qs[i].w && !#[trigger] free_for(
                qs,
                i,
                cells,
                open,
                qs[i].pbr_props,
                u,
                qs[i].v + qs[i].h,
            )
}

/// Position `(u, v)` cannot join a quad of material `p` under `mask`.
spec fn blocks(mask: Seq<bool>, cells: Seq<PbrProps>, open: Seq<bool>, p: PbrProps, u: int, v: int) -> bool {
    !(!mask[sidx(u, v)] && cells[sidx(u, v)] == p && open[sidx(u, v)])
}

/// State of the scan before position `pos`.
spec fn scan_inv(
    qs: Seq<SliceQuad>,
    mask: Seq<bool>,
    cells: Seq<PbrProps>,
    open: Seq<bool>,
    pos: int,
) -> bool {
    &&& cells.len() == 1024 && open.len() == 1024 && mask.len() == 1024
    &&& forall|i: int| 0 <= i < qs.len() ==> (#[trigger] qs[i]).sound(cells, open)
    &&& forall|i: int, j: int, u: int, v: int|
        0 <= i < j < qs.len() ==> !(#[trigger] qs[i].covers(u, v) && #[trigger] qs[j].covers(u, v))
    &&& forall|u: int, v: int|
        0 <= u < 32 && 0 <= v < 32 ==> #[trigger] mask[sidx(u, v)] == covered_before(qs, qs.len() as int, u, v)
    &&& forall|u: int, v: int|
        0 <= u < 32 && 0 <= v < 32 && sidx(u, v) < pos && visible_at(cells, open, u, v) ==> #[trigger]
        covered_before(qs, qs.len() as int, u, v)
    &&& forall|i: int| 0 <= i < qs.len() ==> origin_of(#[trigger] qs[i]) < pos
    &&& greedy_order(qs, cells, open)
}

proof fn lemma_covered_before_prefix(a: Seq<SliceQuad>, b: Seq<SliceQuad>, i: int, u: int, v: int)
    requires
        0 <= i <= a.len() <= b.len(),
        forall|j: int| 0 <= j < a.len() ==> #[trigger] b[j] == a[j],
    ensures
        covered_before(b, i, u, v) == covered_before(a, i, u, v),
{
    if covered_before(a, i, u, v) {
        let j = choose|j: int| 0 <= j < i && #[trigger] a[j].covers(u, v);
        assert(b[j] == a[j]);
    }
    if covered_before(b, i, u, v) {
        let j = choose|j: int| 0 <= j < i && #[trigger] b[j].covers(u, v);
        assert(b[j] == a[j]);
    }
}

proof fn lemma_scan_skip(qs: Seq<SliceQuad>, mask: Seq<bool>, cells: Seq<PbrProps>, open: Seq<bool>, u: int, v: int)
    requires
        0 <= u < 32 && 0 <= v < 32,
        scan_inv(qs, mask, cells, open, sidx(u, v)),
        mask[sidx(u, v)] || !visible_at(cells, open, u, v),
    ensures
        scan_inv(qs, mask, cells, open, sidx(u, v) + 1),
{
    assert forall|uu: int, vv: int|
        0 <= uu < 32 && 0 <= vv < 32 && sidx(uu, vv) < sidx(u, v) + 1 && visible_at(cells, open, uu, vv)
        implies #[trigger] covered_before(qs, qs.len() as int, uu, vv) by {
        if sidx(uu, vv) == sidx(u, v) {
            assert(uu == u && vv == v);
            assert(mask[sidx(u, v)]);
        }
    }
}

proof fn lemma_scan_push(
    qs: Seq<SliceQuad>,
    mask: Seq<bool>,
    new_mask: Seq<bool>,
    cells: Seq<PbrProps>,
    open: Seq<bool>,
    q: SliceQuad,
    bad: int,
)
    requires
        q.u < 32 && q.v < 32,
        scan_inv(qs, mask, cells, open, origin_of(q)),
        1 <= q.w && q.u + q.w <= 32,
        1 <= q.h && q.v + q.h <= 32,
        q.pbr_props != empty_cell(),
        forall|u: int, v: int|
            #[trigger] q.covers(u, v) ==> !mask[sidx(u, v)] && cells[sidx(u, v)] == q.pbr_props
                && open[sidx(u, v)],
        q.u + q.w == 32 || !(!mask[sidx(q.u + q.w, q.v as int)] && cells[sidx(q.u + q.w, q.v as int)]
            == q.pbr_props && open[sidx(q.u + q.w, q.v as int)]),
        q.v + q.h == 32 || (q.u <= bad < q.u + q.w && blocks(mask, cells, open, q.pbr_props, bad, q.v + q.h)),
        new_mask.len() == 1024,
        forall|u: int, v: int|
            0 <= u < 32 && 0 <= v < 32 ==> #[trigger] new_mask[sidx(u, v)] == (mask[sidx(u, v)] || q.covers(
                u,
                v,
            )),
    ensures
        scan_inv(qs.push(q), new_mask, cells, open, origin_of(q) + 1),
{
    let n = qs.len() as int;
    let t = qs.push(q);
    assert(forall|j: int| 0 <= j < n ==> #[trigger] t[j] == qs[j]);
    assert(t[n] == q);
    assert(q.covers(q.u as int, q.v as int));
    assert(q.sound(cells, open));
    assert forall|i: int| 0 <= i < t.len() implies (#[trigger] t[i]).sound(cells, open) by {
        if i < n {
            assert(t[i] == qs[i]);
        }
    }
    assert forall|i: int, j: int, u: int, v: int|
        0 <= i < j < t.len() implies !(#[trigger] t[i].covers(u, v) && #[trigger] t[j].covers(u, v)) by {
        assert(t[i] == qs[i]);
        if j == n {
            if t[i].covers(u, v) && q.covers(u, v) {
                assert(covered_before(qs, n, u, v));
                assert(mask[sidx(u, v)]);
            }
        } else {
            assert(t[j] == qs[j]);
        }
    }
    assert forall|u: int, v: int|
        0 <= u < 32 && 0 <= v < 32 implies #[trigger] new_mask[sidx(u, v)] == covered_before(
        t,
        t.len() as int,
        u,
        v,
    ) by {
        lemma_covered_before_prefix(qs, t, n, u, v);
        if q.covers(u, v) {
            assert(t[n].covers(u, v));
        }
        if covered_before(t, t.len() as int, u, v) {
            let j = choose|j: int| 0 <= j < t.len() && #[trigger] t[j].covers(u, v);
            if j < n {
                assert(t[j] == qs[j]);
                assert(covered_before(qs, n, u, v));
            }
        }
    }
    assert forall|u: int, v: int|
        0 <= u < 32 && 0 <= v < 32 && sidx(u, v) < origin_of(q) + 1 && visible_at(cells, open, u, v)
        implies #[trigger] covered_before(t, t.len() as int, u, v) by {
        lemma_covered_before_prefix(qs, t, n, u, v);
        if sidx(u, v) == origin_of(q) {
            assert(u == q.u && v == q.v);
            assert(t[n].covers(u, v));
        } else {
            let j = choose|j: int| 0 <= j < n && #[trigger] qs[j].covers(u, v);
            assert(t[j].covers(u, v));
        }
    }
    assert forall|i: int| 0 <= i < t.len() implies origin_of(#[trigger] t[i]) < origin_of(q) + 1 by {
        if i < n {
            assert(t[i] == qs[i]);
        }
    }
    // The greedy rules: old quads keep theirs, the new one has them by how it was grown.
    assert forall|i: int, j: int| 0 <= i < j < t.len() implies origin_of(#[trigger] t[i]) < origin_of(
        #[trigger] t[j],
    ) by {
        assert(t[i] == qs[i]);
        if j < n {
            assert(t[j] == qs[j]);
        }
    }
    assert forall|i: int, u: int, v: int|
        0 <= i < t.len() && 0 <= u < 32 && 0 <= v < 32 && visible_at(cells, open, u, v) && sidx(u, v)
            < origin_of(t[i]) implies #[trigger] covered_before(t, i, u, v) by {
        lemma_covered_before_prefix(qs, t, i, u, v);
        if i < n {
            assert(t[i] == qs[i]);
            assert(covered_before(qs, i, u, v));
        } else {
            assert(covered_before(qs, n, u, v));
        }
    }
    assert forall|i: int| 0 <= i < t.len() implies !free_for(
        t,
        i,
        cells,
        open,
        (#[trigger] t[i]).pbr_props,
        t[i].u + t[i].w,
        t[i].v as int,
    ) by {
        lemma_covered_before_prefix(qs, t, i, t[i].u + t[i].w, t[i].v as int);
        if i < n {
            assert(t[i] == qs[i]);
            assert(!free_for(qs, i, cells, open, qs[i].pbr_props, qs[i].u + qs[i].w, qs[i].v as int));
        } else if q.u + q.w < 32 {
            assert(mask[sidx(q.u + q.w, q.v as int)] == covered_before(qs, n, q.u + q.w, q.v as int));
        }
    }
    assert forall|i: int| 0 <= i < t.len() && (#[trigger] t[i]).v + t[i].h < 32 implies exists|u: int|
        t[i].u <= u < t[i].u + t[i].w && !#[trigger] free_for(t, i, cells, open, t[i].pbr_props, u, t[i].v + t[i].h) by {
        if i < n {
            assert(t[i] == qs[i]);
            let u = choose|u: int|
                qs[i].u <= u < qs[i].u + qs[i].w && !#[trigger] free_for(qs, i, cells, open, qs[i].pbr_props, u, qs[i].v + qs[i].h);
            lemma_covered_before_prefix(qs, t, i, u, t[i].v + t[i].h);
            assert(t[i].u <= u < t[i].u + t[i].w && !free_for(t, i, cells, open, t[i].pbr_props, u, t[i].v + t[i].h));
        } else {
            let u = bad;
            lemma_covered_before_prefix(qs, t, n, u, q.v + q.h);
            assert(mask[sidx(u, q.v + q.h)] == covered_before(qs, n, u, q.v + q.h));
            assert(t[i] == q);
            assert(t[i].u <= u < t[i].u + t[i].w && !free_for(t, i, cells, open, t[i].pbr_props, u, t[i].v + t[i].h));
        }
    }
}

/// Greedy merge of one slice. Positions are scanned with `u` varying fastest; the first
/// visible position not yet in a quad starts one, which grows along `u` while the next
/// position is visible, holds the same material and is free, and then along `v` while a
/// whole row of that width is. `cells` holds the slice's cells and `open` whether each one's
/// neighbour along the face normal is empty, both row-major.
pub fn greedy_slice(cells: &Vec<PbrProps>, open: &Vec<bool>) -> (r: Vec<SliceQuad>)
    requires
        cells@.len() == 1024,
        open@.len() == 1024,
    ensures
        slice_partition(r@, cells@, open@),
        greedy_order(r@, cells@, open@),
{
    let mut mask: Vec<bool> = vec![false; 1024];
    let mut quads: Vec<SliceQuad> = Vec::new();
    proof {
        assert forall|u: int, v: int| 0 <= u < 32 && 0 <= v < 32 implies #[trigger] mask@[sidx(u, v)]
            == covered_before(quads@, quads@.len() as int, u, v) by {}
    }
    let mut v: usize = 0;
    while v < 32
        invariant
            v <= 32,
            scan_inv(quads@, mask@, cells@, open@, v * 32),
        decreases 32 - v,
    {
        let mut u: usize = 0;
        while u < 32
            invariant
                v < 32,
                u <= 32,
                scan_inv(quads@, mask@, cells@, open@, v * 32 + u),
            decreases 32 - u,
        {
            let i = v * 32 + u;
            let p = cells[i];
            if !mask[i] && !p.is_empty() && open[i] {
                let mut w: usize = 1;
                while u + w < 32 && joinable(cells, open, &mask, i + w, p)
                    invariant
                        cells@.len() == 1024,
                        open@.len() == 1024,
                        mask@.len() == 1024,
                        v < 32,
                        u < 32,
                        i == v * 32 + u,
                        1 <= w,
                        u + w <= 32,
                        forall|uu: int|
                            u <= uu < u + w ==> !#[trigger] mask@[sidx(uu, v as int)] && cells@[sidx(
                                uu,
                                v as int,
                            )] == p && open@[sidx(uu, v as int)],
                    decreases 32 - u - w,
                {
                    w = w + 1;
                }
                let mut h: usize = 1;
                let mut growing = true;
                let ghost mut bad: int = 0;
                while growing && v + h < 32
                    invariant
                        cells@.len() == 1024,
                        open@.len() == 1024,
                        mask@.len() == 1024,
                        v < 32,
                        u < 32,
                        1 <= w,
                        u + w <= 32,
                        1 <= h,
                        v + h <= 32,
                        forall|uu: int, vv: int|
                            u <= uu < u + w && v <= vv < v + h ==> !mask@[sidx(uu, vv)] && cells@[sidx(
                                uu,
                                vv,
                            )] == p && open@[sidx(uu, vv)],
                        !growing ==> v + h < 32 && u <= bad < u + w && blocks(mask@, cells@, open@, p, bad, v + h),
                    decreases 32 - h + (if growing {
                        1int
                    } else {
                        0int
                    }),
                {
                    let row = v + h;
                    let mut ok = true;
                    let mut k: usize = 0;
                    while k < w
                        invariant
                            cells@.len() == 1024,
                            open@.len() == 1024,
                            mask@.len() == 1024,
                            row < 32,
                            row == v + h,
                            u + w <= 32,
                            k <= w,
                            ok ==> forall|uu: int|
                                u <= uu < u + k ==> !#[trigger] mask@[sidx(uu, row as int)] && cells@[sidx(
                                    uu,
                                    row as int,
                                )] == p && open@[sidx(uu, row as int)],
                            !ok ==> u <= bad < u + w && blocks(mask@, cells@, open@, p, bad, v + h),
                        decreases w - k,
                    {
                        if !joinable(cells, open, &mask, row * 32 + u + k, p) {
                            proof {
                                bad = u + k;
                            }
                            ok = false;
                        }
                        k = k + 1;
                    }
                    if ok {
                        assert forall|uu: int, vv: int|
                            u <= uu < u + w && v <= vv < v + h + 1 implies !mask@[sidx(uu, vv)]
                            && cells@[sidx(uu, vv)] == p && open@[sidx(uu, vv)] by {
                            if vv == row {
                                assert(!mask@[sidx(uu, row as int)]);
                            }
                        }
                        h = h + 1;
                    } else {
                        growing = false;
                    }
                }
                let q = SliceQuad { u, v, w, h, pbr_props: p };
                let ghost old_mask = mask@;
                let mut j: usize = 0;
                while j < h
                    invariant
                        mask@.len() == 1024,
                        v + h <= 32,
                        u + w <= 32,
                        j <= h,
                        forall|uu: int, vv: int|
                            0 <= uu < 32 && 0 <= vv < 32 ==> #[trigger] mask@[sidx(uu, vv)] == (
                            old_mask[sidx(uu, vv)] || (u <= uu < u + w && v <= vv < v + j)),
                    decreases h - j,
                {
                    let mut k: usize = 0;
                    while k < w
                        invariant
                            mask@.len() == 1024,
                            v + h <= 32,
                            u + w <= 32,
                            j < h,
                            k <= w,
                            forall|uu: int, vv: int|
                                0 <= uu < 32 && 0 <= vv < 32 ==> #[trigger] mask@[sidx(uu, vv)] == (
                                old_mask[sidx(uu, vv)] || (u <= uu < u + w && v <= vv < v + j) || (
                                vv == v + j && u <= uu < u + k)),
                        decreases w - k,
                    {
                        mask.set((v + j) * 32 + u + k, true);
                        assert forall|uu: int, vv: int|
                            0 <= uu < 32 && 0 <= vv < 32 implies #[trigger] mask@[sidx(uu, vv)] == (
                            old_mask[sidx(uu, vv)] || (u <= uu < u + w && v <= vv < v + j) || (vv
                                == v + j && u <= uu < u + k + 1)) by {
                            if sidx(uu, vv) == (v + j) * 32 + u + k {
                                assert(uu == u + k && vv == v + j);
                            }
                        }
                        k = k + 1;
                    }
                    j = j + 1;
                }
                proof {
                    assert forall|uu: int, vv: int| #[trigger] q.covers(uu, vv) implies !old_mask[sidx(uu, vv)]
                        && cells@[sidx(uu, vv)] == q.pbr_props && open@[sidx(uu, vv)] by {}
                    lemma_scan_push(quads@, old_mask, mask@, cells@, open@, q, bad);
                }
                quads.push(q);
            } else {
                proof {
                    lemma_scan_skip(quads@, mask@, cells@, open@, u as int, v as int);
                }
            }
            u = u + 1;
        }
        v = v + 1;
    }
    proof {
        assert forall|uu: int, vv: int|
            0 <= uu < 32 && 0 <= vv < 32 && visible_at(cells@, open@, uu, vv) implies exists|i: int|
            0 <= i < quads@.len() && #[trigger] quads@[i].covers(uu, vv) by {
            assert(covered_before(quads@, quads@.len() as int, uu, vv));
        }
    }
    quads
}

pub open spec fn add3(a: (int, int, int), b: (int, int, int)) -> (int, int, int) {
    (a.0 + b.0, a.1 + b.1, a.2 + b.2)
}

pub open spec fn scale3(a: (int, int, int), n: int) -> (int, int, int) {
    (a.0 * n, a.1 * n, a.2 * n)
}

/// Corner of a unit cell at which face `f`'s quad starts.
pub open spec fn face_origin(f: int) -> (int, int, int) {
    if f == 0 {
        (0, 0, 0)
    } else if f == 1 {
        (0, 0, 1)
    } else if f == 2 {
        (1, 0, 1)
    } else if f == 3 {
        (1, 0, 0)
    } else if f == 4 {
        (0, 1, 0)
    } else {
        (0, 0, 0)
    }
}

/// Outward normal of face `f`: -X, +Z, +X, -Z, +Y, -Y.
pub open spec fn face_normal(f: int) -> (int, int, int) {
    if f == 0 {
        (-1, 0, 0)
    } else if f == 1 {
        (0, 0, 1)
    } else if f == 2 {
        (1, 0, 0)
    } else if f == 3 {
        (0, 0, -1)
    } else if f == 4 {
        (0, 1, 0)
    } else {
        (0, -1, 0)
    }
}

/// Direction in which slice coordinate `u` grows on face `f`.
pub open spec fn face_tangent(f: int) -> (int, int, int) {
    if f == 0 {
        (0, 0, 1)
    } else if f == 1 {
        (1, 0, 0)
    } else if f == 2 {
        (0, 0, -1)
    } else if f == 3 {
        (-1, 0, 0)
    } else if f == 4 {
        (0, 0, 1)
    } else {
        (1, 0, 0)
    }
}

/// Direction in which slice coordinate `v` grows on face `f`.
pub open spec fn face_bitangent(f: int) -> (int, int, int) {
    if f == 4 {
        (1, 0, 0)
    } else if f == 5 {
        (0, 0, 1)
    } else {
        (0, 1, 0)
    }
}

/// Local position in a chunk of slice `s`, position `(u, v)`, for face `f`: `s` runs along
/// the normal's axis, `u` along the tangent and `v` along the bitangent.
pub open spec fn slice_local(f: int, s: int, u: int, v: int) -> (int, int, int) {
    if f == 0 {
        (s, v, u)
    } else if f == 1 {
        (u, v, s)
    } else if f == 2 {
        (s, v, 31 - u)
    } else if f == 3 {
        (31 - u, v, s)
    } else if f == 4 {
        (v, s, u)
    } else {
        (u, s, v)
    }
}

/// World position of slice `s`, position `(u, v)`, of face `f` in chunk `k`.
pub open spec fn slice_cell(k: ChunkCoord, f: int, s: int, u: int, v: int) -> (int, int, int) {
    add3(scale3((k.0.x as int, k.0.y as int, k.0.z as int), 32), slice_local(f, s, u, v))
}

/// The cell at `p` is occupied and its neighbour along the normal of face `f` is empty.
pub open spec fn face_visible(b: Buffer, p: (int, int, int), f: int) -> bool {
    b.cell_at_pos(p) != empty_cell() && b.cell_at_pos(add3(p, face_normal(f))) == empty_cell()
}

/// A merged rectangle of visible faces: positions `u .. u + width`, `v .. v + height` of
/// slice `slice` of face `face` in chunk `chunk`, all holding `pbr_props`.
#[derive(Clone, Copy, Debug, PartialEq, Eq, Hash, Structural)]
pub struct Quad {
    pub chunk: ChunkCoord,
    pub face: usize,
    pub slice: usize,
    pub u: usize,
    pub v: usize,
    pub width: usize,
    pub height: usize,
    pub pbr_props: PbrProps,
}

impl Quad {
    pub open spec fn covers_uv(self, u: int, v: int) -> bool {
        self.u <= u < self.u + self.width && self.v <= v < self.v + self.height
    }

    /// Whether the quad holds the face `f` of the cell at `p`.
    pub open spec fn covers_face(self, p: (int, int, int), f: int) -> bool {
        self.face == f && exists|u: int, v: int|
            #[trigger] self.covers_uv(u, v) && slice_cell(self.chunk, f, self.slice as int, u, v) == p
    }

    /// The quad is a non-empty rectangle of one slice of a valid chunk.
    pub open spec fn in_slice(self) -> bool {
        &&& self.face < 6 && self.slice < 32 && self.chunk.valid()
        &&& 1 <= self.width && self.u + self.width <= 32
        &&& 1 <= self.height && self.v + self.height <= 32
    }

    /// The quad lies in one slice of a valid chunk, and every position it covers shows a
    /// visible face of a cell holding `pbr_props`.
    pub open spec fn sound(self, b: Buffer) -> bool {
        &&& self.in_slice()
        &&& self.pbr_props != empty_cell()
        &&& forall|u: int, v: int| #[trigger]
            self.covers_uv(u, v) ==> {
                let p = slice_cell(self.chunk, self.face as int, self.slice as int, u, v);
                &&& b.cell_at_pos(p) == self.pbr_props
                &&& face_visible(b, p, self.face as int)
            }
    }

    /// Both quads lie in the same slice of the same face of the same chunk.
    pub open spec fn same_slice(self, o: Quad) -> bool {
        self.chunk == o.chunk && self.face == o.face && self.slice == o.slice
    }
}

/// The quads are sound and no two of them cover the same position of one slice.
pub open spec fn quads_disjoint_sound(b: Buffer, qs: Seq<Quad>) -> bool {
    &&& forall|i: int| 0 <= i < qs.len() ==> (#[trigger] qs[i]).sound(b)
    &&& forall|i: int, j: int, u: int, v: int|
        0 <= i < j < qs.len() && qs[i].same_slice(qs[j]) ==> !(#[trigger] qs[i].covers_uv(u, v)
            && #[trigger] qs[j].covers_uv(u, v))
}

/// Every visible face of slice `s` of face `f` in chunk `k` is held by one of the quads.
pub open spec fn slice_covered(b: Buffer, qs: Seq<Quad>, k: ChunkCoord, f: int, s: int) -> bool {
    forall|u: int, v: int|
        0 <= u < 32 && 0 <= v < 32 && face_visible(b, slice_cell(k, f, s, u, v), f) ==> exists|i: int|
            0 <= i < qs.len() && qs[i].chunk == k && qs[i].face == f && qs[i].slice == s
                && #[trigger] qs[i].covers_uv(u, v)
}

/// The cells of slice `s` of face `f` in chunk `k`, row-major.
pub open spec fn slice_cells(b: Buffer, k: ChunkCoord, f: int, s: int) -> Seq<PbrProps> {
    Seq::new(1024, |i: int| b.cell_at_pos(slice_cell(k, f, s, i % 32, i / 32)))
}

/// For each cell of slice `s` of face `f` in chunk `k`, whether its neighbour along the face
/// normal is empty, row-major.
pub open spec fn slice_open(b: Buffer, k: ChunkCoord, f: int, s: int) -> Seq<bool> {
    Seq::new(
        1024,
        |i: int| b.cell_at_pos(add3(slice_cell(k, f, s, i % 32, i / 32), face_normal(f))) == empty_cell(),
    )
}

/// The greedy partition of a slice; there is exactly one (`lemma_greedy_unique`).
pub open spec fn greedy_of(cells: Seq<PbrProps>, open: Seq<bool>) -> Seq<SliceQuad> {
    choose|qs: Seq<SliceQuad>| slice_partition(qs, cells, open) && greedy_order(qs, cells, open)
}

/// A rectangle of slice `s` of face `f` in chunk `k` as a quad.
pub open spec fn lift(k: ChunkCoord, f: int, s: int, g: SliceQuad) -> Quad {
    Quad {
        chunk: k,
        face: f as usize,
        slice: s as usize,
        u: g.u,
        v: g.v,
        width: g.w,
        height: g.h,
        pbr_props: g.pbr_props,
    }
}

/// The quads of slice `s` of face `f` in chunk `k`.
pub open spec fn slice_quads(b: Buffer, k: ChunkCoord, f: int, s: int) -> Seq<Quad> {
    greedy_of(slice_cells(b, k, f, s), slice_open(b, k, f, s)).map_values(|g: SliceQuad| lift(k, f, s, g))
}

/// The quads of the first `n` slices of chunk `k`, counting 32 slices per face.
pub open spec fn chunk_quads_first(b: Buffer, k: ChunkCoord, n: int) -> Seq<Quad>
    decreases n,
{
    if n <= 0 {
        Seq::empty()
    } else {
        chunk_quads_first(b, k, n - 1) + slice_quads(b, k, (n - 1) / 32, (n - 1) % 32)
    }
}

/// The quads of the chunks `ks`, chunk after chunk.
pub open spec fn chunks_quads(b: Buffer, ks: Seq<ChunkCoord>) -> Seq<Quad>
    decreases ks.len(),
{
    if ks.len() == 0 {
        Seq::empty()
    } else {
        chunks_quads(b, ks.drop_last()) + chunk_quads_first(b, ks.last(), 192)
    }
}

/// The quads of a grid: its stored chunks in increasing coordinate order, and in each the
/// faces -X, +Z, +X, -Z, +Y, -Y with their slices in increasing order.
pub open spec fn buffer_quads(b: Buffer) -> Seq<Quad> {
    chunks_quads(b, canonical_coords(b@))
}

/// Local position in a chunk of slice `s`, position `(u, v)`, for face `f`.
fn slice_local_exec(f: usize, s: usize, u: usize, v: usize) -> (r: (usize, usize, usize))
    requires
        f < 6,
        s < 32,
        u < 32,
        v < 32,
    ensures
        r.0 < 32 && r.1 < 32 && r.2 < 32,
        (r.0 as int, r.1 as int, r.2 as int) == slice_local(f as int, s as int, u as int, v as int),
{
    if f == 0 {
        (s, v, u)
    } else if f == 1 {
        (u, v, s)
    } else if f == 2 {
        (s, v, 31 - u)
    } else if f == 3 {
        (31 - u, v, s)
    } else if f == 4 {
        (v, s, u)
    } else {
        (u, s, v)
    }
}

/// Normal of face `f`.
fn face_normal_exec(f: usize) -> (r: (i64, i64, i64))
    requires
        f < 6,
    ensures
        (r.0 as int, r.1 as int, r.2 as int) == face_normal(f as int),
{
    if f == 0 {
        (-1, 0, 0)
    } else if f == 1 {
        (0, 0, 1)
    } else if f == 2 {
        (1, 0, 0)
    } else if f == 3 {
        (0, 0, -1)
    } else if f == 4 {
        (0, 1, 0)
    } else {
        (0, -1, 0)
    }
}

/// The cells of one slice and, for each, whether its neighbour along the face normal is
/// empty, both row-major.
fn sample_slice(reader: &mut FastBufferReader, k: ChunkCoord, f: usize, s: usize) -> (r: (
    Vec<PbrProps>,
    Vec<bool>,
))
    requires
        old(reader).wf(),
        k.valid(),
        f < 6,
        s < 32,
    ensures
        final(reader).wf(),
        final(reader).source() == old(reader).source(),
        r.0@.len() == 1024,
        r.1@.len() == 1024,
        forall|u: int, v: int|
            0 <= u < 32 && 0 <= v < 32 ==> {
                let p = slice_cell(k, f as int, s as int, u, v);
                &&& #[trigger] r.0@[sidx(u, v)] == old(reader).source().cell_at_pos(p)
                &&& r.1@[sidx(u, v)] == (old(reader).source().cell_at_pos(add3(p, face_normal(f as int)))
                    == empty_cell())
            },
{
    let ghost b = reader.source();
    let n = face_normal_exec(f);
    let mut cells: Vec<PbrProps> = Vec::new();
    let mut open: Vec<bool> = Vec::new();
    let mut v: usize = 0;
    while v < 32
        invariant
            reader.wf(),
            reader.source() == b,
            k.valid(),
            f < 6,
            s < 32,
            v <= 32,
            (n.0 as int, n.1 as int, n.2 as int) == face_normal(f as int),
            cells@.len() == v * 32,
            open@.len() == v * 32,
            forall|uu: int, vv: int|
                0 <= uu < 32 && 0 <= vv < v ==> {
                    let p = slice_cell(k, f as int, s as int, uu, vv);
                    &&& #[trigger] cells@[sidx(uu, vv)] == b.cell_at_pos(p)
                    &&& open@[sidx(uu, vv)] == (b.cell_at_pos(add3(p, face_normal(f as int))) == empty_cell())
                },
        decreases 32 - v,
    {
        let mut u: usize = 0;
        while u < 32
            invariant
                reader.wf(),
                reader.source() == b,
                k.valid(),
                f < 6,
                s < 32,
                v < 32,
                u <= 32,
                (n.0 as int, n.1 as int, n.2 as int) == face_normal(f as int),
                cells@.len() == v * 32 + u,
                open@.len() == v * 32 + u,
                forall|uu: int, vv: int|
                    0 <= uu < 32 && 0 <= vv < v ==> {
                        let p = slice_cell(k, f as int, s as int, uu, vv);
                        &&& #[trigger] cells@[sidx(uu, vv)] == b.cell_at_pos(p)
                        &&& open@[sidx(uu, vv)] == (b.cell_at_pos(add3(p, face_normal(f as int)))
                            == empty_cell())
                    },
                forall|uu: int|
                    0 <= uu < u ==> {
                        let p = slice_cell(k, f as int, s as int, uu, v as int);
                        &&& #[trigger] cells@[sidx(uu, v as int)] == b.cell_at_pos(p)
                        &&& open@[sidx(uu, v as int)] == (b.cell_at_pos(add3(p, face_normal(f as int)))
                            == empty_cell())
                    },
            decreases 32 - u,
        {
            let l = slice_local_exec(f, s, u, v);
            let x = (k.0.x as i64) * 32 + l.0 as i64;
            let y = (k.0.y as i64) * 32 + l.1 as i64;
            let z = (k.0.z as i64) * 32 + l.2 as i64;
            let cell = reader.get_pos(x, y, z);
            let beyond = reader.get_pos(x + n.0, y + n.1, z + n.2);
            let ghost before_cells = cells@;
            let ghost before_open = open@;
            cells.push(cell);
            open.push(beyond.is_empty());
            proof {
                assert forall|uu: int, vv: int| 0 <= uu < 32 && 0 <= vv < v implies #[trigger] cells@[sidx(uu, vv)]
                    == before_cells[sidx(uu, vv)] && open@[sidx(uu, vv)] == before_open[sidx(uu, vv)] by {}
                assert forall|uu: int| 0 <= uu < u implies #[trigger] cells@[sidx(uu, v as int)]
                    == before_cells[sidx(uu, v as int)] && open@[sidx(uu, v as int)] == before_open[sidx(uu, v as int)] by {}
            }
            u = u + 1;
        }
        proof {
            assert forall|uu: int, vv: int| 0 <= uu < 32 && 0 <= vv < v + 1 implies {
                let p = slice_cell(k, f as int, s as int, uu, vv);
                &&& #[trigger] cells@[sidx(uu, vv)] == b.cell_at_pos(p)
                &&& open@[sidx(uu, vv)] == (b.cell_at_pos(add3(p, face_normal(f as int))) == empty_cell())
            } by {
                if vv == v {
                    assert(cells@[sidx(uu, v as int)] == b.cell_at_pos(slice_cell(k, f as int, s as int, uu, v as int)));
                }
            }
        }
        v = v + 1;
    }
    (cells, open)
}

/// Merges the visible faces of slice `s` of face `f` in chunk `k` and appends the quads.
fn mesh_slice(reader: &mut FastBufferReader, k: ChunkCoord, f: usize, s: usize, qs: &mut Vec<Quad>)
    requires
        old(reader).wf(),
        k.valid(),
        f < 6,
        s < 32,
    ensures
        final(reader).wf(),
        final(reader).source() == old(reader).source(),
        final(qs)@.len() >= old(qs)@.len(),
        forall|i: int| 0 <= i < old(qs)@.len() ==> #[trigger] final(qs)@[i] == old(qs)@[i],
        forall|i: int|
            old(qs)@.len() <= i < final(qs)@.len() ==> (#[trigger] final(qs)@[i]).sound(
                old(reader).source(),
            ) && final(qs)@[i].chunk == k && final(qs)@[i].face == f && final(qs)@[i].slice == s,
        forall|i: int, j: int, u: int, v: int|
            old(qs)@.len() <= i < j < final(qs)@.len() ==> !(#[trigger] final(qs)@[i].covers_uv(u, v)
                && #[trigger] final(qs)@[j].covers_uv(u, v)),
        slice_covered(old(reader).source(), final(qs)@, k, f as int, s as int),
        final(qs)@ == old(qs)@ + slice_quads(old(reader).source(), k, f as int, s as int),
{
    let ghost b = reader.source();
    let (cells, open) = sample_slice(reader, k, f, s);
    let sq = greedy_slice(&cells, &open);
    proof {
        assert(cells@ =~= slice_cells(b, k, f as int, s as int)) by {
            assert forall|i: int| 0 <= i < 1024 implies cells@[i] == slice_cells(b, k, f as int, s as int)[i] by {
                assert(i == sidx(i % 32, i / 32));
            }
        }
        assert(open@ =~= slice_open(b, k, f as int, s as int)) by {
            assert forall|i: int| 0 <= i < 1024 implies open@[i] == slice_open(b, k, f as int, s as int)[i] by {
                assert(i == sidx(i % 32, i / 32));
                assert(cells@[sidx(i % 32, i / 32)] == b.cell_at_pos(slice_cell(k, f as int, s as int, i % 32, i / 32)));
            }
        }
        lemma_greedy_unique(sq@, greedy_of(cells@, open@), cells@, open@);
    }
    let ghost start = qs@.len();
    let ghost q0 = qs@;
    let mut i: usize = 0;
    while i < sq.len()
        invariant
            k.valid(),
            f < 6,
            s < 32,
            0 <= i <= sq@.len(),
            qs@.len() == start + i,
            forall|a: int| 0 <= a < start ==> #[trigger] qs@[a] == q0[a],
            slice_partition(sq@, cells@, open@),
            cells@.len() == 1024,
            open@.len() == 1024,
            forall|u: int, v: int|
                0 <= u < 32 && 0 <= v < 32 ==> {
                    let p = slice_cell(k, f as int, s as int, u, v);
                    &&& #[trigger] cells@[sidx(u, v)] == b.cell_at_pos(p)
                    &&& open@[sidx(u, v)] == (b.cell_at_pos(add3(p, face_normal(f as int))) == empty_cell())
                },
            forall|a: int|
                0 <= a < i ==> {
                    let q = #[trigger] qs@[start + a];
                    let g = sq@[a];
                    &&& q.chunk == k && q.face == f && q.slice == s
                    &&& q.u == g.u && q.v == g.v && q.width == g.w && q.height == g.h
                    &&& q.pbr_props == g.pbr_props
                },
        decreases sq@.len() - i,
    {
        let g = sq[i];
        qs.push(Quad { chunk: k, face: f, slice: s, u: g.u, v: g.v, width: g.w, height: g.h, pbr_props: g.pbr_props });
        proof {
            assert(qs@[start + i] == qs@.last());
        }
        i = i + 1;
    }
    proof {
        assert forall|a: int| start <= a < qs@.len() implies (#[trigger] qs@[a]).sound(b) && qs@[a].chunk == k
            && qs@[a].face == f && qs@[a].slice == s by {
            let q = qs@[a];
            let g = sq@[a - start];
            assert(qs@[start + (a - start)] == q);
            assert(g.sound(cells@, open@));
            assert forall|u: int, v: int| #[trigger] q.covers_uv(u, v) implies {
                let p = slice_cell(q.chunk, q.face as int, q.slice as int, u, v);
                &&& b.cell_at_pos(p) == q.pbr_props
                &&& face_visible(b, p, q.face as int)
            } by {
                assert(g.covers(u, v));
            }
        }
        assert forall|a: int, c: int, u: int, v: int|
            start <= a < c < qs@.len() implies !(#[trigger] qs@[a].covers_uv(u, v)
            && #[trigger] qs@[c].covers_uv(u, v)) by {
            assert(qs@[start + (a - start)] == qs@[a]);
            assert(qs@[start + (c - start)] == qs@[c]);
            if qs@[a].covers_uv(u, v) && qs@[c].covers_uv(u, v) {
                assert(sq@[a - start].covers(u, v) && sq@[c - start].covers(u, v));
            }
        }
        assert forall|u: int, v: int|
            0 <= u < 32 && 0 <= v < 32 && face_visible(b, slice_cell(k, f as int, s as int, u, v), f as int)
            implies exists|a: int|
            0 <= a < qs@.len() && qs@[a].chunk == k && qs@[a].face == f && qs@[a].slice == s
                && #[trigger] qs@[a].covers_uv(u, v) by {
            assert(cells@[sidx(u, v)] == b.cell_at_pos(slice_cell(k, f as int, s as int, u, v)));
            assert(visible_at(cells@, open@, u, v));
            let g = choose|g: int| 0 <= g < sq@.len() && #[trigger] sq@[g].covers(u, v);
            assert(qs@[start + g].covers_uv(u, v));
        }
        let lifted = sq@.map_values(|g: SliceQuad| lift(k, f as int, s as int, g));
        assert(qs@ =~= q0 + lifted) by {
            assert forall|a: int| start <= a < qs@.len() implies qs@[a] == lifted[a - start] by {
                assert(qs@[start + (a - start)] == qs@[a]);
            }
        }
    }
}

impl Quad {
    /// The visible faces of every stored chunk, merged greedily slice by slice. Chunks come
    /// in increasing coordinate order; within a chunk the faces go -X, +Z, +X, -Z, +Y, -Y and
    /// the slices in increasing order. The quads are sound, no two share a position of a
    /// slice, and every visible face of every stored chunk is held by one of them.
    pub fn from_buffer(buffer: &Buffer) -> (r: Vec<Quad>)
        requires
            buffer.wf(),
        ensures
            r@ == buffer_quads(*buffer),
            quads_disjoint_sound(*buffer, r@),
            forall|k: ChunkCoord, f: int, s: int|
                buffer@.contains_key(key_of(k)) && 0 <= f < 6 && 0 <= s < 32 ==> #[trigger]
                slice_covered(*buffer, r@, k, f, s),
            forall|c: WorldCoord, f: int|
                0 <= f < 6 && face_visible(*buffer, pos_of(c), f) ==> exists|i: int|
                    0 <= i < r@.len() && #[trigger] r@[i].covers_face(pos_of(c), f),
    {
        let coords = buffer.sorted_chunk_coords();
        let mut reader = FastBufferReader::new(buffer);
        let mut qs: Vec<Quad> = Vec::new();
        let mut ci: usize = 0;
        while ci < coords.len()
            invariant
                reader.wf(),
                reader.source() == *buffer,
                buffer.wf(),
                0 <= ci <= coords@.len(),
                coords@ == canonical_coords(buffer@),
                strictly_sorted(coords@),
                coords@.to_set() == stored_coords(buffer@),
                qs@ == chunks_quads(*buffer, coords@.subrange(0, ci as int)),
                forall|a: int, c: int| 0 <= a < c < coords@.len() ==> coords@[a] != coords@[c],
                forall|a: int| 0 <= a < coords@.len() ==> (#[trigger] coords@[a]).valid(),
                quads_disjoint_sound(*buffer, qs@),
                forall|i: int, c: int|
                    0 <= i < qs@.len() && ci <= c < coords@.len() ==> #[trigger] qs@[i].chunk != #[trigger] coords@[c],
                forall|c: int, f: int, s: int|
                    0 <= c < ci && 0 <= f < 6 && 0 <= s < 32 ==> #[trigger] slice_covered(
                        *buffer,
                        qs@,
                        coords@[c],
                        f,
                        s,
                    ),
            decreases coords@.len() - ci,
        {
            let k = coords[ci];
            let mut f: usize = 0;
            while f < 6
                invariant
                    reader.wf(),
                    reader.source() == *buffer,
                    buffer.wf(),
                    0 <= ci < coords@.len(),
                    k == coords@[ci as int],
                    k.valid(),
                    f <= 6,
                    qs@ == chunks_quads(*buffer, coords@.subrange(0, ci as int)) + chunk_quads_first(
                        *buffer,
                        k,
                        f * 32,
                    ),
                    forall|a: int, c: int| 0 <= a < c < coords@.len() ==> coords@[a] != coords@[c],
                    quads_disjoint_sound(*buffer, qs@),
                    forall|i: int, c: int|
                        0 <= i < qs@.len() && ci < c < coords@.len() ==> #[trigger] qs@[i].chunk != #[trigger] coords@[c],
                    forall|i: int| 0 <= i < qs@.len() && #[trigger] qs@[i].chunk == k ==> qs@[i].face < f,
                    forall|c: int, ff: int, s: int|
                        0 <= c < ci && 0 <= ff < 6 && 0 <= s < 32 ==> #[trigger] slice_covered(
                            *buffer,
                            qs@,
                            coords@[c],
                            ff,
                            s,
                        ),
                    forall|ff: int, s: int|
                        0 <= ff < f && 0 <= s < 32 ==> #[trigger] slice_covered(*buffer, qs@, k, ff, s),
                decreases 6 - f,
            {
                let mut s: usize = 0;
                while s < 32
                    invariant
                        reader.wf(),
                        reader.source() == *buffer,
                        buffer.wf(),
                        0 <= ci < coords@.len(),
                        k == coords@[ci as int],
                        k.valid(),
                        f < 6,
                        s <= 32,
                        qs@ == chunks_quads(*buffer, coords@.subrange(0, ci as int)) + chunk_quads_first(
                            *buffer,
                            k,
                            f * 32 + s,
                        ),
                        forall|a: int, c: int| 0 <= a < c < coords@.len() ==> coords@[a] != coords@[c],
                        quads_disjoint_sound(*buffer, qs@),
                        forall|i: int, c: int|
                            0 <= i < qs@.len() && ci < c < coords@.len() ==> #[trigger] qs@[i].chunk != #[trigger] coords@[c],
                        forall|i: int|
                            0 <= i < qs@.len() && #[trigger] qs@[i].chunk == k ==> qs@[i].face < f || (
                            qs@[i].face == f && qs@[i].slice < s),
                        forall|c: int, ff: int, ss: int|
                            0 <= c < ci && 0 <= ff < 6 && 0 <= ss < 32 ==> #[trigger] slice_covered(
                                *buffer,
                                qs@,
                                coords@[c],
                                ff,
                                ss,
                            ),
                        forall|ff: int, ss: int|
                            0 <= ff < f && 0 <= ss < 32 ==> #[trigger] slice_covered(*buffer, qs@, k, ff, ss),
                        forall|ss: int| 0 <= ss < s ==> #[trigger] slice_covered(*buffer, qs@, k, f as int, ss),
                    decreases 32 - s,
                {
                    let ghost old_qs = qs@;
                    mesh_slice(&mut reader, k, f, s, &mut qs);
                    proof {
                        let n = old_qs.len();
                        let m = f * 32 + s;
                        assert((m + 1 - 1) / 32 == f && (m + 1 - 1) % 32 == s) by (nonlinear_arith)
                            requires
                                m == f * 32 + s,
                                s < 32,
                        ;
                        assert(chunk_quads_first(*buffer, k, m + 1) == chunk_quads_first(*buffer, k, m as int)
                            + slice_quads(*buffer, k, f as int, s as int));
                        assert(qs@ =~= chunks_quads(*buffer, coords@.subrange(0, ci as int)) + chunk_quads_first(
                            *buffer,
                            k,
                            m + 1,
                        ));
                        assert forall|i: int| 0 <= i < qs@.len() implies (#[trigger] qs@[i]).sound(*buffer) by {
                            if i < n {
                                assert(qs@[i] == old_qs[i]);
                            }
                        }
                        assert forall|i: int, j: int, u: int, v: int|
                            0 <= i < j < qs@.len() && qs@[i].same_slice(qs@[j]) implies !(
                            #[trigger] qs@[i].covers_uv(u, v) && #[trigger] qs@[j].covers_uv(u, v)) by {
                            if j < n {
                                assert(qs@[i] == old_qs[i] && qs@[j] == old_qs[j]);
                            } else if i < n {
                                assert(qs@[i] == old_qs[i]);
                                assert(qs@[j].chunk == k);
                            }
                        }
                        assert forall|i: int, c: int|
                            0 <= i < qs@.len() && ci < c < coords@.len() implies #[trigger] qs@[i].chunk
                            != #[trigger] coords@[c] by {
                            if i < n {
                                assert(qs@[i] == old_qs[i]);
                            } else {
                                assert(coords@[ci as int] != coords@[c]);
                            }
                        }
                        assert forall|i: int|
                            0 <= i < qs@.len() && #[trigger] qs@[i].chunk == k implies qs@[i].face < f || (
                            qs@[i].face == f && qs@[i].slice < s + 1) by {
                            if i < n {
                                assert(qs@[i] == old_qs[i]);
                            }
                        }
                        assert forall|c: int, ff: int, ss: int|
                            0 <= c < ci && 0 <= ff < 6 && 0 <= ss < 32 implies #[trigger] slice_covered(
                                *buffer,
                                qs@,
                                coords@[c],
                                ff,
                                ss,
                            ) by {
                            lemma_covered_grows(*buffer, old_qs, qs@, coords@[c], ff, ss);
                        }
                        assert forall|ff: int, ss: int|
                            0 <= ff < f && 0 <= ss < 32 implies #[trigger] slice_covered(*buffer, qs@, k, ff, ss) by {
                            lemma_covered_grows(*buffer, old_qs, qs@, k, ff, ss);
                        }
                        assert forall|ss: int| 0 <= ss < s + 1 implies #[trigger] slice_covered(
                            *buffer,
                            qs@,
                            k,
                            f as int,
                            ss,
                        ) by {
                            if ss < s {
                                lemma_covered_grows(*buffer, old_qs, qs@, k, f as int, ss);
                            }
                        }
                    }
                    s = s + 1;
                }
                f = f + 1;
            }
            proof {
                assert forall|i: int, c: int|
                    0 <= i < qs@.len() && ci + 1 <= c < coords@.len() implies #[trigger] qs@[i].chunk
                    != #[trigger] coords@[c] by {}
                let pre = coords@.subrange(0, ci + 1);
                assert(pre.drop_last() =~= coords@.subrange(0, ci as int));
                assert(pre.last() == k);
                assert(qs@ =~= chunks_quads(*buffer, pre));
            }
            ci = ci + 1;
        }
        proof {
            assert(coords@.subrange(0, ci as int) =~= coords@);
            assert forall|k: ChunkCoord, f: int, s: int|
                buffer@.contains_key(key_of(k)) && 0 <= f < 6 && 0 <= s < 32 implies #[trigger]
                slice_covered(*buffer, qs@, k, f, s) by {
                assert(stored_coords(buffer@).contains(k));
                assert(coords@.to_set().contains(k));
                let c = coords@.index_of(k);
                assert(coords@[c] == k);
            }
            assert forall|c: WorldCoord, f: int|
                0 <= f < 6 && face_visible(*buffer, pos_of(c), f) implies exists|i: int|
                    0 <= i < qs@.len() && #[trigger] qs@[i].covers_face(pos_of(c), f) by {
                lemma_visible_faces_covered(*buffer, qs@, c, f);
            }
        }
        qs
    }
}

proof fn lemma_covered_grows(b: Buffer, q0: Seq<Quad>, q1: Seq<Quad>, k: ChunkCoord, f: int, s: int)
    requires
        slice_covered(b, q0, k, f, s),
        q1.len() >= q0.len(),
        forall|i: int| 0 <= i < q0.len() ==> #[trigger] q1[i] == q0[i],
    ensures
        slice_covered(b, q1, k, f, s),
{
    assert forall|u: int, v: int|
        0 <= u < 32 && 0 <= v < 32 && face_visible(b, slice_cell(k, f, s, u, v), f) implies exists|i: int|
        0 <= i < q1.len() && q1[i].chunk == k && q1[i].face == f && q1[i].slice == s
            && #[trigger] q1[i].covers_uv(u, v) by {
        let i = choose|i: int|
            0 <= i < q0.len() && q0[i].chunk == k && q0[i].face == f && q0[i].slice == s
                && #[trigger] q0[i].covers_uv(u, v);
        assert(q1[i] == q0[i]);
    }
}

/// The slice and slice position `(s, u, v)` at which face `f` of a chunk sees local position `l`.
pub open spec fn slice_coords(f: int, l: (int, int, int)) -> (int, int, int) {
    if f == 0 {
        (l.0, l.2, l.1)
    } else if f == 1 {
        (l.2, l.0, l.1)
    } else if f == 2 {
        (l.0, 31 - l.2, l.1)
    } else if f == 3 {
        (l.2, 31 - l.0, l.1)
    } else if f == 4 {
        (l.1, l.2, l.0)
    } else {
        (l.1, l.0, l.2)
    }
}

pub open spec fn pos_of(c: WorldCoord) -> (int, int, int) {
    (c.0.x as int, c.0.y as int, c.0.z as int)
}

/// Every visible face of the grid is held by one of the quads, when every slice of every
/// stored chunk is covered.
pub proof fn lemma_visible_faces_covered(b: Buffer, qs: Seq<Quad>, c: WorldCoord, f: int)
    requires
        b.wf(),
        0 <= f < 6,
        forall|k: ChunkCoord, ff: int, s: int|
            b@.contains_key(key_of(k)) && 0 <= ff < 6 && 0 <= s < 32 ==> #[trigger] slice_covered(
                b,
                qs,
                k,
                ff,
                s,
            ),
        face_visible(b, pos_of(c), f),
    ensures
        exists|i: int| 0 <= i < qs.len() && #[trigger] qs[i].covers_face(pos_of(c), f),
{
    lemma_chunk_local_split(c);
    let k = c.chunk_spec();
    let l = c.local_spec();
    let lt = (l.0.x as int, l.0.y as int, l.0.z as int);
    let (s, u, v) = slice_coords(f, lt);
    assert(slice_local(f, s, u, v) == lt);
    assert(slice_cell(k, f, s, u, v) == pos_of(c));
    assert(b.cell_at_pos(pos_of(c)) == b.cell_at(c));
    assert(b@.contains_key(key_of(k)));
    assert(slice_covered(b, qs, k, f, s));
    let i = choose|i: int|
        0 <= i < qs.len() && qs[i].chunk == k && qs[i].face == f && qs[i].slice == s
            && #[trigger] qs[i].covers_uv(u, v);
    assert(qs[i].covers_uv(u, v) && slice_cell(qs[i].chunk, f, qs[i].slice as int, u, v) == pos_of(c));
    assert(qs[i].covers_face(pos_of(c), f));
}

/// No visible face is held by two of the quads.
#[verifier::rlimit(50)]
pub proof fn lemma_faces_held_once(b: Buffer, qs: Seq<Quad>, i: int, j: int, p: (int, int, int), f: int)
    requires
        quads_disjoint_sound(b, qs),
        0 <= i < j < qs.len(),
    ensures
        !(qs[i].covers_face(p, f) && qs[j].covers_face(p, f)),
{
    let qi = qs[i];
    let qj = qs[j];
    if qi.covers_face(p, f) && qj.covers_face(p, f) {
        assert(qi.sound(b) && qj.sound(b));
        let (u1, v1) = choose|u: int, v: int|
            #[trigger] qi.covers_uv(u, v) && slice_cell(qi.chunk, f, qi.slice as int, u, v) == p;
        let (u2, v2) = choose|u: int, v: int|
            #[trigger] qj.covers_uv(u, v) && slice_cell(qj.chunk, f, qj.slice as int, u, v) == p;
        let l1 = slice_local(f, qi.slice as int, u1, v1);
        let l2 = slice_local(f, qj.slice as int, u2, v2);
        assert(qi.chunk == qj.chunk && l1 == l2);
        assert(qi.slice == qj.slice && u1 == u2 && v1 == v2);
        assert(qi.same_slice(qj));
        assert(!(qi.covers_uv(u1, v1) && qj.covers_uv(u1, v1)));
    }
}

/// Corner `k` of quad `q`, counter-clockwise from the corner at its first cell.
pub open spec fn corner_pos(q: Quad, k: int) -> (int, int, int) {
    let f = q.face as int;
    let p0 = add3(slice_cell(q.chunk, f, q.slice as int, q.u as int, q.v as int), face_origin(f));
    let t = scale3(face_tangent(f), q.width as int);
    let bt = scale3(face_bitangent(f), q.height as int);
    if k == 0 {
        p0
    } else if k == 1 {
        add3(p0, t)
    } else if k == 2 {
        add3(add3(p0, t), bt)
    } else {
        add3(p0, bt)
    }
}

/// The slice position of the quad's cell at corner `k`.
pub open spec fn corner_uv(q: Quad, k: int) -> (int, int) {
    let u1 = q.u + q.width - 1;
    let v1 = q.v + q.height - 1;
    if k == 0 {
        (q.u as int, q.v as int)
    } else if k == 1 {
        (u1, q.v as int)
    } else if k == 2 {
        (u1, v1)
    } else {
        (q.u as int, v1)
    }
}

/// Along which way of the tangent and the bitangent corner `k` looks.
pub open spec fn corner_signs(k: int) -> (int, int) {
    if k == 0 {
        (-1, -1)
    } else if k == 1 {
        (1, -1)
    } else if k == 2 {
        (1, 1)
    } else {
        (-1, 1)
    }
}

pub open spec fn occupied_at(b: Buffer, p: (int, int, int)) -> bool {
    b.cell_at_pos(p) != empty_cell()
}

/// Corner `k` of the quad is occluded: in the layer in front of the face, the cell beside
/// the corner cell along the tangent, the one along the bitangent, or the diagonal one is
/// occupied.
pub open spec fn corner_shadowed(b: Buffer, q: Quad, k: int) -> bool {
    let f = q.face as int;
    let (cu, cv) = corner_uv(q, k);
    let front = add3(slice_cell(q.chunk, f, q.slice as int, cu, cv), face_normal(f));
    let (st, sb) = corner_signs(k);
    let t = scale3(face_tangent(f), st);
    let bt = scale3(face_bitangent(f), sb);
    occupied_at(b, add3(front, t)) || occupied_at(b, add3(front, bt)) || occupied_at(
        b,
        add3(add3(front, t), bt),
    )
}

/// Color and emission of corner `k`: the material's color, halved where occluded.
pub open spec fn corner_color(b: Buffer, q: Quad, k: int) -> (u8, u8, u8, u8) {
    let c = q.pbr_props.color.shadow_spec(corner_shadowed(b, q, k));
    (c.r, c.g, c.b, q.pbr_props.emission)
}

/// Metallic, roughness, reflectance and face id of every corner of the quad.
pub open spec fn quad_material(q: Quad) -> (u8, u8, u8, u8) {
    (q.pbr_props.metallic, q.pbr_props.roughness, q.pbr_props.reflectance, q.face as u8)
}

/// Offset of the `j`-th index of a quad's two triangles from its first vertex.
pub open spec fn triangle_corner(j: int) -> int {
    if j == 0 || j == 3 {
        0
    } else if j == 1 {
        1
    } else if j == 2 || j == 4 {
        2
    } else {
        3
    }
}

/// Geometry of a surface: four vertices and six indices per quad, in the order of `quads`.
#[derive(Clone, Debug)]
pub struct MeshData {
    pub quads: Vec<Quad>,
    pub positions: Vec<(i64, i64, i64)>,
    pub pbr_norm: Vec<(u8, u8, u8, u8)>,
    pub color_emissive: Vec<(u8, u8, u8, u8)>,
    pub indices: Vec<u32>,
}

/// An index buffer in the narrowest width that holds every vertex index.
#[derive(Clone, Debug)]
pub enum Indices {
    U16(Vec<u16>),
    U32(Vec<u32>),
}

impl MeshData {
    /// The vertices and indices are exactly those of `quads`, read against `b`.
    pub open spec fn emits(&self, b: Buffer) -> bool {
        let n = self.quads@.len();
        &&& self.positions@.len() == 4 * n
        &&& self.pbr_norm@.len() == 4 * n
        &&& self.color_emissive@.len() == 4 * n
        &&& self.indices@.len() == 6 * n
        &&& forall|i: int, k: int|
            0 <= i < n && 0 <= k < 4 ==> {
                let p = #[trigger] self.positions@[4 * i + k];
                &&& (p.0 as int, p.1 as int, p.2 as int) == corner_pos(self.quads@[i], k)
                &&& self.pbr_norm@[4 * i + k] == quad_material(self.quads@[i])
                &&& self.color_emissive@[4 * i + k] == corner_color(b, self.quads@[i], k)
            }
        &&& forall|i: int, j: int|
            0 <= i < n && 0 <= j < 6 ==> #[trigger] self.indices@[6 * i + j] == 4 * i + triangle_corner(j)
    }
}

/// Normal, tangent and bitangent of face `f`, and the corner where its quad starts.
fn face_frame(f: usize) -> (r: ((i64, i64, i64), (i64, i64, i64), (i64, i64, i64), (i64, i64, i64)))
    requires
        f < 6,
    ensures
        (r.0.0 as int, r.0.1 as int, r.0.2 as int) == face_origin(f as int),
        (r.1.0 as int, r.1.1 as int, r.1.2 as int) == face_normal(f as int),
        (r.2.0 as int, r.2.1 as int, r.2.2 as int) == face_tangent(f as int),
        (r.3.0 as int, r.3.1 as int, r.3.2 as int) == face_bitangent(f as int),
{
    if f == 0 {
        ((0, 0, 0), (-1, 0, 0), (0, 0, 1), (0, 1, 0))
    } else if f == 1 {
        ((0, 0, 1), (0, 0, 1), (1, 0, 0), (0, 1, 0))
    } else if f == 2 {
        ((1, 0, 1), (1, 0, 0), (0, 0, -1), (0, 1, 0))
    } else if f == 3 {
        ((1, 0, 0), (0, 0, -1), (-1, 0, 0), (0, 1, 0))
    } else if f == 4 {
        ((0, 1, 0), (0, 1, 0), (0, 0, 1), (1, 0, 0))
    } else {
        ((0, 0, 0), (0, -1, 0), (1, 0, 0), (0, 0, 1))
    }
}

/// World position of slice position `(u, v)` of the quad's slice.
fn slice_cell_exec(q: &Quad, u: usize, v: usize) -> (r: (i64, i64, i64))
    requires
        q.chunk.valid(),
        q.face < 6,
        q.slice < 32,
        u < 32,
        v < 32,
    ensures
        (r.0 as int, r.1 as int, r.2 as int) == slice_cell(q.chunk, q.face as int, q.slice as int, u as int, v as int),
        -2147483648 <= r.0 < 2147483648,
        -2147483648 <= r.1 < 2147483648,
        -2147483648 <= r.2 < 2147483648,
{
    let l = slice_local_exec(q.face, q.slice, u, v);
    ((q.chunk.0.x as i64) * 32 + l.0 as i64, (q.chunk.0.y as i64) * 32 + l.1 as i64, (q.chunk.0.z as i64) * 32 + l.2 as i64)
}

/// `a` scaled by `n`, for a unit axis vector `a` and a small `n`.
fn scale_axis(a: (i64, i64, i64), n: i64) -> (r: (i64, i64, i64))
    requires
        -1 <= a.0 <= 1 && -1 <= a.1 <= 1 && -1 <= a.2 <= 1,
        -64 <= n <= 64,
    ensures
        (r.0 as int, r.1 as int, r.2 as int) == scale3((a.0 as int, a.1 as int, a.2 as int), n as int),
        -64 <= r.0 <= 64 && -64 <= r.1 <= 64 && -64 <= r.2 <= 64,
{
    assert(-64 <= a.0 * n <= 64) by (nonlinear_arith)
        requires
            -1 <= a.0 <= 1,
            -64 <= n <= 64,
    ;
    assert(-64 <= a.1 * n <= 64) by (nonlinear_arith)
        requires
            -1 <= a.1 <= 1,
            -64 <= n <= 64,
    ;
    assert(-64 <= a.2 * n <= 64) by (nonlinear_arith)
        requires
            -1 <= a.2 <= 1,
            -64 <= n <= 64,
    ;
    (a.0 * n, a.1 * n, a.2 * n)
}

/// Position of corner `k` of a quad.
fn quad_corner_pos(q: &Quad, k: usize) -> (r: (i64, i64, i64))
    requires
        q.in_slice(),
        k < 4,
    ensures
        (r.0 as int, r.1 as int, r.2 as int) == corner_pos(*q, k as int),
{
    let (o, _n, t, bt) = face_frame(q.face);
    let p0c = slice_cell_exec(q, q.u, q.v);
    let p0 = (p0c.0 + o.0, p0c.1 + o.1, p0c.2 + o.2);
    let tw = scale_axis(t, q.width as i64);
    let bh = scale_axis(bt, q.height as i64);
    if k == 0 {
        p0
    } else if k == 1 {
        (p0.0 + tw.0, p0.1 + tw.1, p0.2 + tw.2)
    } else if k == 2 {
        (p0.0 + tw.0 + bh.0, p0.1 + tw.1 + bh.1, p0.2 + tw.2 + bh.2)
    } else {
        (p0.0 + bh.0, p0.1 + bh.1, p0.2 + bh.2)
    }
}

/// Whether corner `k` of a quad is occluded.
fn quad_corner_shadowed(reader: &mut FastBufferReader, q: &Quad, k: usize) -> (r: bool)
    requires
        old(reader).wf(),
        q.in_slice(),
        k < 4,
    ensures
        final(reader).wf(),
        final(reader).source() == old(reader).source(),
        r == corner_shadowed(old(reader).source(), *q, k as int),
{
    let (_o, n, t, bt) = face_frame(q.face);
    let u1 = q.u + q.width - 1;
    let v1 = q.v + q.height - 1;
    let (cu, cv, st, sb): (usize, usize, i64, i64) = if k == 0 {
        (q.u, q.v, -1, -1)
    } else if k == 1 {
        (u1, q.v, 1, -1)
    } else if k == 2 {
        (u1, v1, 1, 1)
    } else {
        (q.u, v1, -1, 1)
    };
    let cc = slice_cell_exec(q, cu, cv);
    let front = (cc.0 + n.0, cc.1 + n.1, cc.2 + n.2);
    let ts = scale_axis(t, st);
    let bs = scale_axis(bt, sb);
    let a = reader.get_pos(front.0 + ts.0, front.1 + ts.1, front.2 + ts.2);
    let b = reader.get_pos(front.0 + bs.0, front.1 + bs.1, front.2 + bs.2);
    let d = reader.get_pos(front.0 + ts.0 + bs.0, front.1 + ts.1 + bs.1, front.2 + ts.2 + bs.2);
    !a.is_empty() || !b.is_empty() || !d.is_empty()
}

/// Position and color of corner `k` of a sound quad.
fn quad_corner(reader: &mut FastBufferReader, q: &Quad, k: usize) -> (r: ((i64, i64, i64), (u8, u8, u8, u8)))
    requires
        old(reader).wf(),
        q.in_slice(),
        k < 4,
    ensures
        final(reader).wf(),
        final(reader).source() == old(reader).source(),
        (r.0.0 as int, r.0.1 as int, r.0.2 as int) == corner_pos(*q, k as int),
        r.1 == corner_color(old(reader).source(), *q, k as int),
{
    let pos = quad_corner_pos(q, k);
    let shadowed = quad_corner_shadowed(reader, q, k);
    let c = q.pbr_props.color.shadow(shadowed);
    (pos, (c.r, c.g, c.b, q.pbr_props.emission))
}

impl MeshData {
    /// The vertices and indices of `quads`, four vertices and two triangles per quad.
    #[verifier::spinoff_prover]
    #[verifier::rlimit(40)]
    pub fn from_quads(buffer: &Buffer, quads: Vec<Quad>) -> (r: MeshData)
        requires
            buffer.wf(),
            forall|i: int| 0 <= i < quads@.len() ==> (#[trigger] quads@[i]).sound(*buffer),
            quads@.len() < 1073741824,
        ensures
            r.quads@ == quads@,
            r.emits(*buffer),
    {
        let mut reader = FastBufferReader::new(buffer);
        let mut positions: Vec<(i64, i64, i64)> = Vec::new();
        let mut pbr_norm: Vec<(u8, u8, u8, u8)> = Vec::new();
        let mut color_emissive: Vec<(u8, u8, u8, u8)> = Vec::new();
        let mut indices: Vec<u32> = Vec::new();
        let mut i: usize = 0;
        while i < quads.len()
            invariant
                reader.wf(),
                reader.source() == *buffer,
                forall|a: int| 0 <= a < quads@.len() ==> (#[trigger] quads@[a]).sound(*buffer),
                quads@.len() < 1073741824,
                0 <= i <= quads@.len(),
                positions@.len() == 4 * i,
                pbr_norm@.len() == 4 * i,
                color_emissive@.len() == 4 * i,
                indices@.len() == 6 * i,
                forall|a: int, k: int|
                    0 <= a < i && 0 <= k < 4 ==> {
                        let p = #[trigger] positions@[4 * a + k];
                        &&& (p.0 as int, p.1 as int, p.2 as int) == corner_pos(quads@[a], k)
                        &&& pbr_norm@[4 * a + k] == quad_material(quads@[a])
                        &&& color_emissive@[4 * a + k] == corner_color(*buffer, quads@[a], k)
                    },
                forall|a: int, j: int|
                    0 <= a < i && 0 <= j < 6 ==> #[trigger] indices@[6 * a + j] == 4 * a + triangle_corner(j),
            decreases quads@.len() - i,
        {
            let q = quads[i];
            let ghost p_before = positions@;
            let ghost n_before = pbr_norm@;
            let ghost c_before = color_emissive@;
            let ghost i_before = indices@;
            let mut k: usize = 0;
            while k < 4
                invariant
                    reader.wf(),
                    reader.source() == *buffer,
                    q == quads@[i as int],
                    q.sound(*buffer),
                    0 <= i < quads@.len(),
                    k <= 4,
                    positions@.len() == 4 * i + k,
                    pbr_norm@.len() == 4 * i + k,
                    color_emissive@.len() == 4 * i + k,
                    forall|a: int| 0 <= a < 4 * i ==> #[trigger] positions@[a] == p_before[a],
                    forall|a: int| 0 <= a < 4 * i ==> #[trigger] pbr_norm@[a] == n_before[a],
                    forall|a: int| 0 <= a < 4 * i ==> #[trigger] color_emissive@[a] == c_before[a],
                    forall|kk: int|
                        0 <= kk < k ==> {
                            let p = #[trigger] positions@[4 * i + kk];
                            &&& (p.0 as int, p.1 as int, p.2 as int) == corner_pos(q, kk)
                            &&& pbr_norm@[4 * i + kk] == quad_material(q)
                            &&& color_emissive@[4 * i + kk] == corner_color(*buffer, q, kk)
                        },
                decreases 4 - k,
            {
                let (pos, color) = quad_corner(&mut reader, &q, k);
                positions.push(pos);
                pbr_norm.push((q.pbr_props.metallic, q.pbr_props.roughness, q.pbr_props.reflectance, q.face as u8));
                color_emissive.push(color);
                k = k + 1;
            }
            let base = (4 * i) as u32;
            indices.push(base);
            indices.push(base + 1);
            indices.push(base + 2);
            indices.push(base);
            indices.push(base + 2);
            indices.push(base + 3);
            proof {
                assert forall|a: int, kk: int|
                    0 <= a < i + 1 && 0 <= kk < 4 implies {
                        let p = #[trigger] positions@[4 * a + kk];
                        &&& (p.0 as int, p.1 as int, p.2 as int) == corner_pos(quads@[a], kk)
                        &&& pbr_norm@[4 * a + kk] == quad_material(quads@[a])
                        &&& color_emissive@[4 * a + kk] == corner_color(*buffer, quads@[a], kk)
                    } by {
                    if a < i {
                        assert(positions@[4 * a + kk] == p_before[4 * a + kk]);
                        assert(pbr_norm@[4 * a + kk] == n_before[4 * a + kk]);
                        assert(color_emissive@[4 * a + kk] == c_before[4 * a + kk]);
                    } else {
                        assert(positions@[4 * i + kk] == positions@[4 * a + kk]);
                    }
                }
                assert forall|a: int, j: int|
                    0 <= a < i + 1 && 0 <= j < 6 implies #[trigger] indices@[6 * a + j] == 4 * a
                    + triangle_corner(j) by {
                    if a < i {
                        assert(indices@[6 * a + j] == i_before[6 * a + j]);
                    }
                }
            }
            i = i + 1;
        }
        MeshData { quads, positions, pbr_norm, color_emissive, indices }
    }

    /// The greedy surface of `buffer`: the quads of `Quad::from_buffer` and their vertices and
    /// indices. `None` when the quads are too many for 32-bit vertex indices.
    pub fn from_buffer(buffer: &Buffer) -> (r: Option<MeshData>)
        requires
            buffer.wf(),
        ensures
            r.is_none() == (buffer_quads(*buffer).len() >= 1073741824),
            r.is_some() ==> {
                let m = r.unwrap();
                &&& m.quads@ == buffer_quads(*buffer)
                &&& m.emits(*buffer)
                &&& quads_disjoint_sound(*buffer, m.quads@)
                &&& forall|c: WorldCoord, f: int|
                    0 <= f < 6 && face_visible(*buffer, pos_of(c), f) ==> exists|i: int|
                        0 <= i < m.quads@.len() && #[trigger] m.quads@[i].covers_face(pos_of(c), f)
            },
    {
        let quads = Quad::from_buffer(buffer);
        if quads.len() >= 1073741824 {
            return None;
        }
        Some(MeshData::from_quads(buffer, quads))
    }

    /// `r` holds the indices in the narrowest width that fits the vertex count.
    pub open spec fn narrowed(&self, r: Indices) -> bool {
        match r {
            Indices::U32(v) => self.positions@.len() > 65535 && v@ == self.indices@,
            Indices::U16(v) => {
                &&& self.positions@.len() <= 65535
                &&& v@.len() == self.indices@.len()
                &&& forall|i: int| 0 <= i < v@.len() ==> v@[i] as int == self.indices@[i] as int
            },
        }
    }

    /// The index buffer in 16-bit form while the vertex count fits 16 bits, else in 32-bit form.
    pub fn index_buffer(&self) -> (r: Indices)
        requires
            forall|i: int| 0 <= i < self.indices@.len() ==> self.indices@[i] < self.positions@.len(),
        ensures
            self.narrowed(r),
    {
        if self.positions.len() > 65535 {
            let mut v: Vec<u32> = Vec::new();
            let mut i: usize = 0;
            while i < self.indices.len()
                invariant
                    0 <= i <= self.indices@.len(),
                    v@ == self.indices@.subrange(0, i as int),
                decreases self.indices@.len() - i,
            {
                v.push(self.indices[i]);
                i = i + 1;
                assert(v@ =~= self.indices@.subrange(0, i as int));
            }
            assert(v@ =~= self.indices@);
            Indices::U32(v)
        } else {
            let mut v: Vec<u16> = Vec::new();
            let mut i: usize = 0;
            while i < self.indices.len()
                invariant
                    0 <= i <= self.indices@.len(),
                    v@.len() == i,
                    self.positions@.len() <= 65535,
                    forall|j: int| 0 <= j < self.indices@.len() ==> self.indices@[j] < self.positions@.len(),
                    forall|j: int| 0 <= j < i ==> v@[j] as int == (#[trigger] self.indices@[j]) as int,
                decreases self.indices@.len() - i,
            {
                v.push(self.indices[i] as u16);
                i = i + 1;
            }
            Indices::U16(v)
        }
    }
}

/// Meshing a grid twice gives identical output: the quads are `buffer_quads` of the grid and
/// every vertex attribute and index is fixed by them.
pub proof fn lemma_mesh_deterministic(b: Buffer, m1: MeshData, m2: MeshData)
    requires
        m1.quads@ == buffer_quads(b),
        m1.emits(b),
        m2.quads@ == buffer_quads(b),
        m2.emits(b),
    ensures
        m1.quads@ == m2.quads@,
        m1.positions@ == m2.positions@,
        m1.pbr_norm@ == m2.pbr_norm@,
        m1.color_emissive@ == m2.color_emissive@,
        m1.indices@ == m2.indices@,
{
    let n = m1.quads@.len();
    assert forall|j: int| 0 <= j < 4 * n implies m1.positions@[j] == m2.positions@[j] && m1.pbr_norm@[j]
        == m2.pbr_norm@[j] && m1.color_emissive@[j] == m2.color_emissive@[j] by {
        let i = j / 4;
        let k = j % 4;
        assert(j == 4 * i + k && 0 <= i < n && 0 <= k < 4) by (nonlinear_arith)
            requires
                0 <= j < 4 * n,
                i == j / 4,
                k == j % 4,
        ;
        assert(m1.positions@[4 * i + k] == m1.positions@[j]);
        assert(m2.positions@[4 * i + k] == m2.positions@[j]);
    }
    assert forall|j: int| 0 <= j < 6 * n implies m1.indices@[j] == m2.indices@[j] by {
        let i = j / 6;
        let k = j % 6;
        assert(j == 6 * i + k && 0 <= i < n && 0 <= k < 6) by (nonlinear_arith)
            requires
                0 <= j < 6 * n,
                i == j / 6,
                k == j % 6,
        ;
        assert(m1.indices@[6 * i + k] == m1.indices@[j]);
        assert(m2.indices@[6 * i + k] == m2.indices@[j]);
    }
    assert(m1.positions@ =~= m2.positions@);
    assert(m1.pbr_norm@ =~= m2.pbr_norm@);
    assert(m1.color_emissive@ =~= m2.color_emissive@);
    assert(m1.indices@ =~= m2.indices@);
}

} // verus!
