//! Listings of the occupied cells of the GridMap

use super::bounding_box::BoundingBox;
use super::indexing::{
    chunk_fits, chunk_key, delinear, dims_valid, global_of, in_chunk, lemma_delinear,
    lemma_global_split, lemma_linear_bounds, lemma_linear_delinear,
    lemma_split_round_trip, linear, local_index, local_key, volume,
};
use super::GridMap;
use crate::cell::{null, Cell};
use vstd::prelude::*;

verus! {

/// The coordinates and values of a listing of cells.
pub open spec fn pairs_view<A, const D: usize>(r: Seq<([isize; D], &A)>) -> Seq<(Seq<isize>, A)> {
    r.map_values(|p: ([isize; D], &A)| (p.0@, *p.1))
}

/// True when `bounds` picks `index`: every coordinate where `bounds` is
/// absent, those the box contains otherwise.
pub open spec fn picked<const D: usize>(bounds: Option<BoundingBox<D>>, index: Seq<isize>) -> bool {
    match bounds {
        Some(b) => b.contains_spec(index),
        None => true,
    }
}

impl<A: Cell, const D: usize> GridMap<A, D> {
    /// True when `r` lists, once each and with its value, every non-null
    /// cell of the grid whose coordinate `bounds` picks, and nothing else.
    pub open spec fn is_listing(&self, r: Seq<(Seq<isize>, A)>, bounds: Option<BoundingBox<D>>) -> bool {
        &&& forall|j: int|
            0 <= j < r.len() ==> {
                &&& (#[trigger] r[j]).0.len() == D
                &&& picked(bounds, r[j].0)
                &&& !null(r[j].1)
                &&& self.cell(r[j].0) == r[j].1
            }
        &&& forall|c: Seq<isize>|
            c.len() == D && picked(bounds, c) && !null(#[trigger] self.cell(c)) ==> exists|j: int|
                0 <= j < r.len() && (#[trigger] r[j]).0 == c
        &&& forall|i: int, j: int| 0 <= i < j < r.len() ==> (#[trigger] r[i]).0 != (#[trigger] r[j]).0
    }
}

/// Compute the coordinate of the first cell of a chunk.
fn from_chunk_to_cell_index<const D: usize>(chunk_dim: &[usize; D], chunk_index: &[isize; D]) -> (r:
    [isize; D])
    requires
        dims_valid(chunk_dim@),
        chunk_fits(chunk_index@, chunk_dim@),
    ensures
        forall|d: int| 0 <= d < D ==> r@[d] == chunk_index@[d] * chunk_dim@[d],
{
    let mut index = [0isize; D];
    let mut d: usize = 0;
    while d < D
        invariant
            0 <= d <= D,
            dims_valid(chunk_dim@),
            chunk_fits(chunk_index@, chunk_dim@),
            forall|e: int| 0 <= e < d ==> index@[e] == chunk_index@[e] * chunk_dim@[e],
        decreases D - d,
    {
        proof {
            assert(0 < chunk_dim@[d as int] <= isize::MAX);
            assert(isize::MIN <= chunk_index@[d as int] * chunk_dim@[d as int] <= isize::MAX);
        }
        index[d] = chunk_index[d] * chunk_dim[d] as isize;
        d += 1;
    }
    index
}

/// Compute the coordinate of the cell `local` of the chunk whose first cell
/// is at `origin`.
fn compute_cell_index<const D: usize>(
    chunk_dim: &[usize; D],
    chunk_index: &[isize; D],
    origin: &[isize; D],
    local: &[usize; D],
) -> (r: [isize; D])
    requires
        dims_valid(chunk_dim@),
        chunk_fits(chunk_index@, chunk_dim@),
        in_chunk(local@, chunk_dim@),
        forall|d: int| 0 <= d < D ==> origin@[d] == chunk_index@[d] * chunk_dim@[d],
    ensures
        r@ == global_of(chunk_index@, local@, chunk_dim@),
{
    let mut index = [0isize; D];
    let mut d: usize = 0;
    while d < D
        invariant
            0 <= d <= D,
            dims_valid(chunk_dim@),
            chunk_fits(chunk_index@, chunk_dim@),
            in_chunk(local@, chunk_dim@),
            forall|e: int| 0 <= e < D ==> origin@[e] == chunk_index@[e] * chunk_dim@[e],
            forall|e: int| 0 <= e < d ==> index@[e] == global_of(chunk_index@, local@, chunk_dim@)[e],
        decreases D - d,
    {
        proof {
            assert(local@[d as int] < chunk_dim@[d as int] <= isize::MAX);
            assert(chunk_index@[d as int] * chunk_dim@[d as int] + chunk_dim@[d as int] <= isize::MAX);
        }
        index[d] = origin[d] + local[d] as isize;
        d += 1;
    }
    assert(index@ =~= global_of(chunk_index@, local@, chunk_dim@));
    index
}

/// Compute the bounding box of the chunk whose first cell is at `origin`.
pub fn chunk_bounds<const D: usize>(chunk_dim: &[usize; D], origin: &[isize; D]) -> (r: BoundingBox<D>)
    requires
        dims_valid(chunk_dim@),
        forall|d: int| 0 <= d < D ==> origin@[d] + chunk_dim@[d] <= isize::MAX,
    ensures
        r.start@ == origin@,
        forall|d: int| 0 <= d < D ==> r.end@[d] == origin@[d] + chunk_dim@[d],
{
    let mut end = [0isize; D];
    let mut d: usize = 0;
    while d < D
        invariant
            0 <= d <= D,
            dims_valid(chunk_dim@),
            forall|e: int| 0 <= e < D ==> origin@[e] + chunk_dim@[e] <= isize::MAX,
            forall|e: int| 0 <= e < d ==> end@[e] == origin@[e] + chunk_dim@[e],
        decreases D - d,
    {
        assert(0 < chunk_dim@[d as int] <= isize::MAX);
        end[d] = origin[d] + chunk_dim[d] as isize;
        d += 1;
    }
    BoundingBox { start: *origin, end }
}

/// A box that contains a cell of a chunk overlaps the extent of that chunk.
proof fn lemma_contains_overlaps<const D: usize>(
    b: BoundingBox<D>,
    chunk: BoundingBox<D>,
    key: Seq<isize>,
    local: Seq<usize>,
    dims: Seq<usize>,
)
    requires
        dims_valid(dims),
        dims.len() == D,
        chunk_fits(key, dims),
        in_chunk(local, dims),
        chunk.start@ =~= Seq::new(D as nat, |d: int| (key[d] * dims[d]) as isize),
        forall|d: int| 0 <= d < D ==> chunk.end@[d] == key[d] * dims[d] + dims[d],
        b.contains_spec(global_of(key, local, dims)),
    ensures
        b.overlaps_spec(&chunk),
{
    lemma_global_split(key, local, dims);
    let g = global_of(key, local, dims);
    assert forall|d: int| 0 <= d < D implies #[trigger] b.start@[d] <= chunk.end@[d]
        && chunk.start@[d] <= b.end@[d] by {
        assert(b.start@[d] <= g[d] < b.end@[d]);
        assert(local[d] < dims[d]);
        assert(chunk.start@[d] == key[d] * dims[d]);
    }
}

/// `p` comes strictly before `q` in lexicographic order.
spec fn lex_lt(p: (int, int), q: (int, int)) -> bool {
    p.0 < q.0 || (p.0 == q.0 && p.1 < q.1)
}

impl<A: Cell, const D: usize> GridMap<A, D> {
    /// `r` lists, in order, the non-null cells that `bounds` picks among the
    /// cells before position `i` of chunk `s` in the walk; `pos` gives the
    /// chunk and position of each.
    closed spec fn listed(
        &self,
        r: Seq<(Seq<isize>, A)>,
        pos: Seq<(int, int)>,
        s: int,
        i: int,
        bounds: Option<BoundingBox<D>>,
    ) -> bool {
        let dims = self.chunk_dim@;
        &&& pos.len() == r.len()
        &&& forall|j: int|
            0 <= j < r.len() ==> {
                let (a, b) = #[trigger] pos[j];
                &&& 0 <= a < self.chunks@.len()
                &&& 0 <= b < volume(dims)
                &&& lex_lt((a, b), (s, i))
                &&& r[j].0 == global_of(self.chunks@[a].coord@, delinear(b, dims), dims)
                &&& r[j].1 == self.chunks@[a].cells@[b]
                &&& !null(r[j].1)
                &&& picked(bounds, r[j].0)
            }
        &&& forall|j1: int, j2: int|
            0 <= j1 < j2 < r.len() ==> lex_lt(#[trigger] pos[j1], #[trigger] pos[j2])
        &&& forall|a: int, b: int|
            0 <= a < self.chunks@.len() && 0 <= b < volume(dims) && lex_lt((a, b), (s, i)) && !null(
                #[trigger] self.chunks@[a].cells@[b],
            ) && picked(bounds, global_of(self.chunks@[a].coord@, delinear(b, dims), dims))
                ==> exists|j: int| 0 <= j < r.len() && #[trigger] pos[j] == (a, b)
    }

    proof fn lemma_listed_is_listing(
        &self,
        r: Seq<(Seq<isize>, A)>,
        pos: Seq<(int, int)>,
        bounds: Option<BoundingBox<D>>,
    )
        requires
            self.wf(),
            self.listed(r, pos, self.chunks@.len() as int, 0, bounds),
        ensures
            self.is_listing(r, bounds),
    {
        self.lemma_wf();
        let dims = self.chunk_dim@;
        let slots = super::slots::slots_of(self.slots);
        assert forall|j: int| 0 <= j < r.len() implies {
            &&& (#[trigger] r[j]).0.len() == D
            &&& picked(bounds, r[j].0)
            &&& !null(r[j].1)
            &&& self.cell(r[j].0) == r[j].1
        } by {
            let (a, b) = pos[j];
            let c = self.chunks@[a];
            assert(slots[c.coord@] == a);
            lemma_delinear(b, dims);
            lemma_global_split(c.coord@, delinear(b, dims), dims);
        }
        assert forall|c: Seq<isize>|
            c.len() == D && picked(bounds, c) && !null(#[trigger] self.cell(c)) implies exists|j: int|
            0 <= j < r.len() && (#[trigger] r[j]).0 == c by {
            let k = chunk_key(c, dims);
            let a = slots[k] as int;
            let l = local_key(c, dims);
            let b = linear(l, dims);
            lemma_split_round_trip(c, dims);
            lemma_linear_bounds(l, dims);
            lemma_linear_delinear(l, dims);
            assert(self.chunks@[a].coord@ == k);
            assert(!null(self.chunks@[a].cells@[b]));
            let j = choose|j: int| 0 <= j < r.len() && #[trigger] pos[j] == (a, b);
            assert(r[j].0 == c);
        }
        assert forall|j1: int, j2: int| 0 <= j1 < j2 < r.len() implies (#[trigger] r[j1]).0 != (
        #[trigger] r[j2]).0 by {
            let (a1, b1) = pos[j1];
            let (a2, b2) = pos[j2];
            assert(lex_lt(pos[j1], pos[j2]));
            let (c1, c2) = (self.chunks@[a1], self.chunks@[a2]);
            lemma_delinear(b1, dims);
            lemma_delinear(b2, dims);
            lemma_global_split(c1.coord@, delinear(b1, dims), dims);
            lemma_global_split(c2.coord@, delinear(b2, dims), dims);
            if r[j1].0 == r[j2].0 {
                assert(slots[c1.coord@] == a1);
                assert(slots[c2.coord@] == a2);
            }
        }
    }

    /// List the non-null cells that `bounds` picks, with their coordinates.
    /// A chunk whose extent does not overlap the box is skipped whole.
    fn listing<'a>(&'a self, bounds: Option<BoundingBox<D>>) -> (r: Vec<([isize; D], &'a A)>)
        requires
            self.wf(),
        ensures
            self.is_listing(pairs_view(r@), bounds),
    {
        proof {
            self.lemma_wf();
        }
        let ghost dims = self.chunk_dim@;
        let mut out: Vec<([isize; D], &'a A)> = Vec::new();
        let ghost mut pos: Seq<(int, int)> = Seq::empty();
        let mut s: usize = 0;
        while s < self.chunks.len()
            invariant
                self.wf(),
                dims == self.chunk_dim@,
                dims_valid(dims),
                0 <= s <= self.chunks@.len(),
                self.listed(pairs_view(out@), pos, s as int, 0, bounds),
            decreases self.chunks@.len() - s,
        {
            let chunk = &self.chunks[s];
            let origin = from_chunk_to_cell_index(&self.chunk_dim, &chunk.coord);
            let take = match bounds {
                Some(b) => {
                    let cb = chunk_bounds(&self.chunk_dim, &origin);
                    let o = b.overlaps_with(&cb);
                    proof {
                        if !o {
                            assert forall|bb: int| 0 <= bb < volume(dims) implies !picked(
                                bounds,
                                global_of(chunk.coord@, delinear(bb, dims), dims),
                            ) by {
                                lemma_delinear(bb, dims);
                                assert(cb.start@ =~= Seq::new(
                                    D as nat,
                                    |d: int| (chunk.coord@[d] * dims[d]) as isize,
                                ));
                                if picked(bounds, global_of(chunk.coord@, delinear(bb, dims), dims)) {
                                    lemma_contains_overlaps(b, cb, chunk.coord@, delinear(bb, dims), dims);
                                }
                            }
                        }
                    }
                    o
                },
                None => true,
            };
            if take {
                let n = chunk.cells.len();
                let mut i: usize = 0;
                while i < n
                    invariant
                        self.wf(),
                        dims == self.chunk_dim@,
                        dims_valid(dims),
                        0 <= s < self.chunks@.len(),
                        chunk == self.chunks@[s as int],
                        n == volume(dims),
                        0 <= i <= n,
                        forall|d: int| 0 <= d < D ==> origin@[d] == chunk.coord@[d] * dims[d],
                        self.listed(pairs_view(out@), pos, s as int, i as int, bounds),
                    decreases n - i,
                {
                    let ghost r0 = pairs_view(out@);
                    let ghost pos0 = pos;
                    let cell = &chunk.cells[i];
                    let mut pushed = false;
                    if !cell.is_null() {
                        let local = local_index(&self.chunk_dim, i);
                        let index = compute_cell_index(&self.chunk_dim, &chunk.coord, &origin, &local);
                        let keep = match bounds {
                            Some(b) => b.contains(&index),
                            None => true,
                        };
                        if keep {
                            out.push((index, cell));
                            pushed = true;
                            proof {
                                pos = pos.push((s as int, i as int));
                                assert(pairs_view(out@) =~= r0.push((index@, *cell)));
                            }
                        }
                    }
                    proof {
                        let r = pairs_view(out@);
                        let g = global_of(chunk.coord@, delinear(i as int, dims), dims);
                        assert(!pushed ==> r == r0 && pos == pos0);
                        assert(pushed ==> r.len() == r0.len() + 1 && pos[r0.len() as int] == (
                            s as int,
                            i as int,
                        ) && r[r0.len() as int] == (g, chunk.cells@[i as int]));
                        assert forall|j: int| 0 <= j < r0.len() implies r[j] == r0[j] && pos[j]
                            == pos0[j] by {}
                        assert forall|a: int, b: int|
                            0 <= a < self.chunks@.len() && 0 <= b < volume(dims) && lex_lt(
                                (a, b),
                                (s as int, i + 1),
                            ) && !null(#[trigger] self.chunks@[a].cells@[b]) && picked(
                                bounds,
                                global_of(self.chunks@[a].coord@, delinear(b, dims), dims),
                            ) implies exists|j: int| 0 <= j < r.len() && #[trigger] pos[j] == (a, b) by {
                            if a == s && b == i {
                                assert(pos[r0.len() as int] == (a, b));
                            } else {
                                let j = choose|j: int| 0 <= j < r0.len() && #[trigger] pos0[j] == (a, b);
                                assert(pos[j] == (a, b));
                            }
                        }
                        assert(self.listed(r, pos, s as int, i + 1, bounds));
                    }
                    i += 1;
                }
            }
            s += 1;
        }
        proof {
            self.lemma_listed_is_listing(pairs_view(out@), pos, bounds);
        }
        out
    }
}

impl<A: Cell, const D: usize> GridMap<A, D> {
    /// Every non-null cell with its coordinate, once each. Chunks come in no
    /// defined order; the cells of a chunk come row-major.
    pub fn indexed_iter(&self) -> (r: Vec<([isize; D], &A)>)
        requires
            self.wf(),
        ensures
            self.is_listing(pairs_view(r@), None),
    {
        self.listing(None)
    }

    /// Every non-null cell inside `bounds` with its coordinate, once each.
    /// Chunks whose extent does not overlap `bounds` are not inspected.
    pub fn bounded_iter(&self, bounds: BoundingBox<D>) -> (r: Vec<([isize; D], &A)>)
        requires
            self.wf(),
        ensures
            self.is_listing(pairs_view(r@), Some(bounds)),
    {
        self.listing(Some(bounds))
    }

    /// The value of every non-null cell, once for each cell.
    pub fn iter(&self) -> (r: Vec<&A>)
        requires
            self.wf(),
        ensures
            exists|l: Seq<(Seq<isize>, A)>|
                #![trigger self.is_listing(l, None)]
                self.is_listing(l, None) && r@.map_values(|x: &A| *x) == l.map_values(
                    |p: (Seq<isize>, A)| p.1,
                ),
    {
        let cells = self.listing(None);
        let mut out: Vec<&A> = Vec::with_capacity(cells.len());
        let mut j: usize = 0;
        while j < cells.len()
            invariant
                0 <= j <= cells@.len(),
                out@.len() == j,
                forall|k: int| 0 <= k < j ==> *out@[k] == *(#[trigger] cells@[k]).1,
            decreases cells@.len() - j,
        {
            out.push(cells[j].1);
            j += 1;
        }
        let ghost l = pairs_view(cells@);
        assert(out@.map_values(|x: &A| *x) =~= l.map_values(|p: (Seq<isize>, A)| p.1));
        out
    }
}

/// The cells that the bounded listing gives for a box are those of the
/// unbounded listing whose coordinate the box contains.
pub proof fn lemma_bounded_is_filtered<A: Cell, const D: usize>(
    grid: &GridMap<A, D>,
    bounds: BoundingBox<D>,
    all: Seq<(Seq<isize>, A)>,
    within: Seq<(Seq<isize>, A)>,
)
    requires
        grid.wf(),
        grid.is_listing(all, None),
        grid.is_listing(within, Some(bounds)),
    ensures
        within.to_set() == all.filter(|p: (Seq<isize>, A)| bounds.contains_spec(p.0)).to_set(),
{
    let f = all.filter(|p: (Seq<isize>, A)| bounds.contains_spec(p.0));
    assert forall|p: (Seq<isize>, A)| within.contains(p) implies f.contains(p) by {
        let j = choose|j: int| 0 <= j < within.len() && within[j] == p;
        assert(within[j] == p);
        assert(picked(Some(bounds), p.0));
        let k = choose|k: int| 0 <= k < all.len() && (#[trigger] all[k]).0 == p.0;
        assert(all[k] == p);
        all.lemma_filter_contains(|p: (Seq<isize>, A)| bounds.contains_spec(p.0), k);
    }
    assert forall|p: (Seq<isize>, A)| f.contains(p) implies within.contains(p) by {
        all.lemma_filter_contains_rev(|p: (Seq<isize>, A)| bounds.contains_spec(p.0), p);
        let k = choose|k: int| 0 <= k < all.len() && all[k] == p;
        assert(all[k] == p);
        assert(picked(Some(bounds), p.0));
        let j = choose|j: int| 0 <= j < within.len() && (#[trigger] within[j]).0 == p.0;
        assert(within[j] == p);
    }
    assert(within.to_set() =~= f.to_set());
}

} // verus!
