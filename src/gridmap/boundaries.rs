//! Compute the boundaries of the gridmap

use super::all_null;
use super::bounding_box::BoundingBox;
use super::indexing::{
    chunk_key, delinear, dims_valid, global_of, lemma_delinear, lemma_global_split,
    lemma_linear_bounds, lemma_linear_delinear, lemma_split_round_trip, linear, local_index,
    local_key, volume,
};
use super::GridMap;
use crate::cell::{null, Cell};
use vstd::arithmetic::mul::lemma_mul_inequality;
use vstd::prelude::*;

verus! {

/// `x` lies at or beyond `y`: towards -inf when `low`, towards +inf otherwise.
pub open spec fn beyond(low: bool, x: int, y: int) -> bool {
    if low {
        x <= y
    } else {
        y <= x
    }
}

/// The value a search for an extreme starts from: `isize::MAX` when looking
/// for the lowest coordinate, `isize::MIN` when looking for the highest.
pub open spec fn extreme_start(low: bool) -> isize {
    if low {
        isize::MAX
    } else {
        isize::MIN
    }
}

impl<A: Cell, const D: usize> GridMap<A, D> {
    /// The cell at `index` is non-null.
    pub open spec fn occupied(&self, index: Seq<isize>) -> bool {
        index.len() == D && !null(self.cell(index))
    }

    /// Some non-null cell has the coordinate `x` on axis `d`.
    pub open spec fn attains(&self, d: int, x: isize) -> bool {
        exists|c: Seq<isize>| #[trigger] self.occupied(c) && c[d] == x
    }

    /// No resident chunk holds only null cells.
    pub open spec fn pruned(&self) -> bool {
        forall|k: Seq<isize>| #[trigger]
            self.resident().contains_key(k) ==> !all_null(self.resident()[k])
    }

    /// Coordinate on axis `d` of the cell at position `b` of the chunk at
    /// position `a` of the walk.
    closed spec fn gc(&self, a: int, b: int, d: int) -> int {
        self.chunks@[a].coord@[d] * self.chunk_dim@[d] + delinear(b, self.chunk_dim@)[d]
    }

    /// The cell at position `b` of the chunk at position `a` is non-null.
    closed spec fn nonnull_at(&self, a: int, b: int) -> bool {
        0 <= b < volume(self.chunk_dim@) && !null(self.chunks@[a].cells@[b])
    }

    proof fn lemma_position_occupied(&self, a: int, b: int)
        requires
            self.wf(),
            0 <= a < self.chunks@.len(),
            self.nonnull_at(a, b),
        ensures
            ({
                let g = global_of(self.chunks@[a].coord@, delinear(b, self.chunk_dim@), self.chunk_dim@);
                &&& self.occupied(g)
                &&& forall|d: int| 0 <= d < D ==> #[trigger] g[d] == self.gc(a, b, d)
            }),
    {
        self.lemma_wf();
        let dims = self.chunk_dim@;
        let c = self.chunks@[a];
        assert(super::slots::slots_of(self.slots)[c.coord@] == a);
        lemma_delinear(b, dims);
        lemma_global_split(c.coord@, delinear(b, dims), dims);
    }

    proof fn lemma_occupied_position(&self, c: Seq<isize>) -> (ab: (int, int))
        requires
            self.wf(),
            self.occupied(c),
        ensures
            0 <= ab.0 < self.chunks@.len(),
            self.nonnull_at(ab.0, ab.1),
            forall|d: int| 0 <= d < D ==> #[trigger] c[d] == self.gc(ab.0, ab.1, d),
    {
        self.lemma_wf();
        let dims = self.chunk_dim@;
        let k = chunk_key(c, dims);
        let a = super::slots::slots_of(self.slots)[k] as int;
        let l = local_key(c, dims);
        let b = linear(l, dims);
        lemma_split_round_trip(c, dims);
        lemma_linear_bounds(l, dims);
        lemma_linear_delinear(l, dims);
        assert(self.chunks@[a].coord@ == k);
        (a, b)
    }

    /// The lowest (or highest) coordinate on axis `d` among the resident
    /// chunks.
    fn chunk_extreme(&self, d: usize, low: bool) -> (r: isize)
        requires
            self.wf(),
            d < D,
        ensures
            forall|a: int|
                0 <= a < self.chunks@.len() ==> beyond(low, r as int, #[trigger] self.chunks@[a].coord@[d as int] as int),
            self.chunks@.len() == 0 ==> r == extreme_start(low),
            self.chunks@.len() > 0 ==> exists|a: int|
                0 <= a < self.chunks@.len() && #[trigger] self.chunks@[a].coord@[d as int] == r,
    {
        let mut p = if low {
            isize::MAX
        } else {
            isize::MIN
        };
        let mut s: usize = 0;
        while s < self.chunks.len()
            invariant
                0 <= s <= self.chunks@.len(),
                d < D,
                forall|a: int| 0 <= a < s ==> beyond(low, p as int, #[trigger] self.chunks@[a].coord@[d as int] as int),
                s == 0 ==> p == extreme_start(low),
                s > 0 ==> exists|a: int| 0 <= a < s && #[trigger] self.chunks@[a].coord@[d as int] == p,
            decreases self.chunks@.len() - s,
        {
            let c = self.chunks[s].coord[d];
            if (low && c < p) || (!low && c > p) || s == 0 {
                p = c;
            }
            s += 1;
        }
        p
    }

    /// Fold into `init` the lowest (or highest) coordinate on axis `d` of the
    /// non-null cells of the chunk at position `s`.
    fn cell_extreme(&self, s: usize, d: usize, low: bool, init: isize) -> (r: isize)
        requires
            self.wf(),
            s < self.chunks@.len(),
            d < D,
        ensures
            beyond(low, r as int, init as int),
            r == init || exists|b: int| self.nonnull_at(s as int, b) && self.gc(s as int, b, d as int) == r,
            forall|b: int| #[trigger] self.nonnull_at(s as int, b) ==> beyond(low, r as int, self.gc(s as int, b, d as int)),
    {
        proof {
            self.lemma_wf();
        }
        let ghost dims = self.chunk_dim@;
        let chunk = &self.chunks[s];
        proof {
            assert(0 < dims[d as int] <= isize::MAX);
            assert(isize::MIN <= chunk.coord@[d as int] * dims[d as int]);
            assert(chunk.coord@[d as int] * dims[d as int] + dims[d as int] <= isize::MAX);
        }
        let base = chunk.coord[d] * self.chunk_dim[d] as isize;
        let n = chunk.cells.len();
        let mut p = init;
        let mut i: usize = 0;
        while i < n
            invariant
                self.wf(),
                dims == self.chunk_dim@,
                dims_valid(dims),
                s < self.chunks@.len(),
                chunk == self.chunks@[s as int],
                d < D,
                n == volume(dims),
                0 <= i <= n,
                base == chunk.coord@[d as int] * dims[d as int],
                base + dims[d as int] <= isize::MAX,
                beyond(low, p as int, init as int),
                p == init || exists|b: int| self.nonnull_at(s as int, b) && self.gc(s as int, b, d as int) == p,
                forall|b: int|
                    0 <= b < i && #[trigger] self.nonnull_at(s as int, b) ==> beyond(low, p as int, self.gc(s as int, b, d as int)),
            decreases n - i,
        {
            if !chunk.cells[i].is_null() {
                let local = local_index(&self.chunk_dim, i);
                proof {
                    assert(local@[d as int] < dims[d as int]);
                }
                let g = local[d] as isize + base;
                assert(g == self.gc(s as int, i as int, d as int));
                if (low && g < p) || (!low && g > p) {
                    p = g;
                    assert(self.nonnull_at(s as int, i as int));
                }
            }
            i += 1;
        }
        p
    }

    /// The lowest (or highest) coordinate on axis `d` of the non-null cells:
    /// only the chunks at the extreme chunk coordinate are scanned.
    fn axis_extreme(&self, d: usize, low: bool) -> (r: isize)
        requires
            self.wf(),
            self.pruned(),
            d < D,
        ensures
            forall|c: Seq<isize>| #[trigger] self.occupied(c) ==> beyond(low, r as int, c[d as int] as int),
            (exists|c: Seq<isize>| #[trigger] self.occupied(c)) ==> self.attains(d as int, r),
            !(exists|c: Seq<isize>| #[trigger] self.occupied(c)) ==> r == extreme_start(low),
    {
        proof {
            self.lemma_wf();
        }
        let ghost dims = self.chunk_dim@;
        let c0 = self.chunk_extreme(d, low);
        let mut p = if low {
            isize::MAX
        } else {
            isize::MIN
        };
        let mut s: usize = 0;
        while s < self.chunks.len()
            invariant
                self.wf(),
                d < D,
                0 <= s <= self.chunks@.len(),
                p == extreme_start(low) || exists|a: int, b: int|
                    0 <= a < s && self.chunks@[a].coord@[d as int] == c0 && self.nonnull_at(a, b) && self.gc(a, b, d as int) == p,
                forall|a: int, b: int|
                    0 <= a < s && self.chunks@[a].coord@[d as int] == c0 && #[trigger] self.nonnull_at(a, b)
                        ==> beyond(low, p as int, self.gc(a, b, d as int)),
            decreases self.chunks@.len() - s,
        {
            if self.chunks[s].coord[d] == c0 {
                p = self.cell_extreme(s, d, low, p);
            }
            s += 1;
        }
        proof {
            if self.chunks@.len() > 0 {
                let a0 = choose|a: int| 0 <= a < self.chunks@.len() && #[trigger] self.chunks@[a].coord@[d as int] == c0;
                let k0 = self.chunks@[a0].coord@;
                assert(super::slots::slots_of(self.slots)[k0] == a0);
                assert(self.resident().contains_key(k0));
                assert(!all_null(self.resident()[k0]));
                let b0 = choose|b: int| 0 <= b < self.chunks@[a0].cells@.len() && !null(#[trigger] self.chunks@[a0].cells@[b]);
                assert(self.nonnull_at(a0, b0));
                let n = dims[d as int] as int;
                assert(0 < n);
                lemma_delinear(b0, dims);
                assert(delinear(b0, dims)[d as int] < n);
                assert forall|c: Seq<isize>| #[trigger] self.occupied(c) implies beyond(low, p as int, c[d as int] as int) by {
                    let (a, b) = self.lemma_occupied_position(c);
                    lemma_delinear(b, dims);
                    assert(delinear(b, dims)[d as int] < n);
                    let k = self.chunks@[a].coord@[d as int] as int;
                    assert(self.nonnull_at(a, b));
                    assert(c[d as int] == k * n + delinear(b, dims)[d as int]);
                    assert(beyond(low, p as int, self.gc(a0, b0, d as int)));
                    assert(self.gc(a0, b0, d as int) == c0 * n + delinear(b0, dims)[d as int]);
                    if k == c0 {
                        assert(beyond(low, p as int, self.gc(a, b, d as int)));
                    } else {
                        assert(beyond(low, c0 as int, k));
                        if low {
                            lemma_mul_inequality(c0 + 1, k, n);
                            assert((c0 + 1) * n == c0 * n + n) by (nonlinear_arith);
                        } else {
                            lemma_mul_inequality(k + 1, c0 as int, n);
                            assert((k + 1) * n == k * n + n) by (nonlinear_arith);
                        }
                    }
                }
                let (a, b) = if p == extreme_start(low) && !(exists|a: int, b: int|
                    0 <= a < s && self.chunks@[a].coord@[d as int] == c0 && self.nonnull_at(a, b) && self.gc(a, b, d as int) == p) {
                    (a0, b0)
                } else {
                    choose|a: int, b: int|
                        0 <= a < s && self.chunks@[a].coord@[d as int] == c0 && self.nonnull_at(a, b) && self.gc(a, b, d as int) == p
                };
                self.lemma_position_occupied(a, b);
                let g = global_of(self.chunks@[a].coord@, delinear(b, dims), dims);
                assert(self.occupied(g) && g[d as int] == p);
            } else {
                assert forall|c: Seq<isize>| !#[trigger] self.occupied(c) by {
                    if self.occupied(c) {
                        let (a, b) = self.lemma_occupied_position(c);
                    }
                }
            }
        }
        p
    }

    /// The extent of the non-null cells: on each axis, `start` is the lowest
    /// coordinate of a non-null cell and `end` the highest (inclusive). With
    /// no non-null cell, `start` is `isize::MAX` and `end` is `isize::MIN`.
    /// No resident chunk may hold only null cells (see `prune`).
    pub fn boundaries(&self) -> (r: BoundingBox<D>)
        requires
            self.wf(),
            self.pruned(),
        ensures
            forall|d: int, c: Seq<isize>|
                0 <= d < D && #[trigger] self.occupied(c) ==> r.start@[d] <= #[trigger] c[d] <= r.end@[d],
            (exists|c: Seq<isize>| #[trigger] self.occupied(c)) ==> forall|d: int|
                0 <= d < D ==> #[trigger] self.attains(d, r.start@[d]) && self.attains(d, r.end@[d]),
            !(exists|c: Seq<isize>| #[trigger] self.occupied(c)) ==> forall|d: int|
                0 <= d < D ==> r.start@[d] == isize::MAX && r.end@[d] == isize::MIN,
    {
        let mut start = [isize::MAX; D];
        let mut end = [isize::MIN; D];
        let mut d: usize = 0;
        while d < D
            invariant
                self.wf(),
                self.pruned(),
                0 <= d <= D,
                forall|e: int, c: Seq<isize>|
                    0 <= e < d && #[trigger] self.occupied(c) ==> start@[e] <= #[trigger] c[e] <= end@[e],
                (exists|c: Seq<isize>| #[trigger] self.occupied(c)) ==> forall|e: int|
                    0 <= e < d ==> #[trigger] self.attains(e, start@[e]) && self.attains(e, end@[e]),
                !(exists|c: Seq<isize>| #[trigger] self.occupied(c)) ==> forall|e: int|
                    0 <= e < d ==> start@[e] == isize::MAX && end@[e] == isize::MIN,
            decreases D - d,
        {
            start[d] = self.axis_extreme(d, true);
            end[d] = self.axis_extreme(d, false);
            d += 1;
        }
        BoundingBox { start, end }
    }
}

} // verus!
