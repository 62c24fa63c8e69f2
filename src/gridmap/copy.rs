//! Copy of the occupied cells of one grid into another, through a sequence
//! of coordinate transforms.

use super::bounding_box::BoundingBox;
use super::iterator::{pairs_view, picked};
use super::GridMap;
use crate::cell::{null, Cell};
use crate::transform::{chain_applies, chain_image, Transform};
use vstd::prelude::*;

verus! {

/// True when `after` is `before` with the cell at the image of each listed
/// coordinate set to the value listed with it: where several listed
/// coordinates share an image, to the value of one of them.
pub open spec fn copied<A: Cell, const D: usize>(
    before: GridMap<A, D>,
    after: GridMap<A, D>,
    ts: Seq<&dyn Transform<[isize; D]>>,
    cells: Seq<(Seq<isize>, A)>,
) -> bool {
    forall|c: Seq<isize>|
        c.len() == D ==> if exists|k: int| 0 <= k < cells.len() && chain_image(ts, #[trigger] cells[k].0) == c {
            exists|k: int|
                0 <= k < cells.len() && chain_image(ts, #[trigger] cells[k].0) == c && after.cell(c)
                    == cells[k].1
        } else {
            after.cell(c) == before.cell(c)
        }
}

/// True when `after` is `before` with the cell at the image of each non-null
/// cell of `source` that `bounds` picks set to the value of that cell: where
/// several share an image, to the value of one of them.
pub open spec fn copied_from<A: Cell, const D: usize>(
    before: GridMap<A, D>,
    after: GridMap<A, D>,
    ts: Seq<&dyn Transform<[isize; D]>>,
    source: GridMap<A, D>,
    bounds: Option<BoundingBox<D>>,
) -> bool {
    forall|c: Seq<isize>|
        c.len() == D ==> if exists|s: Seq<isize>|
            #[trigger] source.occupied(s) && picked(bounds, s) && chain_image(ts, s) == c {
            exists|s: Seq<isize>|
                #[trigger] source.occupied(s) && picked(bounds, s) && chain_image(ts, s) == c
                    && after.cell(c) == source.cell(s)
        } else {
            after.cell(c) == before.cell(c)
        }
}

/// True when every non-null cell of `source` that `bounds` picks can be
/// transformed by `ts` and written into `target`.
pub open spec fn copy_fits<A: Cell, const D: usize>(
    source: GridMap<A, D>,
    target: GridMap<A, D>,
    ts: Seq<&dyn Transform<[isize; D]>>,
    bounds: Option<BoundingBox<D>>,
) -> bool {
    forall|s: Seq<isize>|
        #[trigger] source.occupied(s) && picked(bounds, s) ==> chain_applies(ts, s) && target.writable(
            chain_image(ts, s),
        )
}

impl<A: Cell + Copy, const D: usize> GridMap<A, D> {
    /// Write each listed value at the image of its coordinate.
    fn copy_listed(
        target: &mut Self,
        transforms: &[&dyn Transform<[isize; D]>],
        cells: &Vec<([isize; D], &A)>,
    )
        requires
            old(target).wf(),
            forall|k: int|
                0 <= k < cells@.len() ==> chain_applies(transforms@, #[trigger] cells@[k].0@)
                    && old(target).writable(chain_image(transforms@, cells@[k].0@)),
        ensures
            final(target).wf(),
            final(target).dim() == old(target).dim(),
            copied(*old(target), *final(target), transforms@, pairs_view(cells@)),
    {
        let ghost before = *target;
        let ghost view = pairs_view(cells@);
        let mut j: usize = 0;
        while j < cells.len()
            invariant
                target.wf(),
                target.dim() == before.dim(),
                0 <= j <= cells@.len(),
                view == pairs_view(cells@),
                forall|k: int|
                    0 <= k < cells@.len() ==> chain_applies(transforms@, #[trigger] cells@[k].0@)
                        && before.writable(chain_image(transforms@, cells@[k].0@)),
                copied(before, *target, transforms@, view.take(j as int)),
            decreases cells@.len() - j,
        {
            let ghost prev = *target;
            let index = transforms.transform(&cells[j].0);
            let cell = *cells[j].1;
            proof {
                assert(view[j as int] == (cells@[j as int].0@, cell));
            }
            target.set(&index, cell);
            proof {
                let done = view.take(j as int);
                let next = view.take(j + 1);
                assert forall|k: int| 0 <= k < j implies #[trigger] next[k] == done[k] by {}
                assert(next[j as int] == view[j as int]);
                assert forall|c: Seq<isize>| c.len() == D implies if exists|k: int|
                    0 <= k < next.len() && chain_image(transforms@, #[trigger] next[k].0) == c {
                    exists|k: int|
                        0 <= k < next.len() && chain_image(transforms@, #[trigger] next[k].0) == c
                            && target.cell(c) == next[k].1
                } else {
                    target.cell(c) == before.cell(c)
                } by {
                    if c == index@ {
                        assert(chain_image(transforms@, next[j as int].0) == c);
                    } else if exists|k: int|
                        0 <= k < done.len() && chain_image(transforms@, #[trigger] done[k].0) == c {
                        let k = choose|k: int|
                            0 <= k < done.len() && chain_image(transforms@, #[trigger] done[k].0) == c
                                && prev.cell(c) == done[k].1;
                        assert(next[k] == done[k]);
                    } else {
                        assert forall|k: int| 0 <= k < next.len() implies chain_image(
                            transforms@,
                            #[trigger] next[k].0,
                        ) != c by {
                            if k < j {
                                assert(next[k] == done[k]);
                            }
                        }
                    }
                }
            }
            j += 1;
        }
        assert(view.take(cells@.len() as int) =~= view);
    }

    /// Relate a copy of a listing to a copy of the cells it lists.
    proof fn lemma_copied_listing(
        &self,
        before: GridMap<A, D>,
        after: GridMap<A, D>,
        ts: Seq<&dyn Transform<[isize; D]>>,
        cells: Seq<(Seq<isize>, A)>,
        bounds: Option<BoundingBox<D>>,
    )
        requires
            self.is_listing(cells, bounds),
            copied(before, after, ts, cells),
        ensures
            copied_from(before, after, ts, *self, bounds),
    {
        assert forall|c: Seq<isize>| c.len() == D implies if exists|s: Seq<isize>|
            #[trigger] self.occupied(s) && picked(bounds, s) && chain_image(ts, s) == c {
            exists|s: Seq<isize>|
                #[trigger] self.occupied(s) && picked(bounds, s) && chain_image(ts, s) == c
                    && after.cell(c) == self.cell(s)
        } else {
            after.cell(c) == before.cell(c)
        } by {
            if exists|s: Seq<isize>| #[trigger] self.occupied(s) && picked(bounds, s) && chain_image(ts, s) == c {
                let s = choose|s: Seq<isize>| #[trigger] self.occupied(s) && picked(bounds, s) && chain_image(ts, s) == c;
                let k0 = choose|k: int| 0 <= k < cells.len() && (#[trigger] cells[k]).0 == s;
                assert(chain_image(ts, cells[k0].0) == c);
                let k = choose|k: int|
                    0 <= k < cells.len() && chain_image(ts, #[trigger] cells[k].0) == c && after.cell(c) == cells[k].1;
                assert(cells[k] == cells[k]);
                assert(self.occupied(cells[k].0));
            } else {
                assert forall|k: int| 0 <= k < cells.len() implies chain_image(ts, #[trigger] cells[k].0) != c by {
                    assert(cells[k] == cells[k]);
                    assert(self.occupied(cells[k].0));
                }
            }
        }
    }

    /// Copy every non-null cell of this grid into `target`, at the image of
    /// its coordinate under `transforms` (applied first to last). Cells of
    /// `target` at no such image are left as they were.
    pub fn copy_to(&self, target: &mut Self, transforms: &[&dyn Transform<[isize; D]>])
        requires
            self.wf(),
            old(target).wf(),
            copy_fits(*self, *old(target), transforms@, None),
        ensures
            final(target).wf(),
            final(target).dim() == old(target).dim(),
            copied_from(*old(target), *final(target), transforms@, *self, None),
    {
        let cells = self.indexed_iter();
        proof {
            assert forall|k: int| 0 <= k < cells@.len() implies chain_applies(transforms@, #[trigger] cells@[k].0@)
                && target.writable(chain_image(transforms@, cells@[k].0@)) by {
                assert(pairs_view(cells@)[k].0 == cells@[k].0@);
                assert(self.occupied(cells@[k].0@));
            }
        }
        let ghost before = *target;
        Self::copy_listed(target, transforms, &cells);
        proof {
            self.lemma_copied_listing(before, *target, transforms@, pairs_view(cells@), None);
        }
        // since the empty cells are ignored, we are only adding more cells
        // thus we don't need to prune the chunks afterward
    }

    /// Copy every non-null cell of this grid inside `bounding_box` into
    /// `target`, at the image of its coordinate under `transforms`.
    pub fn copy_to_within(
        &self,
        target: &mut Self,
        transforms: &[&dyn Transform<[isize; D]>],
        bounding_box: &BoundingBox<D>,
    )
        requires
            self.wf(),
            old(target).wf(),
            copy_fits(*self, *old(target), transforms@, Some(*bounding_box)),
        ensures
            final(target).wf(),
            final(target).dim() == old(target).dim(),
            copied_from(*old(target), *final(target), transforms@, *self, Some(*bounding_box)),
    {
        let cells = self.bounded_iter(*bounding_box);
        proof {
            assert forall|k: int| 0 <= k < cells@.len() implies chain_applies(transforms@, #[trigger] cells@[k].0@)
                && target.writable(chain_image(transforms@, cells@[k].0@)) by {
                assert(pairs_view(cells@)[k].0 == cells@[k].0@);
                assert(self.occupied(cells@[k].0@));
            }
        }
        let ghost before = *target;
        Self::copy_listed(target, transforms, &cells);
        proof {
            self.lemma_copied_listing(before, *target, transforms@, pairs_view(cells@), Some(*bounding_box));
        }
    }
}

} // verus!
