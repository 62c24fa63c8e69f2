//! Bounding box module

use vstd::prelude::*;

verus! {

/// An axis-aligned box, half-open when used for queries: `[start, end)` on
/// each axis.
#[derive(PartialEq, Eq, Clone, Copy, Debug)]
pub struct BoundingBox<const D: usize> {
    /// starting point of the box
    pub start: [isize; D],
    /// ending point of the box
    pub end: [isize; D],
}

/// True when `start[d] <= index[d] < end[d]` on every axis.
pub open spec fn box_contains(start: Seq<isize>, end: Seq<isize>, index: Seq<isize>) -> bool {
    forall|d: int| 0 <= d < index.len() ==> start[d] <= #[trigger] index[d] < end[d]
}

/// True when the closed intervals of the two boxes meet on every axis.
pub open spec fn boxes_overlap(
    start: Seq<isize>,
    end: Seq<isize>,
    other_start: Seq<isize>,
    other_end: Seq<isize>,
) -> bool {
    forall|d: int|
        0 <= d < start.len() ==> #[trigger] start[d] <= other_end[d] && other_start[d] <= end[d]
}

impl<const D: usize> BoundingBox<D> {
    /// The box contains `index`.
    pub open spec fn contains_spec(&self, index: Seq<isize>) -> bool {
        box_contains(self.start@, self.end@, index)
    }

    /// The box overlaps `other`.
    pub open spec fn overlaps_spec(&self, other: &Self) -> bool {
        boxes_overlap(self.start@, self.end@, other.start@, other.end@)
    }

    /// The box that spans the whole representable range on every axis.
    pub fn full() -> (r: Self)
        ensures
            forall|d: int| 0 <= d < D ==> r.start[d] == isize::MIN && r.end[d] == isize::MAX,
    {
        BoundingBox { start: [isize::MIN; D], end: [isize::MAX; D] }
    }

    /// Check if the index is inside the specified boundaries
    pub fn contains(&self, index: &[isize; D]) -> (r: bool)
        ensures
            r == self.contains_spec(index@),
    {
        let mut d: usize = 0;
        while d < D
            invariant
                0 <= d <= D,
                forall|e: int| 0 <= e < d ==> self.start@[e] <= #[trigger] index@[e] < self.end@[e],
            decreases D - d,
        {
            let i = index[d];
            if !(self.start[d] <= i && i < self.end[d]) {
                return false;
            }
            d += 1;
        }
        true
    }

    /// Check if the two bounding boxes overlap
    pub fn overlaps_with(&self, other: &Self) -> (r: bool)
        ensures
            r == self.overlaps_spec(other),
    {
        let mut d: usize = 0;
        while d < D
            invariant
                0 <= d <= D,
                forall|e: int|
                    0 <= e < d ==> #[trigger] self.start@[e] <= other.end@[e] && other.start@[e]
                        <= self.end@[e],
            decreases D - d,
        {
            if !(self.start[d] <= other.end[d] && other.start[d] <= self.end[d]) {
                return false;
            }
            d += 1;
        }
        true
    }
}

/// The default box spans the whole representable range on every axis.
impl<const D: usize> Default for BoundingBox<D> {
    fn default() -> (r: Self)
        ensures
            forall|d: int| 0 <= d < D ==> r.start[d] == isize::MIN && r.end[d] == isize::MAX,
    {
        Self::full()
    }
}

/// Overlap is symmetric: `a` overlaps `b` exactly when `b` overlaps `a`.
pub proof fn lemma_overlap_symmetric<const D: usize>(a: BoundingBox<D>, b: BoundingBox<D>)
    ensures
        a.overlaps_spec(&b) == b.overlaps_spec(&a),
{
    if a.overlaps_spec(&b) {
        assert forall|d: int| 0 <= d < D implies #[trigger] b.start@[d] <= a.end@[d]
            && a.start@[d] <= b.end@[d] by {
            assert(a.start@[d] <= b.end@[d]);
        }
    }
    if b.overlaps_spec(&a) {
        assert forall|d: int| 0 <= d < D implies #[trigger] a.start@[d] <= b.end@[d]
            && b.start@[d] <= a.end@[d] by {
            assert(b.start@[d] <= a.end@[d]);
        }
    }
}

} // verus!
