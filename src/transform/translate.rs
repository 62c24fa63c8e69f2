//! Translate indexes

use super::Transform;
use vstd::prelude::*;

verus! {

/// Translate the index by a constant offset on each axis.
pub struct Translate<const D: usize>(pub [isize; D]);

/// The translation of `index` by `offset`.
pub open spec fn translated(index: Seq<isize>, offset: Seq<isize>) -> Seq<isize> {
    Seq::new(index.len(), |d: int| (index[d] + offset[d]) as isize)
}

impl<const D: usize> Transform<[isize; D]> for Translate<D> {
    open spec fn image(&self, index: Seq<isize>) -> Seq<isize> {
        translated(index, self.0@)
    }

    open spec fn applies_to(&self, index: Seq<isize>) -> bool {
        forall|d: int|
            0 <= d < index.len() ==> isize::MIN <= #[trigger] index[d] + self.0@[d] <= isize::MAX
    }

    fn apply(&self, index: &mut [isize; D]) {
        let ghost start = index@;
        let mut d: usize = 0;
        while d < D
            invariant
                0 <= d <= D,
                start.len() == D,
                self.applies_to(start),
                forall|e: int| 0 <= e < d ==> index@[e] == start[e] + self.0@[e],
                forall|e: int| d <= e < D ==> index@[e] == start[e],
            decreases D - d,
        {
            assert(start[d as int] == index@[d as int]);
            index[d] = index[d] + self.0[d];
            d += 1;
        }
        assert(index@ =~= translated(start, self.0@));
    }
}

} // verus!
