//! Mirror indexes

use super::Transform;
use vstd::prelude::*;

verus! {

/// Negate the index on every axis whose flag is set.
pub struct Mirror<const D: usize>(pub [bool; D]);

/// The mirror image of `index` through the axes that `flags` selects.
pub open spec fn mirrored(index: Seq<isize>, flags: Seq<bool>) -> Seq<isize> {
    Seq::new(index.len(), |d: int| if flags[d] { (-index[d]) as isize } else { index[d] })
}

impl<const D: usize> Transform<[isize; D]> for Mirror<D> {
    open spec fn image(&self, index: Seq<isize>) -> Seq<isize> {
        mirrored(index, self.0@)
    }

    open spec fn applies_to(&self, index: Seq<isize>) -> bool {
        forall|d: int| 0 <= d < index.len() && self.0@[d] ==> #[trigger] index[d] != isize::MIN
    }

    fn apply(&self, index: &mut [isize; D]) {
        let ghost start = index@;
        let mut d: usize = 0;
        while d < D
            invariant
                0 <= d <= D,
                start.len() == D,
                self.applies_to(start),
                forall|e: int| 0 <= e < d ==> index@[e] == mirrored(start, self.0@)[e],
                forall|e: int| d <= e < D ==> index@[e] == start[e],
            decreases D - d,
        {
            if self.0[d] {
                assert(start[d as int] == index@[d as int]);
                index[d] = -index[d];
            }
            d += 1;
        }
        assert(index@ =~= mirrored(start, self.0@));
    }
}

/// Mirroring twice through the same axes gives back the original index.
pub proof fn lemma_mirror_twice<const D: usize>(m: Mirror<D>, index: Seq<isize>)
    requires
        index.len() == D,
        m.applies_to(index),
    ensures
        m.applies_to(m.image(index)),
        m.image(m.image(index)) == index,
{
    assert(m.image(m.image(index)) =~= index);
}

} // verus!
