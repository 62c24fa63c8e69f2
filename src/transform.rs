//! Maps between coordinate spaces, used to copy a region of one grid into
//! another.

use vstd::prelude::*;

/// Mirror the index
pub mod mirror;

/// Rotate the index
pub mod rotate;

/// Translate the index
pub mod translate;

verus! {

/// A pure map from coordinates to coordinates.
///
/// `C` is the coordinate type, `[isize; D]` for a grid of dimension `D`.
pub trait Transform<C: View + Copy> {
    /// Where the transform sends the coordinate `index`.
    spec fn image(&self, index: C::V) -> C::V;

    /// True when the image of `index` can be computed without overflow.
    spec fn applies_to(&self, index: C::V) -> bool;

    /// Apply the transformation to an index, in place.
    fn apply(&self, index: &mut C)
        requires
            self.applies_to(old(index)@),
        ensures
            final(index)@ == self.image(old(index)@),
    ;

    /// Return the transformed index.
    fn transform(&self, index: &C) -> (r: C)
        requires
            self.applies_to(index@),
        ensures
            r@ == self.image(index@),
    {
        let mut new_index = *index;
        self.apply(&mut new_index);
        new_index
    }
}

/// The image of `index` under the transforms of `ts`, applied first to last.
pub open spec fn chain_image<C: View + Copy>(ts: Seq<&dyn Transform<C>>, index: C::V) -> C::V
    decreases ts.len(),
{
    if ts.len() == 0 {
        index
    } else {
        chain_image(ts.drop_first(), ts[0].image(index))
    }
}

/// True when every transform of `ts`, applied first to last from `index`,
/// applies to the coordinate it is handed.
pub open spec fn chain_applies<C: View + Copy>(ts: Seq<&dyn Transform<C>>, index: C::V) -> bool
    decreases ts.len(),
{
    ts.len() == 0 || (ts[0].applies_to(index) && chain_applies(ts.drop_first(), ts[0].image(index)))
}

/// Apply a sequence of transformations to an index, first to last.
impl<'t, const D: usize> Transform<[isize; D]> for &'t [&'t dyn Transform<[isize; D]>] {
    open spec fn image(&self, index: Seq<isize>) -> Seq<isize> {
        chain_image(self@, index)
    }

    open spec fn applies_to(&self, index: Seq<isize>) -> bool {
        chain_applies(self@, index)
    }

    fn apply(&self, index: &mut [isize; D]) {
        let ghost start = index@;
        let mut i: usize = 0;
        assert(self@.skip(0) =~= self@);
        while i < self.len()
            invariant
                0 <= i <= self@.len(),
                chain_applies(self@.skip(i as int), index@),
                chain_image(self@.skip(i as int), index@) == chain_image(self@, start),
            decreases self@.len() - i,
        {
            assert(self@.skip(i as int).drop_first() =~= self@.skip(i + 1));
            self[i].apply(index);
            i += 1;
        }
        assert(self@.skip(i as int).len() == 0);
    }
}

} // verus!
