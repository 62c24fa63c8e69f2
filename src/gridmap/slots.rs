//! Lookup of a chunk's place among the resident chunks, by chunk coordinate,
//! through a hash map of the hashbrown crate.

use vstd::prelude::*;

verus! {

/// The hash map from chunk coordinate to the position of that chunk in the
/// grid's list of resident chunks.
#[verifier::external_body]
pub struct SlotIndex {
    map: hashbrown::HashMap<Vec<isize>, usize>,
}

/// What a `SlotIndex` holds: chunk coordinate to position.
pub uninterp spec fn slots_of(m: SlotIndex) -> Map<Seq<isize>, usize>;

impl SlotIndex {
    /// Relies on hashbrown::HashMap::new: the map starts empty.
    #[verifier::external_body]
    pub(crate) fn new() -> (r: SlotIndex)
        ensures
            slots_of(r).dom() == Set::<Seq<isize>>::empty(),
    {
        SlotIndex { map: hashbrown::HashMap::new() }
    }

    /// Relies on hashbrown::HashMap::with_capacity: the map starts empty.
    /// It panics when the table for `capacity` entries cannot be sized in
    /// an `isize` of bytes; the bound below keeps well inside that.
    #[verifier::external_body]
    pub(crate) fn with_capacity(capacity: usize) -> (r: SlotIndex)
        requires
            capacity <= isize::MAX as int / 256,
        ensures
            slots_of(r).dom() == Set::<Seq<isize>>::empty(),
    {
        SlotIndex { map: hashbrown::HashMap::with_capacity(capacity) }
    }

    /// Relies on hashbrown::HashMap::get: the value stored under the key, if
    /// any (a `Vec<isize>` key is found by the slice it borrows as).
    #[verifier::external_body]
    pub(crate) fn get<const D: usize>(&self, key: &[isize; D]) -> (r: Option<usize>)
        ensures
            match r {
                Some(v) => slots_of(*self).contains_key(key@) && slots_of(*self)[key@] == v,
                None => !slots_of(*self).contains_key(key@),
            },
    {
        self.map.get(&key[..]).copied()
    }

    /// Relies on hashbrown::HashMap::insert: the key maps to the value
    /// afterwards, every other key is untouched.
    #[verifier::external_body]
    pub(crate) fn insert<const D: usize>(&mut self, key: &[isize; D], value: usize)
        ensures
            slots_of(*final(self)) == slots_of(*old(self)).insert(key@, value),
    {
        self.map.insert(key.to_vec(), value);
    }

    /// Relies on hashbrown::HashMap::remove: the key is absent afterwards,
    /// every other key is untouched.
    #[verifier::external_body]
    pub(crate) fn remove<const D: usize>(&mut self, key: &[isize; D])
        ensures
            slots_of(*final(self)) == slots_of(*old(self)).remove(key@),
    {
        self.map.remove(&key[..]);
    }
}

} // verus!
