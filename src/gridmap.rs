//! GridMap of cells

use crate::cell::{null, Cell};
use indexing::{
    cell_in, chunk_fits, chunk_key, dims_valid, in_chunk, linear,
    volume, volume_of,
};
use slots::{slots_of, SlotIndex};
use vstd::prelude::*;

/// Basic operations available on the GridMap
pub mod base;

/// Bounding box
pub mod bounding_box;

/// Copy between grids
pub mod copy;

/// Extent of the occupied cells
pub mod boundaries;

/// Addressing of cells and chunks
pub mod indexing;

/// Listings of the occupied cells
pub mod iterator;

/// Lookup of resident chunks by coordinate
mod slots;

verus! {

/// True when every cell of `cells` is null.
pub open spec fn all_null<A: Cell>(cells: Seq<A>) -> bool {
    forall|i: int| 0 <= i < cells.len() ==> null(#[trigger] cells[i])
}

/// A dense chunk of cells, stored in row-major order.
pub struct Chunk<A, const D: usize> {
    /// Coordinate of the chunk in chunk space
    coord: [isize; D],
    /// Size of the chunk on each axis
    dim: [usize; D],
    /// The cells, row-major
    cells: Vec<A>,
}

impl<A, const D: usize> View for Chunk<A, D> {
    type V = Seq<A>;

    /// The cells of the chunk, row-major.
    closed spec fn view(&self) -> Seq<A> {
        self.cells@
    }
}

impl<A: Cell, const D: usize> Chunk<A, D> {
    /// Coordinate of the chunk in chunk space.
    pub closed spec fn key(&self) -> Seq<isize> {
        self.coord@
    }

    /// Size of the chunk on each axis.
    pub closed spec fn shape(&self) -> Seq<usize> {
        self.dim@
    }

    /// The chunk holds one cell for each place of its shape.
    pub closed spec fn wf(&self) -> bool {
        dims_valid(self.dim@) && self.cells@.len() == volume(self.dim@)
    }

    /// Build a chunk of null cells.
    fn new_null(coord: [isize; D], dim: [usize; D]) -> (r: Self)
        requires
            dims_valid(dim@),
        ensures
            r.wf(),
            r.key() == coord@,
            r.shape() == dim@,
            r@ == Seq::new(volume(dim@) as nat, |i: int| A::null_spec()),
    {
        let n = volume_of(&dim);
        let mut cells: Vec<A> = Vec::with_capacity(n);
        let mut i: usize = 0;
        while i < n
            invariant
                0 <= i <= n,
                cells@ == Seq::new(i as nat, |j: int| A::null_spec()),
            decreases n - i,
        {
            cells.push(A::null());
            i += 1;
            assert(cells@ =~= Seq::new(i as nat, |j: int| A::null_spec()));
        }
        Chunk { coord, dim, cells }
    }

    /// Coordinate of the chunk in chunk space.
    pub fn coord(&self) -> (r: [isize; D])
        ensures
            r@ == self.key(),
    {
        self.coord
    }

    /// Size of the chunk on each axis.
    pub fn dim(&self) -> (r: [usize; D])
        ensures
            r@ == self.shape(),
    {
        self.dim
    }

    /// The cells of the chunk, row-major.
    pub fn cells(&self) -> (r: &[A])
        ensures
            r@ == self@,
    {
        self.cells.as_slice()
    }

    /// The cell at the place `local` of the chunk.
    pub fn get(&self, local: &[usize; D]) -> (r: &A)
        requires
            self.wf(),
            in_chunk(local@, self.shape()),
        ensures
            *r == self@[linear(local@, self.shape())],
    {
        let i = indexing::linear_index(&self.dim, local);
        &self.cells[i]
    }

    /// Mutable access to the cell at the place `local` of the chunk.
    pub fn get_mut(&mut self, local: &[usize; D]) -> (r: &mut A)
        requires
            old(self).wf(),
            in_chunk(local@, old(self).shape()),
        ensures
            *r == old(self)@[linear(local@, old(self).shape())],
            final(self).key() == old(self).key(),
            final(self).shape() == old(self).shape(),
            final(self).wf(),
            final(self)@ == old(self)@.update(linear(local@, old(self).shape()), *final(r)),
    {
        let i = indexing::linear_index(&self.dim, local);
        &mut self.cells[i]
    }

    /// Return true if the chunk contains only null cells
    pub fn is_chunk_empty(&self) -> (r: bool)
        ensures
            r == all_null(self@),
    {
        let mut i: usize = 0;
        while i < self.cells.len()
            invariant
                0 <= i <= self.cells@.len(),
                forall|j: int| 0 <= j < i ==> null(#[trigger] self.cells@[j]),
            decreases self.cells@.len() - i,
        {
            if !self.cells[i].is_null() {
                return false;
            }
            i += 1;
        }
        true
    }
}

/// GridMap of cells
pub struct GridMap<A: Cell, const D: usize> {
    /// Dimensions of the chunks in the gridmap
    chunk_dim: [usize; D],
    /// Position of each resident chunk in `chunks`, by chunk coordinate
    slots: SlotIndex,
    /// The resident chunks
    chunks: Vec<Chunk<A, D>>,
    /// Empty cell for out-of-bound access
    empty: A,
}

impl<A: Cell, const D: usize> GridMap<A, D> {
    /// Size of the chunks on each axis.
    pub closed spec fn dim(&self) -> Seq<usize> {
        self.chunk_dim@
    }

    /// The resident chunks: chunk coordinate to its cells, row-major.
    pub closed spec fn resident(&self) -> Map<Seq<isize>, Seq<A>> {
        Map::new(
            |k: Seq<isize>| slots_of(self.slots).contains_key(k),
            |k: Seq<isize>| self.chunks@[slots_of(self.slots)[k] as int]@,
        )
    }

    /// The coordinates of the resident chunks, in the order in which the
    /// grid walks them.
    pub closed spec fn order(&self) -> Seq<Seq<isize>> {
        self.chunks@.map_values(|c: Chunk<A, D>| c.coord@)
    }

    /// Internal consistency of the grid.
    pub closed spec fn wf(&self) -> bool {
        let slots = slots_of(self.slots);
        &&& dims_valid(self.chunk_dim@)
        &&& self.empty == A::null_spec()
        &&& forall|k: Seq<isize>| #[trigger]
            slots.contains_key(k) ==> slots[k] < self.chunks@.len() && self.chunks@[slots[k] as int].coord@ == k
        &&& forall|i: int|
            0 <= i < self.chunks@.len() ==> {
                let c = #[trigger] self.chunks@[i];
                &&& slots.contains_key(c.coord@)
                &&& slots[c.coord@] == i
                &&& c.dim@ == self.chunk_dim@
                &&& c.cells@.len() == volume(self.chunk_dim@)
                &&& chunk_fits(c.coord@, self.chunk_dim@)
            }
    }

    /// The value of the cell at the global coordinate `index`: the null value
    /// where no chunk holds it.
    pub open spec fn cell(&self, index: Seq<isize>) -> A {
        cell_in(self.resident(), self.dim(), index)
    }

    /// True when the chunk that holds `index` can be made resident: its cells
    /// have coordinates that an `isize` holds.
    pub open spec fn writable(&self, index: Seq<isize>) -> bool {
        chunk_fits(chunk_key(index, self.dim()), self.dim())
    }

    /// What a well-formed grid guarantees of its model.
    pub proof fn lemma_wf(&self)
        requires
            self.wf(),
        ensures
            dims_valid(self.dim()),
            self.dim().len() == D,
            forall|k: Seq<isize>| #[trigger]
                self.resident().contains_key(k) ==> self.resident()[k].len() == volume(self.dim())
                    && chunk_fits(k, self.dim()),
            self.order().no_duplicates(),
            self.order().len() == self.resident().dom().len(),
            forall|k: Seq<isize>| self.order().contains(k) <==> #[trigger] self.resident().contains_key(k),
    {
        let slots = slots_of(self.slots);
        assert forall|k: Seq<isize>| self.order().contains(k) <==> #[trigger] self.resident().contains_key(k) by {
            if slots.contains_key(k) {
                assert(self.order()[slots[k] as int] == k);
            }
            if self.order().contains(k) {
                let i = choose|i: int| 0 <= i < self.order().len() && self.order()[i] == k;
                assert(self.chunks@[i].coord@ == k);
            }
        }
        assert forall|i: int, j: int|
            0 <= i < self.order().len() && 0 <= j < self.order().len() && i != j implies
            self.order()[i] != self.order()[j] by {
            let (ci, cj) = (self.chunks@[i], self.chunks@[j]);
            assert(slots[ci.coord@] == i && slots[cj.coord@] == j);
        }
        self.order().unique_seq_to_set();
        assert(self.order().to_set() =~= self.resident().dom());
    }

    /// Create a new empty GridMap
    pub fn new(chunk_dim: [usize; D]) -> (r: Self)
        requires
            dims_valid(chunk_dim@),
        ensures
            r.wf(),
            r.dim() == chunk_dim@,
            r.resident().dom() == Set::<Seq<isize>>::empty(),
            forall|c: Seq<isize>| #[trigger] r.cell(c) == A::null_spec(),
    {
        let r = GridMap { chunk_dim, slots: SlotIndex::new(), chunks: Vec::new(), empty: A::null() };
        assert(r.resident() =~= Map::<Seq<isize>, Seq<A>>::empty());
        r
    }

    /// Create a new GridMap with room for `capacity` chunks. The capacity is
    /// bounded so that the lookup table can be sized.
    pub fn with_capacity(chunk_dim: [usize; D], capacity: usize) -> (r: Self)
        requires
            dims_valid(chunk_dim@),
            capacity <= isize::MAX as int / 256,
        ensures
            r.wf(),
            r.dim() == chunk_dim@,
            r.resident().dom() == Set::<Seq<isize>>::empty(),
            forall|c: Seq<isize>| #[trigger] r.cell(c) == A::null_spec(),
    {
        let r = GridMap {
            chunk_dim,
            slots: SlotIndex::with_capacity(capacity),
            chunks: Vec::with_capacity(capacity),
            empty: A::null(),
        };
        assert(r.resident() =~= Map::<Seq<isize>, Seq<A>>::empty());
        r
    }

    /// Size of the chunks on each axis.
    pub fn chunk_dim(&self) -> (r: [usize; D])
        ensures
            r@ == self.dim(),
    {
        self.chunk_dim
    }
}

/// Create a new empty GridMap with chunks of 12 cells on each axis. It is
/// well formed when such a chunk's cell count fits in a `usize`.
impl<A: Cell, const D: usize> Default for GridMap<A, D> {
    fn default() -> (r: Self)
        ensures
            r.dim() == Seq::new(D as nat, |d: int| 12usize),
            dims_valid(r.dim()) ==> r.wf(),
            r.resident().dom() == Set::<Seq<isize>>::empty(),
    {
        let r = GridMap { chunk_dim: [12usize; D], slots: SlotIndex::new(), chunks: Vec::new(), empty: A::null() };
        assert(r.dim() =~= Seq::new(D as nat, |d: int| 12usize));
        assert(r.resident() =~= Map::<Seq<isize>, Seq<A>>::empty());
        r
    }
}

} // verus!
