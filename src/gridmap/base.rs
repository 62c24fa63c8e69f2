//! Basic operations available on the GridMap

use super::indexing::{
    cell_in, chunk_fits, chunk_key, dims_valid, in_chunk, lemma_linear_bounds,
    lemma_split_injective, lemma_split_round_trip, linear, linear_index, local_key, volume,
};
use super::{all_null, Chunk, GridMap};
use crate::cell::{null, Cell};
use vstd::prelude::*;

verus! {

/// The resident chunks after the cell at position `pos` of chunk `key` is
/// set to `cell`: a chunk that ends up all null is evicted, and a non-null
/// write into an absent chunk allocates it, null everywhere else.
pub open spec fn written<A: Cell>(
    chunks: Map<Seq<isize>, Seq<A>>,
    key: Seq<isize>,
    pos: int,
    cell: A,
    vol: int,
) -> Map<Seq<isize>, Seq<A>> {
    if null(cell) {
        if !chunks.contains_key(key) {
            chunks
        } else if all_null(chunks[key].update(pos, cell)) {
            chunks.remove(key)
        } else {
            chunks.insert(key, chunks[key].update(pos, cell))
        }
    } else {
        let base = if chunks.contains_key(key) {
            chunks[key]
        } else {
            Seq::new(vol as nat, |i: int| A::null_spec())
        };
        chunks.insert(key, base.update(pos, cell))
    }
}

/// The resident chunks that hold at least one non-null cell.
pub open spec fn occupied_chunks<A: Cell>(chunks: Map<Seq<isize>, Seq<A>>) -> Map<
    Seq<isize>,
    Seq<A>,
> {
    chunks.restrict(chunks.dom().filter(|k: Seq<isize>| !all_null(chunks[k])))
}

/// Pruning twice removes nothing that the first pruning left.
pub proof fn lemma_prune_idempotent<A: Cell>(chunks: Map<Seq<isize>, Seq<A>>)
    ensures
        occupied_chunks(occupied_chunks(chunks)) == occupied_chunks(chunks),
{
    assert(occupied_chunks(occupied_chunks(chunks)) =~= occupied_chunks(chunks));
}

/// Clearing the only non-null cell of a resident chunk evicts that chunk.
pub proof fn lemma_clearing_last_cell_evicts<A: Cell>(
    chunks: Map<Seq<isize>, Seq<A>>,
    key: Seq<isize>,
    pos: int,
    vol: int,
)
    requires
        chunks.contains_key(key),
        0 <= pos < chunks[key].len(),
        forall|i: int| 0 <= i < chunks[key].len() && i != pos ==> null(#[trigger] chunks[key][i]),
    ensures
        !written(chunks, key, pos, A::null_spec(), vol).contains_key(key),
        written(chunks, key, pos, A::null_spec(), vol) == chunks.remove(key),
{
    let u = chunks[key].update(pos, A::null_spec());
    assert(all_null(u));
}

/// Writing a cell changes that cell and no other.
pub proof fn lemma_written_cell<A: Cell>(
    chunks: Map<Seq<isize>, Seq<A>>,
    dims: Seq<usize>,
    index: Seq<isize>,
    cell: A,
)
    requires
        dims_valid(dims),
        index.len() == dims.len(),
        forall|k: Seq<isize>| #[trigger] chunks.contains_key(k) ==> chunks[k].len() == volume(dims),
    ensures
        forall|c: Seq<isize>|
            c.len() == dims.len() ==> #[trigger] cell_in(
                written(
                    chunks,
                    chunk_key(index, dims),
                    linear(local_key(index, dims), dims),
                    cell,
                    volume(dims),
                ),
                dims,
                c,
            ) == if c == index {
                cell
            } else {
                cell_in(chunks, dims, c)
            },
{
    let key = chunk_key(index, dims);
    let pos = linear(local_key(index, dims), dims);
    let after = written(chunks, key, pos, cell, volume(dims));
    assert forall|c: Seq<isize>| c.len() == dims.len() implies #[trigger] cell_in(after, dims, c) == if c
        == index {
        cell
    } else {
        cell_in(chunks, dims, c)
    } by {
        lemma_split_round_trip(c, dims);
        lemma_split_round_trip(index, dims);
        lemma_linear_bounds(local_key(c, dims), dims);
        lemma_linear_bounds(local_key(index, dims), dims);
        let ck = chunk_key(c, dims);
        let cp = linear(local_key(c, dims), dims);
        if c != index && ck == key {
            if cp == pos {
                lemma_split_injective(c, index, dims);
            }
            if null(cell) && chunks.contains_key(key) && all_null(chunks[key].update(pos, cell)) {
                assert(null(chunks[key].update(pos, cell)[cp]));
            }
        }
    }
}

/// Access a cell in the gridmap
impl<A: Cell, const D: usize> GridMap<A, D> {
    /// The value of the cell at `index`: the null value where no chunk holds
    /// it. Nothing is allocated.
    pub fn get(&self, index: &[isize; D]) -> (r: A) where A: Copy
        requires
            self.wf(),
        ensures
            r == self.cell(index@),
    {
        let (chunk_index, cell_index) = self.split_index(index);
        *self.index_chunk_cell(&chunk_index, &cell_index)
    }

    /// Remove the chunk at position `s` of the resident list, moving the last
    /// chunk into its place.
    fn remove_slot(&mut self, s: usize)
        requires
            old(self).wf(),
            s < old(self).chunks@.len(),
        ensures
            final(self).wf(),
            final(self).dim() == old(self).dim(),
            final(self).resident() == old(self).resident().remove(old(self).chunks@[s as int].key()),
            final(self).chunks@ == old(self).chunks@.update(s as int, old(self).chunks@.last()).drop_last(),
    {
        let ghost old_self = *self;
        let last = self.chunks.len() - 1;
        let key = self.chunks[s].coord;
        self.slots.remove(&key);
        if s != last {
            let moved = self.chunks[last].coord;
            self.slots.insert(&moved, s);
        }
        self.chunks.swap_remove(s);
        proof {
            let slots = super::slots::slots_of(self.slots);
            let old_slots = super::slots::slots_of(old_self.slots);
            assert forall|i: int| 0 <= i < self.chunks@.len() implies {
                let c = #[trigger] self.chunks@[i];
                &&& slots.contains_key(c.coord@)
                &&& slots[c.coord@] == i
                &&& c.dim@ == self.chunk_dim@
                &&& c.cells@.len() == volume(self.chunk_dim@)
                &&& chunk_fits(c.coord@, self.chunk_dim@)
            } by {
                if i != s {
                    let c = old_self.chunks@[i];
                    assert(old_slots[c.coord@] == i);
                }
            }
            assert forall|k: Seq<isize>| #[trigger] slots.contains_key(k) implies slots[k]
                < self.chunks@.len() && self.chunks@[slots[k] as int].coord@ == k by {
                if k != old_self.chunks@[last as int].coord@ {
                    assert(old_slots.contains_key(k));
                    assert(old_slots[k] != s);
                    assert(old_slots[k] != last);
                }
            }
            assert(self.resident() =~= old_self.resident().remove(key@));
        }
    }

    /// Set the cell at `index` to `cell`. A non-null value allocates the chunk
    /// if it is absent; a null value evicts the chunk if it ends up all null.
    pub fn set(&mut self, index: &[isize; D], cell: A)
        requires
            old(self).wf(),
            null(cell) || old(self).writable(index@),
        ensures
            final(self).wf(),
            final(self).dim() == old(self).dim(),
            final(self).resident() == written(
                old(self).resident(),
                chunk_key(index@, old(self).dim()),
                linear(local_key(index@, old(self).dim()), old(self).dim()),
                cell,
                volume(old(self).dim()),
            ),
            forall|c: Seq<isize>|
                c.len() == D ==> #[trigger] final(self).cell(c) == if c == index@ {
                    cell
                } else {
                    old(self).cell(c)
                },
    {
        let ghost old_self = *self;
        proof {
            self.lemma_wf();
        }
        // index of the chunk and index of the cell inside of the chunk
        let (chunk_index, cell_index) = self.split_index(index);
        let li = linear_index(&self.chunk_dim, &cell_index);
        let ghost key = chunk_index@;
        let ghost after = written(old_self.resident(), key, li as int, cell, volume(self.dim()));
        if cell.is_null() {
            // if the chunk does not exists, there is nothing to do
            match self.slots.get(&chunk_index) {
                Some(s) => {
                    self.chunks[s].cells.set(li, cell);
                    proof {
                        assert(self.resident() =~= old_self.resident().insert(
                            key,
                            old_self.resident()[key].update(li as int, cell),
                        ));
                    }
                    // if the chunk end up empty, remove it from the map
                    if self.chunks[s].is_chunk_empty() {
                        self.remove_slot(s);
                        assert(self.resident() =~= after);
                    }
                },
                None => {},
            }
        } else {
            match self.slots.get(&chunk_index) {
                Some(s) => {
                    self.chunks[s].cells.set(li, cell);
                    assert(self.resident() =~= after);
                },
                None => {
                    // if the chunk does not exists, create it
                    let mut chunk = Chunk::new_null(chunk_index, self.chunk_dim);
                    chunk.cells.set(li, cell);
                    let n = self.chunks.len();
                    self.chunks.push(chunk);
                    self.slots.insert(&chunk_index, n);
                    assert(self.resident() =~= after);
                },
            }
        }
        proof {
            lemma_written_cell(old_self.resident(), old_self.dim(), index@, cell);
        }
    }

    /// Access a chunk by its chunk coordinate.
    pub fn get_chunk(&self, chunk_index: &[isize; D]) -> (r: Option<&Chunk<A, D>>)
        requires
            self.wf(),
        ensures
            match r {
                Some(c) => {
                    &&& self.resident().contains_key(chunk_index@)
                    &&& c@ == self.resident()[chunk_index@]
                    &&& c.key() == chunk_index@
                    &&& c.shape() == self.dim()
                    &&& c.wf()
                },
                None => !self.resident().contains_key(chunk_index@),
            },
    {
        match self.slots.get(chunk_index) {
            Some(s) => Some(&self.chunks[s]),
            None => None,
        }
    }

    /// Remove the chunk at the given chunk coordinate if all its cells are
    /// null. Returns true when it was removed.
    pub fn try_free_chunk(&mut self, chunk_index: &[isize; D]) -> (r: bool)
        requires
            old(self).wf(),
        ensures
            final(self).wf(),
            final(self).dim() == old(self).dim(),
            r == (old(self).resident().contains_key(chunk_index@) && all_null(
                old(self).resident()[chunk_index@],
            )),
            final(self).resident() == if r {
                old(self).resident().remove(chunk_index@)
            } else {
                old(self).resident()
            },
    {
        // if the chunk does not exists, there is nothing to do
        match self.slots.get(chunk_index) {
            Some(s) => {
                // if the chunk is empty, remove it from the map
                if self.chunks[s].is_chunk_empty() {
                    self.remove_slot(s);
                    return true;
                }
                false
            },
            None => false,
        }
    }

    /// Remove every resident chunk whose cells are all null.
    pub fn prune(&mut self)
        requires
            old(self).wf(),
        ensures
            final(self).wf(),
            final(self).dim() == old(self).dim(),
            final(self).resident() == occupied_chunks(old(self).resident()),
    {
        let ghost old_res = self.resident();
        let mut i: usize = 0;
        while i < self.chunks.len()
            invariant
                self.wf(),
                self.dim() == old(self).dim(),
                0 <= i <= self.chunks@.len(),
                forall|j: int| 0 <= j < i ==> !all_null(#[trigger] self.chunks@[j]@),
                forall|k: Seq<isize>| #[trigger]
                    self.resident().contains_key(k) ==> old_res.contains_key(k)
                        && self.resident()[k] == old_res[k],
                forall|k: Seq<isize>| #[trigger]
                    old_res.contains_key(k) && !all_null(old_res[k]) ==> self.resident().contains_key(k),
            decreases self.chunks@.len() - i,
        {
            if self.chunks[i].is_chunk_empty() {
                self.remove_slot(i);
            } else {
                i += 1;
            }
        }
        proof {
            let res = self.resident();
            assert forall|k: Seq<isize>| #[trigger] res.contains_key(k) implies !all_null(res[k]) by {
                let s = super::slots::slots_of(self.slots)[k];
                assert(self.chunks@[s as int].coord@ == k);
            }
            assert(res =~= occupied_chunks(old_res));
        }
    }

    /// Mutable access to the cell at `cell_index` of the chunk `chunk_index`,
    /// allocating the chunk, null everywhere, if it is absent. A null value
    /// written through the reference leaves the chunk resident (see `prune`).
    pub fn index_chunk_cell_mut(&mut self, chunk_index: [isize; D], cell_index: &[usize; D]) -> (r:
        &mut A)
        requires
            old(self).wf(),
            in_chunk(cell_index@, old(self).dim()),
            old(self).resident().contains_key(chunk_index@) || chunk_fits(
                chunk_index@,
                old(self).dim(),
            ),
        ensures
            *r == (if old(self).resident().contains_key(chunk_index@) {
                old(self).resident()[chunk_index@][linear(cell_index@, old(self).dim())]
            } else {
                A::null_spec()
            }),
            final(self).wf(),
            final(self).dim() == old(self).dim(),
            final(self).resident() == old(self).resident().insert(
                chunk_index@,
                (if old(self).resident().contains_key(chunk_index@) {
                    old(self).resident()[chunk_index@]
                } else {
                    Seq::new(volume(old(self).dim()) as nat, |i: int| A::null_spec())
                }).update(linear(cell_index@, old(self).dim()), *final(r)),
            ),
    {
        let li = linear_index(&self.chunk_dim, cell_index);
        let s = match self.slots.get(&chunk_index) {
            Some(s) => s,
            None => {
                let chunk = Chunk::new_null(chunk_index, self.chunk_dim);
                let n = self.chunks.len();
                self.chunks.push(chunk);
                self.slots.insert(&chunk_index, n);
                n
            },
        };
        &mut self.chunks[s].cells[li]
    }

    /// Mutable access to a chunk by its chunk coordinate. The grid stays
    /// consistent as long as the chunk keeps its coordinate and shape (as the
    /// chunk's own methods do); a chunk left all null stays resident until
    /// `try_free_chunk` or `prune` removes it.
    pub fn get_chunk_mut(&mut self, chunk_index: &[isize; D]) -> (r: Option<&mut Chunk<A, D>>)
        requires
            old(self).wf(),
        ensures
            final(self).dim() == old(self).dim(),
            match r {
                Some(c) => {
                    &&& old(self).resident().contains_key(chunk_index@)
                    &&& c@ == old(self).resident()[chunk_index@]
                    &&& c.key() == chunk_index@
                    &&& c.shape() == old(self).dim()
                    &&& c.wf()
                    &&& (final(c).key() == chunk_index@ && final(c).shape() == old(self).dim()
                        && final(c).wf()) ==> final(self).wf() && final(self).resident()
                        == old(self).resident().insert(chunk_index@, final(c)@)
                },
                None => {
                    &&& !old(self).resident().contains_key(chunk_index@)
                    &&& final(self).wf()
                    &&& final(self).resident() == old(self).resident()
                },
            },
    {
        match self.slots.get(chunk_index) {
            Some(s) => Some(&mut self.chunks[s]),
            None => None,
        }
    }
}

} // verus!
