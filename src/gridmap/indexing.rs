//! Addressing: a global coordinate split into the coordinate of its chunk and
//! its place inside the chunk, and the row-major layout of a chunk.

use vstd::arithmetic::div_mod::{
    lemma_fundamental_div_mod, lemma_fundamental_div_mod_converse,
};
use vstd::arithmetic::mul::{lemma_mul_inequality, lemma_mul_is_distributive_add_other_way};
use super::GridMap;
use crate::cell::Cell;
use vstd::prelude::*;

verus! {

/// Number of cells in a chunk of the given shape.
pub open spec fn volume(dims: Seq<usize>) -> int
    decreases dims.len(),
{
    if dims.len() == 0 {
        1
    } else {
        volume(dims.drop_last()) * dims.last()
    }
}

/// True when `dims` can shape a chunk: every size positive and addressable
/// as an `isize`, and the number of cells addressable as a `usize`.
pub open spec fn dims_valid(dims: Seq<usize>) -> bool {
    &&& forall|d: int| 0 <= d < dims.len() ==> 0 < #[trigger] dims[d] <= isize::MAX
    &&& volume(dims) <= usize::MAX
}

/// True when `local` addresses a cell of a chunk of shape `dims`.
pub open spec fn in_chunk(local: Seq<usize>, dims: Seq<usize>) -> bool {
    &&& local.len() == dims.len()
    &&& forall|d: int| 0 <= d < dims.len() ==> #[trigger] local[d] < dims[d]
}

/// Row-major position of the cell `local` in a chunk of shape `dims`: the
/// last axis varies fastest.
pub open spec fn linear(local: Seq<usize>, dims: Seq<usize>) -> int
    decreases dims.len(),
{
    if dims.len() == 0 {
        0
    } else {
        linear(local.drop_last(), dims.drop_last()) * dims.last() + local.last()
    }
}

/// The cell at row-major position `i` in a chunk of shape `dims`.
pub open spec fn delinear(i: int, dims: Seq<usize>) -> Seq<usize>
    decreases dims.len(),
{
    if dims.len() == 0 {
        seq![]
    } else {
        delinear(i / dims.last() as int, dims.drop_last()).push((i % dims.last() as int) as usize)
    }
}

/// Coordinate of the chunk that holds the global coordinate `index`: floor
/// division on each axis.
pub open spec fn chunk_key(index: Seq<isize>, dims: Seq<usize>) -> Seq<isize> {
    Seq::new(index.len(), |d: int| (index[d] as int / dims[d] as int) as isize)
}

/// Place of the global coordinate `index` inside its chunk: the non-negative
/// remainder on each axis.
pub open spec fn local_key(index: Seq<isize>, dims: Seq<usize>) -> Seq<usize> {
    Seq::new(index.len(), |d: int| (index[d] as int % dims[d] as int) as usize)
}

/// Global coordinate of the cell `local` of the chunk `key`.
pub open spec fn global_of(key: Seq<isize>, local: Seq<usize>, dims: Seq<usize>) -> Seq<isize> {
    Seq::new(key.len(), |d: int| (key[d] * dims[d] + local[d]) as isize)
}

/// True when every cell of the chunk `key`, and the end of its extent, have
/// coordinates that an `isize` holds.
pub open spec fn chunk_fits(key: Seq<isize>, dims: Seq<usize>) -> bool {
    &&& key.len() == dims.len()
    &&& forall|d: int|
        0 <= d < dims.len() ==> isize::MIN <= #[trigger] key[d] * dims[d] && key[d] * dims[d]
            + dims[d] <= isize::MAX
}

pub proof fn lemma_volume_positive(dims: Seq<usize>)
    requires
        forall|d: int| 0 <= d < dims.len() ==> 0 < #[trigger] dims[d],
    ensures
        volume(dims) >= 1,
    decreases dims.len(),
{
    if dims.len() > 0 {
        let p = dims.drop_last();
        assert forall|d: int| 0 <= d < p.len() implies 0 < #[trigger] p[d] by {
            assert(p[d] == dims[d]);
        }
        lemma_volume_positive(p);
        lemma_mul_inequality(1, volume(p), dims.last() as int);
    }
}

/// The volume of a prefix of the shape is at most the volume of the shape.
pub proof fn lemma_volume_prefix(dims: Seq<usize>, k: int)
    requires
        0 <= k <= dims.len(),
        forall|d: int| 0 <= d < dims.len() ==> 0 < #[trigger] dims[d],
    ensures
        1 <= volume(dims.subrange(0, k)) <= volume(dims),
    decreases dims.len() - k,
{
    if k == dims.len() {
        assert(dims.subrange(0, k) =~= dims);
        lemma_volume_positive(dims);
    } else {
        lemma_volume_prefix(dims, k + 1);
        let p = dims.subrange(0, k + 1);
        let q = dims.subrange(0, k);
        assert(p.drop_last() =~= q);
        assert forall|d: int| 0 <= d < k implies 0 < #[trigger] q[d] by {
            assert(q[d] == dims[d]);
        }
        lemma_volume_positive(q);
        let (v, n) = (volume(q), dims[k] as int);
        assert(n >= 1);
        assert(volume(p) == v * n);
        assert(v <= v * n) by (nonlinear_arith)
            requires
                v >= 1,
                n >= 1,
        ;
    }
}

/// Every cell of a chunk has a row-major position inside the chunk.
pub proof fn lemma_linear_bounds(local: Seq<usize>, dims: Seq<usize>)
    requires
        in_chunk(local, dims),
    ensures
        0 <= linear(local, dims) < volume(dims),
    decreases dims.len(),
{
    if dims.len() > 0 {
        let (l, p) = (local.drop_last(), dims.drop_last());
        assert forall|d: int| 0 <= d < p.len() implies #[trigger] l[d] < p[d] by {
            assert(l[d] == local[d] && p[d] == dims[d]);
        }
        lemma_linear_bounds(l, p);
        let (q, n) = (linear(l, p), dims.last() as int);
        assert(local.last() < n) by {
            assert(local[local.len() - 1] < dims[dims.len() - 1]);
        }
        lemma_mul_inequality(q + 1, volume(p), n);
        lemma_mul_is_distributive_add_other_way(n, q, 1);
    }
}

/// Row-major position and cell are inverse of each other, one way.
pub proof fn lemma_delinear(i: int, dims: Seq<usize>)
    requires
        0 <= i < volume(dims),
        forall|d: int| 0 <= d < dims.len() ==> 0 < #[trigger] dims[d],
    ensures
        in_chunk(delinear(i, dims), dims),
        linear(delinear(i, dims), dims) == i,
    decreases dims.len(),
{
    if dims.len() > 0 {
        let p = dims.drop_last();
        let n = dims.last() as int;
        assert forall|d: int| 0 <= d < p.len() implies 0 < #[trigger] p[d] by {
            assert(p[d] == dims[d]);
        }
        assert(n > 0) by {
            assert(0 < dims[dims.len() - 1]);
        }
        lemma_fundamental_div_mod(i, n);
        let q = i / n;
        assert(q < volume(p)) by {
            if q >= volume(p) {
                lemma_mul_inequality(volume(p), q, n);
            }
        }
        lemma_delinear(q, p);
        let s = delinear(i, dims);
        assert(s.drop_last() =~= delinear(q, p));
        assert forall|d: int| 0 <= d < dims.len() implies #[trigger] s[d] < dims[d] by {
            if d < p.len() {
                assert(s[d] == delinear(q, p)[d]);
            }
        }
        assert(s.last() as int == i % n);
        assert(linear(s, dims) == linear(s.drop_last(), p) * n + s.last());
        assert(linear(s, dims) == q * n + i % n);
        assert(q * n == n * q) by (nonlinear_arith);
    }
}

/// Row-major position and cell are inverse of each other, the other way.
pub proof fn lemma_linear_delinear(local: Seq<usize>, dims: Seq<usize>)
    requires
        in_chunk(local, dims),
    ensures
        delinear(linear(local, dims), dims) == local,
    decreases dims.len(),
{
    if dims.len() > 0 {
        let (l, p) = (local.drop_last(), dims.drop_last());
        let n = dims.last() as int;
        assert forall|d: int| 0 <= d < p.len() implies #[trigger] l[d] < p[d] by {
            assert(l[d] == local[d] && p[d] == dims[d]);
        }
        assert(local.last() < n) by {
            assert(local[local.len() - 1] < dims[dims.len() - 1]);
        }
        let q = linear(l, p);
        lemma_linear_bounds(l, p);
        lemma_fundamental_div_mod_converse(linear(local, dims), n, q, local.last() as int);
        lemma_linear_delinear(l, p);
        assert(delinear(linear(local, dims), dims) =~= local);
    }
}

/// Number of cells in a chunk of shape `dim`.
pub fn volume_of<const D: usize>(dim: &[usize; D]) -> (r: usize)
    requires
        dims_valid(dim@),
    ensures
        r == volume(dim@),
{
    let mut v: usize = 1;
    let mut d: usize = 0;
    while d < D
        invariant
            0 <= d <= D,
            dims_valid(dim@),
            v == volume(dim@.subrange(0, d as int)),
        decreases D - d,
    {
        proof {
            lemma_volume_prefix(dim@, d + 1);
            assert(dim@.subrange(0, d + 1).drop_last() =~= dim@.subrange(0, d as int));
        }
        v = v * dim[d];
        d += 1;
    }
    assert(dim@.subrange(0, D as int) =~= dim@);
    v
}

/// Row-major position of the cell `local` in a chunk of shape `dim`.
pub fn linear_index<const D: usize>(dim: &[usize; D], local: &[usize; D]) -> (r: usize)
    requires
        dims_valid(dim@),
        in_chunk(local@, dim@),
    ensures
        r == linear(local@, dim@),
        r < volume(dim@),
{
    let mut i: usize = 0;
    let mut d: usize = 0;
    while d < D
        invariant
            0 <= d <= D,
            dims_valid(dim@),
            in_chunk(local@, dim@),
            i == linear(local@.subrange(0, d as int), dim@.subrange(0, d as int)),
        decreases D - d,
    {
        proof {
            let (l, p) = (local@.subrange(0, d + 1), dim@.subrange(0, d + 1));
            assert(l.drop_last() =~= local@.subrange(0, d as int));
            assert(p.drop_last() =~= dim@.subrange(0, d as int));
            assert forall|e: int| 0 <= e < p.len() implies #[trigger] l[e] < p[e] by {
                assert(l[e] == local@[e] && p[e] == dim@[e]);
            }
            lemma_linear_bounds(l, p);
            lemma_volume_prefix(dim@, d + 1);
        }
        i = i * dim[d] + local[d];
        d += 1;
    }
    proof {
        assert(dim@.subrange(0, D as int) =~= dim@);
        assert(local@.subrange(0, D as int) =~= local@);
        lemma_linear_bounds(local@, dim@);
    }
    i
}

/// The cell at row-major position `i` in a chunk of shape `dim`.
pub fn local_index<const D: usize>(dim: &[usize; D], i: usize) -> (r: [usize; D])
    requires
        dims_valid(dim@),
        i < volume(dim@),
    ensures
        r@ == delinear(i as int, dim@),
        in_chunk(r@, dim@),
{
    let mut local = [0usize; D];
    let mut rest: usize = i;
    let mut d: usize = D;
    proof {
        assert(dim@.subrange(0, D as int) =~= dim@);
        assert(local@.subrange(D as int, D as int) =~= seq![]);
        assert(delinear(i as int, dim@) + seq![] =~= delinear(i as int, dim@));
    }
    while d > 0
        invariant
            0 <= d <= D,
            dims_valid(dim@),
            rest < volume(dim@.subrange(0, d as int)),
            delinear(i as int, dim@) == delinear(rest as int, dim@.subrange(0, d as int))
                + local@.subrange(d as int, D as int),
        decreases d,
    {
        let ghost p = dim@.subrange(0, d as int);
        let ghost old_local = local@;
        let n = dim[d - 1];
        proof {
            assert(p.drop_last() =~= dim@.subrange(0, d - 1));
            assert(p.last() == n);
            assert(n > 0) by {
                assert(0 < dim@[d - 1]);
            }
            lemma_fundamental_div_mod(rest as int, n as int);
            let q = rest as int / n as int;
            if q >= volume(p.drop_last()) {
                lemma_mul_inequality(volume(p.drop_last()), q, n as int);
            }
        }
        local[d - 1] = rest % n;
        rest = rest / n;
        d -= 1;
        proof {
            assert(local@.subrange(d as int, D as int) =~= seq![local@[d as int]]
                + old_local.subrange(d + 1, D as int));
            assert(delinear(i as int, dim@) =~= delinear(rest as int, dim@.subrange(0, d as int))
                + local@.subrange(d as int, D as int));
        }
    }
    proof {
        assert(local@.subrange(0, D as int) =~= local@);
        assert(delinear(rest as int, dim@.subrange(0, 0)) =~= seq![]);
        assert(delinear(i as int, dim@) =~= local@);
        lemma_delinear(i as int, dim@);
    }
    local
}

} // verus!

verus! {

/// The value of the cell at `index` in a grid whose resident chunks are
/// `chunks` and whose chunks have shape `dims`.
pub open spec fn cell_in<A: Cell>(chunks: Map<Seq<isize>, Seq<A>>, dims: Seq<usize>, index: Seq<isize>) -> A {
    let k = chunk_key(index, dims);
    if chunks.contains_key(k) {
        chunks[k][linear(local_key(index, dims), dims)]
    } else {
        A::null_spec()
    }
}

/// Splitting a coordinate and putting it back together gives the coordinate:
/// `chunk * size + local` on each axis, negative coordinates included.
pub proof fn lemma_split_round_trip(index: Seq<isize>, dims: Seq<usize>)
    requires
        index.len() == dims.len(),
        dims_valid(dims),
    ensures
        in_chunk(local_key(index, dims), dims),
        global_of(chunk_key(index, dims), local_key(index, dims), dims) == index,
        forall|d: int|
            0 <= d < index.len() ==> #[trigger] chunk_key(index, dims)[d] * dims[d] + local_key(
                index,
                dims,
            )[d] == index[d],
{
    let (k, l) = (chunk_key(index, dims), local_key(index, dims));
    assert forall|d: int| 0 <= d < index.len() implies #[trigger] k[d] * dims[d] + l[d] == index[d]
        && l[d] < dims[d] by {
        let (x, n) = (index[d] as int, dims[d] as int);
        assert(0 < n <= isize::MAX);
        lemma_fundamental_div_mod(x, n);
        lemma_div_bounded(x, n);
        assert(k[d] as int == x / n);
        assert(l[d] as int == x % n);
        assert((x / n) * n == n * (x / n)) by (nonlinear_arith);
    }
    assert(global_of(k, l, dims) =~= index);
}

proof fn lemma_div_bounded(x: int, n: int)
    requires
        isize::MIN <= x <= isize::MAX,
        0 < n,
    ensures
        isize::MIN <= x / n <= isize::MAX,
        0 <= x % n < n,
{
    lemma_fundamental_div_mod(x, n);
    vstd::arithmetic::div_mod::lemma_mod_bound(x, n);
    if x >= 0 {
        vstd::arithmetic::div_mod::lemma_div_pos_is_pos(x, n);
        vstd::arithmetic::div_mod::lemma_div_is_ordered_by_denominator(x, 1, n);
    } else {
        let (q, r) = (x / n, x % n);
        assert(q >= x && q < 0) by (nonlinear_arith)
            requires
                x < 0,
                n > 0,
                x == n * q + r,
                0 <= r < n,
        ;
    }
}

/// Two coordinates with the same chunk and the same place in it are equal.
pub proof fn lemma_split_injective(a: Seq<isize>, b: Seq<isize>, dims: Seq<usize>)
    requires
        a.len() == dims.len(),
        b.len() == dims.len(),
        dims_valid(dims),
        chunk_key(a, dims) == chunk_key(b, dims),
        linear(local_key(a, dims), dims) == linear(local_key(b, dims), dims),
    ensures
        a == b,
{
    lemma_split_round_trip(a, dims);
    lemma_split_round_trip(b, dims);
    lemma_linear_delinear(local_key(a, dims), dims);
    lemma_linear_delinear(local_key(b, dims), dims);
    assert forall|d: int| 0 <= d < a.len() implies a[d] == b[d] by {
        assert(chunk_key(a, dims)[d] == chunk_key(b, dims)[d]);
        assert(local_key(a, dims)[d] == local_key(b, dims)[d]);
    }
    assert(a =~= b);
}

/// The cell `local` of the chunk `key` lies in that chunk, at that place.
pub proof fn lemma_global_split(key: Seq<isize>, local: Seq<usize>, dims: Seq<usize>)
    requires
        dims_valid(dims),
        chunk_fits(key, dims),
        in_chunk(local, dims),
    ensures
        global_of(key, local, dims).len() == dims.len(),
        chunk_key(global_of(key, local, dims), dims) == key,
        local_key(global_of(key, local, dims), dims) == local,
        forall|d: int|
            0 <= d < dims.len() ==> #[trigger] global_of(key, local, dims)[d] == key[d] * dims[d]
                + local[d],
{
    let g = global_of(key, local, dims);
    assert forall|d: int| 0 <= d < dims.len() implies #[trigger] g[d] == key[d] * dims[d] + local[d]
        && chunk_key(g, dims)[d] == key[d] && local_key(g, dims)[d] == local[d] by {
        let n = dims[d] as int;
        assert(0 < n);
        assert(local[d] < dims[d]);
        assert(isize::MIN <= key[d] * dims[d] && key[d] * dims[d] + dims[d] <= isize::MAX);
        let x = key[d] * n + local[d];
        assert(g[d] == x);
        assert(key[d] * n == n * key[d]) by (nonlinear_arith);
        lemma_fundamental_div_mod_converse(x, n, key[d] as int, local[d] as int);
    }
    assert(chunk_key(g, dims) =~= key);
    assert(local_key(g, dims) =~= local);
}

/// Relies on num_traits::Euclid::div_rem_euclid for `isize`, which returns
/// `(isize::div_euclid, isize::rem_euclid)`: for a positive divisor, the
/// floor quotient and the non-negative remainder.
#[verifier::external_body]
fn div_rem_euclid(a: isize, b: isize) -> (r: (isize, isize))
    requires
        b > 0,
    ensures
        r.0 as int == a as int / b as int,
        r.1 as int == a as int % b as int,
{
    num_traits::Euclid::div_rem_euclid(&a, &b)
}

/// Index a cell knowing chunk index and cell index
impl<A: Cell, const D: usize> GridMap<A, D> {
    /// Split the index into chunk index and cell index
    pub fn split_index(&self, index: &[isize; D]) -> (r: ([isize; D], [usize; D]))
        requires
            self.wf(),
        ensures
            r.0@ == chunk_key(index@, self.dim()),
            r.1@ == local_key(index@, self.dim()),
            in_chunk(r.1@, self.dim()),
    {
        proof {
            self.lemma_wf();
            lemma_split_round_trip(index@, self.dim());
        }
        let mut chunk_index = [0isize; D];
        let mut cell_index = [0usize; D];
        let mut i: usize = 0;
        while i < D
            invariant
                0 <= i <= D,
                dims_valid(self.dim()),
                self.dim().len() == D,
                forall|e: int|
                    0 <= e < i ==> chunk_index@[e] == chunk_key(index@, self.dim())[e]
                        && cell_index@[e] == local_key(index@, self.dim())[e],
            decreases D - i,
        {
            let dim = self.chunk_dim[i] as isize;
            proof {
                assert(0 < self.dim()[i as int] <= isize::MAX);
                lemma_div_bounded(index@[i as int] as int, dim as int);
            }
            let (ch, cl) = div_rem_euclid(index[i], dim);
            chunk_index[i] = ch;
            cell_index[i] = cl as usize;
            i += 1;
        }
        assert(chunk_index@ =~= chunk_key(index@, self.dim()));
        assert(cell_index@ =~= local_key(index@, self.dim()));
        (chunk_index, cell_index)
    }

    /// Index a cell knowing chunk index and cell index
    pub fn index_chunk_cell(&self, chunk_index: &[isize; D], cell_index: &[usize; D]) -> (r: &A)
        requires
            self.wf(),
            in_chunk(cell_index@, self.dim()),
        ensures
            *r == (if self.resident().contains_key(chunk_index@) {
                self.resident()[chunk_index@][linear(cell_index@, self.dim())]
            } else {
                A::null_spec()
            }),
    {
        match self.slots.get(chunk_index) {
            Some(s) => {
                let i = linear_index(&self.chunk_dim, cell_index);
                &self.chunks[s].cells[i]
            },
            None => &self.empty,
        }
    }
}

} // verus!
