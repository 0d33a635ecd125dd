//! Cells of a hyper-rectangular grid and their mixed-radix indices.
//!
//! A grid is given by its side lengths, one per dimension. A cell is a point
//! whose every coordinate is below the length of its dimension. Cells are
//! numbered with dimension zero varying fastest.

use vstd::arithmetic::div_mod::*;
use vstd::arithmetic::mul::*;
use vstd::prelude::*;

verus! {

/// Product of the first `d` side lengths: the distance, in cell indices,
/// between two cells that differ by one in coordinate `d`.
pub open spec fn stride(lengths: Seq<u8>, d: int) -> nat
    decreases d,
{
    if d <= 0 {
        1
    } else {
        stride(lengths, d - 1) * (lengths[d - 1] as nat)
    }
}

/// Number of cells in the grid: the product of all side lengths.
pub open spec fn cell_count(lengths: Seq<u8>) -> nat {
    stride(lengths, lengths.len() as int)
}

/// Whether `point` names a cell of the grid.
pub open spec fn in_grid(lengths: Seq<u8>, point: Seq<u8>) -> bool {
    &&& point.len() == lengths.len()
    &&& forall|d: int| 0 <= d < lengths.len() ==> point[d] < lengths[d]
}

/// Coordinate `d` of the cell numbered `index`.
pub open spec fn coordinate(lengths: Seq<u8>, index: nat, d: int) -> nat {
    (index / stride(lengths, d)) % (lengths[d] as nat)
}

/// The cell numbered `index`.
pub open spec fn cell_at(lengths: Seq<u8>, index: nat) -> Seq<u8> {
    Seq::new(lengths.len(), |d: int| coordinate(lengths, index, d) as u8)
}

/// Contribution of the first `d` coordinates of `point` to its index.
pub open spec fn index_of_prefix(lengths: Seq<u8>, point: Seq<u8>, d: int) -> nat
    decreases d,
{
    if d <= 0 {
        0
    } else {
        index_of_prefix(lengths, point, d - 1) + (point[d - 1] as nat) * stride(lengths, d - 1)
    }
}

/// The number of the cell at `point`.
pub open spec fn index_of(lengths: Seq<u8>, point: Seq<u8>) -> nat {
    index_of_prefix(lengths, point, lengths.len() as int)
}

/// Whether the first `d` side lengths are all positive.
pub open spec fn positive_prefix(lengths: Seq<u8>, d: int) -> bool {
    forall|j: int| 0 <= j < d ==> lengths[j] > 0
}

/// The point one step further than `point` along dimension `dim`.
pub open spec fn neighbor(point: Seq<u8>, dim: int) -> Seq<u8> {
    point.update(dim, (point[dim] + 1) as u8)
}

/// Whether `a` and `b` are cells of the grid and `b` is one step further
/// than `a` along dimension `dim`.
pub open spec fn is_step(lengths: Seq<u8>, a: Seq<u8>, b: Seq<u8>, dim: int) -> bool {
    &&& 0 <= dim < lengths.len()
    &&& in_grid(lengths, a)
    &&& a[dim] + 1 < lengths[dim]
    &&& b == neighbor(a, dim)
}

/// Whether a walk leads from a cell to its neighbor one step further along
/// some dimension.
pub open spec fn is_forward_walk(lengths: Seq<u8>, walk: (Seq<u8>, Seq<u8>)) -> bool {
    exists|dim: int| #[trigger] is_step(lengths, walk.0, walk.1, dim)
}

/// The walk from the cell numbered `cell` one step along dimension `dim`.
pub open spec fn step_walk(lengths: Seq<u8>, cell: int, dim: int) -> (Seq<u8>, Seq<u8>) {
    (cell_at(lengths, cell as nat), neighbor(cell_at(lengths, cell as nat), dim))
}

/// The number under which the step from the cell numbered `cell` along
/// dimension `dim` is recorded.
pub open spec fn step_key(lengths: Seq<u8>, cell: int, dim: int) -> int {
    cell * lengths.len() + dim
}

/// Strides over positive lengths are positive.
pub proof fn lemma_stride_positive(lengths: Seq<u8>, d: int)
    requires
        0 <= d <= lengths.len(),
        positive_prefix(lengths, d),
    ensures
        stride(lengths, d) > 0,
    decreases d,
{
    if d > 0 {
        lemma_stride_positive(lengths, d - 1);
        lemma_mul_strictly_positive(stride(lengths, d - 1) as int, lengths[d - 1] as int);
    }
}

/// A zero side length empties every stride that includes it.
pub proof fn lemma_stride_zero(lengths: Seq<u8>, z: int, d: int)
    requires
        0 <= z < d <= lengths.len(),
        lengths[z] == 0,
    ensures
        stride(lengths, d) == 0,
    decreases d,
{
    if d - 1 > z {
        lemma_stride_zero(lengths, z, d - 1);
    }
    assert(stride(lengths, d) == stride(lengths, d - 1) * (lengths[d - 1] as nat));
    lemma_mul_basics(stride(lengths, d - 1) as int);
    lemma_mul_basics(lengths[d - 1] as int);
}

/// Over positive lengths, strides never shrink as dimensions are added.
pub proof fn lemma_stride_monotone(lengths: Seq<u8>, d: int, e: int)
    requires
        0 <= d <= e <= lengths.len(),
        positive_prefix(lengths, e),
    ensures
        stride(lengths, d) <= stride(lengths, e),
    decreases e - d,
{
    if d < e {
        lemma_stride_monotone(lengths, d, e - 1);
        lemma_stride_positive(lengths, e - 1);
        let s = stride(lengths, e - 1) as int;
        let l = lengths[e - 1] as int;
        assert(s <= s * l) by (nonlinear_arith)
            requires
                s > 0,
                l > 0,
        ;
    }
}

/// A grid with at least one cell has no side of length zero.
pub proof fn lemma_nonempty_grid_positive(lengths: Seq<u8>)
    requires
        cell_count(lengths) > 0,
    ensures
        positive_prefix(lengths, lengths.len() as int),
{
    assert forall|j: int| 0 <= j < lengths.len() implies lengths[j] > 0 by {
        if lengths[j] == 0 {
            lemma_stride_zero(lengths, j, lengths.len() as int);
        }
    }
}

/// The first `d` coordinates of a cell contribute less than stride `d`.
pub proof fn lemma_index_of_prefix_bound(lengths: Seq<u8>, point: Seq<u8>, d: int)
    requires
        0 <= d <= lengths.len(),
        in_grid(lengths, point),
    ensures
        index_of_prefix(lengths, point, d) < stride(lengths, d),
    decreases d,
{
    if d > 0 {
        lemma_index_of_prefix_bound(lengths, point, d - 1);
        let s = stride(lengths, d - 1) as int;
        let l = lengths[d - 1] as int;
        let c = point[d - 1] as int;
        let low = index_of_prefix(lengths, point, d - 1) as int;
        assert(low + c * s < s * l) by (nonlinear_arith)
            requires
                0 <= low < s,
                0 <= c < l,
        ;
    }
}

/// The first `d` coordinates of the cell numbered `index` contribute the
/// remainder of `index` by stride `d`.
pub proof fn lemma_cell_at_prefix(lengths: Seq<u8>, index: nat, d: int)
    requires
        0 <= d <= lengths.len(),
        positive_prefix(lengths, d),
    ensures
        index_of_prefix(lengths, cell_at(lengths, index), d) == index % stride(lengths, d),
    decreases d,
{
    if d > 0 {
        lemma_cell_at_prefix(lengths, index, d - 1);
        lemma_stride_positive(lengths, d - 1);
        let s = stride(lengths, d - 1) as int;
        let l = lengths[d - 1] as int;
        lemma_breakdown(index as int, s, l);
        lemma_mod_bound((index as int) / s, l);
        lemma_mul_is_commutative(s, ((index as int) / s) % l);
        assert(cell_at(lengths, index)[d - 1] == coordinate(lengths, index, d - 1));
    }
}

/// Cells with the same partial index agree on the coordinates it covers.
pub proof fn lemma_index_of_prefix_injective(lengths: Seq<u8>, p: Seq<u8>, q: Seq<u8>, d: int)
    requires
        0 <= d <= lengths.len(),
        in_grid(lengths, p),
        in_grid(lengths, q),
        index_of_prefix(lengths, p, d) == index_of_prefix(lengths, q, d),
    ensures
        forall|j: int| 0 <= j < d ==> p[j] == q[j],
    decreases d,
{
    if d > 0 {
        lemma_index_of_prefix_bound(lengths, p, d - 1);
        lemma_index_of_prefix_bound(lengths, q, d - 1);
        let s = stride(lengths, d - 1) as int;
        let total = index_of_prefix(lengths, p, d) as int;
        let lp = index_of_prefix(lengths, p, d - 1) as int;
        let lq = index_of_prefix(lengths, q, d - 1) as int;
        lemma_fundamental_div_mod_converse(total, s, p[d - 1] as int, lp);
        lemma_fundamental_div_mod_converse(total, s, q[d - 1] as int, lq);
        lemma_index_of_prefix_injective(lengths, p, q, d - 1);
    }
}

/// Decoding an index below the cell count gives a cell of the grid, and
/// encoding that cell gives the index back.
pub proof fn lemma_index_round_trip(lengths: Seq<u8>, index: nat)
    requires
        index < cell_count(lengths),
    ensures
        in_grid(lengths, cell_at(lengths, index)),
        index_of(lengths, cell_at(lengths, index)) == index,
{
    let n = lengths.len() as int;
    lemma_nonempty_grid_positive(lengths);
    assert forall|d: int| 0 <= d < n implies cell_at(lengths, index)[d] < lengths[d] by {
        lemma_stride_positive(lengths, d);
        lemma_mod_bound((index as int) / (stride(lengths, d) as int), lengths[d] as int);
    }
    lemma_cell_at_prefix(lengths, index, n);
    lemma_small_mod(index, cell_count(lengths));
}

/// Encoding a cell of the grid gives an index below the cell count, and
/// decoding that index gives the cell back.
pub proof fn lemma_cell_round_trip(lengths: Seq<u8>, point: Seq<u8>)
    requires
        in_grid(lengths, point),
    ensures
        index_of(lengths, point) < cell_count(lengths),
        cell_at(lengths, index_of(lengths, point)) == point,
{
    let n = lengths.len() as int;
    let index = index_of(lengths, point);
    lemma_index_of_prefix_bound(lengths, point, n);
    lemma_index_round_trip(lengths, index);
    lemma_index_of_prefix_injective(lengths, cell_at(lengths, index), point, n);
    assert(cell_at(lengths, index) =~= point);
}

/// A step along dimension `dim` ends in a cell whose index is one stride
/// of `dim` greater.
pub proof fn lemma_step_index(lengths: Seq<u8>, a: Seq<u8>, b: Seq<u8>, dim: int)
    requires
        is_step(lengths, a, b, dim),
    ensures
        in_grid(lengths, b),
        index_of(lengths, b) == index_of(lengths, a) + stride(lengths, dim),
{
    lemma_step_prefix(lengths, a, dim, lengths.len() as int);
}

/// How a step along `dim` changes the contribution of the first `d`
/// coordinates.
pub proof fn lemma_step_prefix(lengths: Seq<u8>, a: Seq<u8>, dim: int, d: int)
    requires
        0 <= dim < lengths.len(),
        0 <= d <= lengths.len(),
        a.len() == lengths.len(),
        a[dim] < 255,
    ensures
        index_of_prefix(lengths, neighbor(a, dim), d) == index_of_prefix(lengths, a, d) + (if dim
            < d {
            stride(lengths, dim)
        } else {
            0
        }),
    decreases d,
{
    if d > 0 {
        lemma_step_prefix(lengths, a, dim, d - 1);
        if d - 1 == dim {
            let s = stride(lengths, dim) as int;
            let c = a[dim] as int;
            assert((c + 1) * s == c * s + s) by (nonlinear_arith);
        }
    }
}

/// Step keys are below the number of cells times the number of dimensions,
/// and distinct steps have distinct keys.
pub proof fn lemma_step_key(lengths: Seq<u8>, cell: int, dim: int)
    requires
        0 <= cell < cell_count(lengths),
        0 <= dim < lengths.len(),
    ensures
        0 <= step_key(lengths, cell, dim) < cell_count(lengths) * lengths.len(),
        step_key(lengths, cell, dim) / (lengths.len() as int) == cell,
        step_key(lengths, cell, dim) % (lengths.len() as int) == dim,
{
    let dims = lengths.len() as int;
    let count = cell_count(lengths) as int;
    assert(0 <= cell * dims + dim < count * dims) by (nonlinear_arith)
        requires
            0 <= cell < count,
            0 <= dim < dims,
    ;
    lemma_fundamental_div_mod_converse(cell * dims + dim, dims, cell, dim);
}

/// Where the steps of a grid can be numbered, so can its cells.
pub proof fn lemma_cells_fit(lengths: Seq<u8>)
    requires
        cell_count(lengths) * lengths.len() <= usize::MAX,
    ensures
        cell_count(lengths) <= usize::MAX,
{
    let dims = lengths.len() as int;
    if dims > 0 {
        assert(cell_count(lengths) <= cell_count(lengths) * dims) by (nonlinear_arith)
            requires
                dims >= 1,
        ;
    } else {
        assert(stride(lengths, 0) == 1);
    }
}

/// Every coordinate of a cell of a grid that has cells is below the length
/// of its dimension.
pub proof fn lemma_coordinate_bound(lengths: Seq<u8>, index: nat, dim: int)
    requires
        cell_count(lengths) > 0,
        0 <= dim < lengths.len(),
    ensures
        coordinate(lengths, index, dim) < lengths[dim],
{
    lemma_nonempty_grid_positive(lengths);
    lemma_stride_positive(lengths, dim);
    lemma_mod_bound((index as int) / (stride(lengths, dim) as int), lengths[dim] as int);
}

/// A grid whose sides all have length one has one cell.
pub proof fn lemma_unit_grid(lengths: Seq<u8>, d: int)
    requires
        0 <= d <= lengths.len(),
        forall|j: int| 0 <= j < lengths.len() ==> lengths[j] == 1,
    ensures
        stride(lengths, d) == 1,
    decreases d,
{
    if d > 0 {
        lemma_unit_grid(lengths, d - 1);
    }
}

/// Decodes a cell index into the cell's coordinates, dimension zero first.
///
/// Returns `None` exactly when `index` is not below the number of cells.
pub fn unwrap_index<const DIMS: usize>(lengths: &[u8; DIMS], index: usize) -> (result: Option<
    [u8; DIMS],
>)
    ensures
        result is Some <==> index < cell_count(lengths@),
        result matches Some(point) ==> point@ == cell_at(lengths@, index as nat) && in_grid(
            lengths@,
            point@,
        ),
{
    let mut result = [0u8;DIMS];
    let mut remaining: usize = index;
    let mut d: usize = 0;
    while d < DIMS
        invariant
            d <= DIMS,
            lengths@.len() == DIMS,
            result@.len() == DIMS,
            positive_prefix(lengths@, d as int),
            stride(lengths@, d as int) > 0,
            remaining == (index as nat) / stride(lengths@, d as int),
            forall|j: int|
                0 <= j < d ==> result@[j] == coordinate(lengths@, index as nat, j) && result@[j]
                    < lengths@[j],
        decreases DIMS - d,
    {
        let length: usize = lengths[d] as usize;
        if length == 0 {
            proof {
                lemma_stride_zero(lengths@, d as int, DIMS as int);
            }
            return None;
        }
        proof {
            let s = stride(lengths@, d as int) as int;
            lemma_div_denominator(index as int, s, length as int);
            lemma_mul_strictly_positive(s, length as int);
            lemma_mod_bound(remaining as int, length as int);
            assert(stride(lengths@, d + 1) == stride(lengths@, d as int) * (lengths@[d as int] as nat));
        }
        result[d] = (remaining % length) as u8;
        remaining = remaining / length;
        d += 1;
    }
    proof {
        let count = cell_count(lengths@) as int;
        if index < count {
            lemma_basic_div(index as int, count);
        } else {
            lemma_div_non_zero(index as int, count);
        }
    }
    if remaining == 0 {
        assert(result@ =~= cell_at(lengths@, index as nat));
        Some(result)
    } else {
        None
    }
}

/// Counts the cells of the grid, if the count fits the index type.
pub fn checked_cell_count<const DIMS: usize>(lengths: &[u8; DIMS]) -> (result: Option<usize>)
    ensures
        result is Some <==> cell_count(lengths@) <= usize::MAX,
        result matches Some(count) ==> count == cell_count(lengths@),
{
    let mut z: usize = 0;
    while z < DIMS
        invariant
            z <= DIMS,
            lengths@.len() == DIMS,
            positive_prefix(lengths@, z as int),
        decreases DIMS - z,
    {
        if lengths[z] == 0 {
            proof {
                lemma_stride_zero(lengths@, z as int, DIMS as int);
            }
            return Some(0);
        }
        z += 1;
    }
    let mut count: usize = 1;
    let mut d: usize = 0;
    while d < DIMS
        invariant
            d <= DIMS,
            lengths@.len() == DIMS,
            positive_prefix(lengths@, DIMS as int),
            count == stride(lengths@, d as int),
        decreases DIMS - d,
    {
        let length: usize = lengths[d] as usize;
        proof {
            assert(stride(lengths@, d + 1) == stride(lengths@, d as int) * (lengths@[d as int] as nat));
        }
        match count.checked_mul(length) {
            Some(product) => {
                count = product;
            },
            None => {
                proof {
                    lemma_stride_monotone(lengths@, d + 1, DIMS as int);
                }
                return None;
            },
        }
        d += 1;
    }
    Some(count)
}

/// The index of a cell of the grid.
pub fn cell_index<const DIMS: usize>(lengths: &[u8; DIMS], point: &[u8; DIMS]) -> (index: usize)
    requires
        in_grid(lengths@, point@),
        cell_count(lengths@) <= usize::MAX,
    ensures
        index == index_of(lengths@, point@),
        index < cell_count(lengths@),
{
    let mut index: usize = 0;
    let mut step: usize = 1;
    let mut d: usize = 0;
    proof {
        lemma_index_of_prefix_bound(lengths@, point@, DIMS as int);
    }
    while d < DIMS
        invariant
            d <= DIMS,
            lengths@.len() == DIMS,
            in_grid(lengths@, point@),
            cell_count(lengths@) <= usize::MAX,
            step == stride(lengths@, d as int),
            index == index_of_prefix(lengths@, point@, d as int),
        decreases DIMS - d,
    {
        proof {
            lemma_index_of_prefix_bound(lengths@, point@, d + 1);
            lemma_stride_monotone(lengths@, d + 1, DIMS as int);
            lemma_stride_monotone(lengths@, d as int, d + 1);
            assert(stride(lengths@, d + 1) == stride(lengths@, d as int) * (lengths@[d as int] as nat));
            let c = point@[d as int] as int;
            let s = stride(lengths@, d as int) as int;
            assert(0 <= c * s) by (nonlinear_arith)
                requires
                    0 <= c,
                    0 <= s,
            ;
        }
        index = index + (point[d] as usize) * step;
        step = step * (lengths[d] as usize);
        d += 1;
    }
    index
}

} // verus!
