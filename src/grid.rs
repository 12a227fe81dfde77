use vstd::prelude::*;

verus! {

/// A two-dimensional array of spins, stored as an `ndarray::ArrayD<i8>`.
#[verifier::external_body]
pub struct Grid {
    inner: ndarray::ArrayD<i8>,
}

/// The cells of a grid, in row-major order.
pub uninterp spec fn cells_of(g: Grid) -> Seq<i8>;

/// The axis lengths of a grid.
pub uninterp spec fn dims_of(g: Grid) -> Seq<usize>;

/// Relies on `ndarray::ArrayD::zeros` over `IxDyn`: an array of the given
/// shape with every cell zero, laid out in row-major (standard) order. It
/// panics when the product of the non-zero axis lengths overflows `isize`;
/// with both lengths positive that is the product of the two.
#[verifier::external_body]
pub fn grid_zeros(rows: usize, cols: usize) -> (r: Grid)
    requires
        rows > 0,
        cols > 0,
        rows * cols <= isize::MAX,
    ensures
        dims_of(r) == seq![rows, cols],
        cells_of(r) == Seq::new((rows * cols) as nat, |i: int| 0i8),
{
    Grid { inner: ndarray::ArrayD::<i8>::zeros(ndarray::IxDyn(&[rows, cols])) }
}

/// Relies on indexing an `ndarray::ArrayD` with `[y, x]`: the cell at that
/// position, which sits at `y * cols + x` in row-major order. It panics out
/// of bounds.
#[verifier::external_body]
pub fn grid_get(g: &Grid, y: usize, x: usize) -> (r: i8)
    requires
        dims_of(*g).len() == 2,
        y < dims_of(*g)[0],
        x < dims_of(*g)[1],
        cells_of(*g).len() == dims_of(*g)[0] * dims_of(*g)[1],
    ensures
        r == cells_of(*g)[y * dims_of(*g)[1] + x],
{
    g.inner[[y, x]]
}

/// Relies on mutable indexing of an `ndarray::ArrayD` with `[y, x]`: it
/// replaces that one cell and keeps the shape.
#[verifier::external_body]
pub fn grid_set(g: &mut Grid, y: usize, x: usize, v: i8)
    requires
        dims_of(*old(g)).len() == 2,
        y < dims_of(*old(g))[0],
        x < dims_of(*old(g))[1],
        cells_of(*old(g)).len() == dims_of(*old(g))[0] * dims_of(*old(g))[1],
    ensures
        dims_of(*final(g)) == dims_of(*old(g)),
        cells_of(*final(g)) == cells_of(*old(g)).update(y * dims_of(*old(g))[1] + x, v),
{
    g.inner[[y, x]] = v;
}

} // verus!
