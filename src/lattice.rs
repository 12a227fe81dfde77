use vstd::prelude::*;
use crate::grid::{Grid, cells_of, dims_of, grid_get, grid_set, grid_zeros};

verus! {

/// Why a lattice operation was refused.
#[derive(Debug, Clone, Copy, PartialEq, Eq, Structural)]
pub enum IsingError {
    /// The shape is not two positive axis lengths whose product fits the address space.
    InvalidShape,
    /// A coordinate lies outside the lattice.
    IndexOutOfBounds,
    /// A run was configured with no iterations.
    InvalidConfiguration,
}

/// A two-dimensional lattice of spins with open boundaries.
///
/// Spins are stored as `i8` and never hold `i8::MIN`, so that flipping a spin
/// (negating it) always stays in range.
pub struct Lattice {
    rows: usize,
    cols: usize,
    grid: Grid,
}

/// True when `i8` negation is defined on `v`.
pub open spec fn flippable(v: i8) -> bool {
    v != i8::MIN
}

/// `p` as a one-element sequence when `keep` holds, else the empty sequence.
pub open spec fn keep_if(keep: bool, p: (int, int)) -> Seq<(int, int)> {
    if keep {
        seq![p]
    } else {
        seq![]
    }
}

pub open spec fn in_shape(rows: nat, cols: nat, y: int, x: int) -> bool {
    0 <= y < rows && 0 <= x < cols
}

/// The spin at `(y, x)` of row-major cells `c` with `cols` columns.
pub open spec fn spin_in(c: Seq<i8>, cols: nat, y: int, x: int) -> i8 {
    c[y * cols + x]
}

/// The product of the spins at `(y, x)` and `(ny, nx)` when the latter is on
/// the lattice, else zero.
pub open spec fn bond_in(c: Seq<i8>, rows: nat, cols: nat, y: int, x: int, ny: int, nx: int) -> int {
    if in_shape(rows, cols, ny, nx) {
        spin_in(c, cols, y, x) * spin_in(c, cols, ny, nx)
    } else {
        0
    }
}

/// The energy of the bonds touching `(y, x)`, in units of the coupling
/// constant: minus the sum of the spin products with each neighbor.
pub open spec fn local_energy_in(c: Seq<i8>, rows: nat, cols: nat, y: int, x: int) -> int {
    -(bond_in(c, rows, cols, y, x, y, x - 1) + bond_in(c, rows, cols, y, x, y + 1, x)
        + bond_in(c, rows, cols, y, x, y, x + 1) + bond_in(c, rows, cols, y, x, y - 1, x))
}

/// The cells `c` with the spin at `(y, x)` negated.
pub open spec fn flip_cells(c: Seq<i8>, cols: nat, y: int, x: int) -> Seq<i8> {
    c.update(y * cols + x, (-spin_in(c, cols, y, x)) as i8)
}

/// Distinct coordinates of a shape sit at distinct row-major indices.
pub proof fn lemma_index_injective(y: int, x: int, ny: int, nx: int, rows: int, cols: int)
    requires
        0 <= y < rows,
        0 <= x < cols,
        0 <= ny < rows,
        0 <= nx < cols,
        y != ny || x != nx,
    ensures
        y * cols + x != ny * cols + nx,
{
    if y == ny {
    } else if y < ny {
        assert(y * cols + x < ny * cols + nx) by (nonlinear_arith)
            requires
                y < ny,
                0 <= x < cols,
                0 <= nx,
        ;
    } else {
        assert(ny * cols + nx < y * cols + x) by (nonlinear_arith)
            requires
                ny < y,
                0 <= nx < cols,
                0 <= x,
        ;
    }
}

/// Flipping the spin at `(y, x)` negates every bond that touches it, and so
/// its local energy.
pub proof fn lemma_flip_negates_local(c: Seq<i8>, rows: nat, cols: nat, y: int, x: int)
    requires
        c.len() == rows * cols,
        in_shape(rows, cols, y, x),
        flippable(spin_in(c, cols, y, x)),
    ensures
        local_energy_in(flip_cells(c, cols, y, x), rows, cols, y, x) == -local_energy_in(c, rows, cols, y, x),
{
    let f = flip_cells(c, cols, y, x);
    lemma_index_bounds(y, x, rows as int, cols as int);
    assert(spin_in(f, cols, y, x) == -spin_in(c, cols, y, x));
    assert forall|ny: int, nx: int| (ny == y && (nx == x - 1 || nx == x + 1)) || (nx == x && (ny == y - 1 || ny == y + 1))
        implies bond_in(f, rows, cols, y, x, ny, nx) == -bond_in(c, rows, cols, y, x, ny, nx) by {
        if in_shape(rows, cols, ny, nx) {
            lemma_index_injective(y, x, ny, nx, rows as int, cols as int);
            lemma_index_bounds(ny, nx, rows as int, cols as int);
            assert(spin_in(f, cols, ny, nx) == spin_in(c, cols, ny, nx));
            let a = spin_in(c, cols, y, x) as int;
            let b = spin_in(c, cols, ny, nx) as int;
            assert((-a) * b == -(a * b)) by (nonlinear_arith);
        }
    }
    assert(bond_in(f, rows, cols, y, x, y, x - 1) == -bond_in(c, rows, cols, y, x, y, x - 1));
    assert(bond_in(f, rows, cols, y, x, y, x + 1) == -bond_in(c, rows, cols, y, x, y, x + 1));
    assert(bond_in(f, rows, cols, y, x, y - 1, x) == -bond_in(c, rows, cols, y, x, y - 1, x));
    assert(bond_in(f, rows, cols, y, x, y + 1, x) == -bond_in(c, rows, cols, y, x, y + 1, x));
}

pub proof fn lemma_index_bounds(y: int, x: int, rows: int, cols: int)
    requires
        0 <= y < rows,
        0 <= x < cols,
    ensures
        0 <= y * cols + x < rows * cols,
{
    assert(0 <= y * cols + x < rows * cols) by (nonlinear_arith)
        requires
            0 <= y < rows,
            0 <= x < cols,
    ;
}

impl Lattice {
    /// Number of rows (the length of the first axis).
    pub closed spec fn n_rows(&self) -> nat {
        self.rows as nat
    }

    /// Number of columns (the length of the second axis).
    pub closed spec fn n_cols(&self) -> nat {
        self.cols as nat
    }

    /// The spins in row-major order.
    pub closed spec fn cells(&self) -> Seq<i8> {
        cells_of(self.grid)
    }

    /// The lattice's invariant.
    pub closed spec fn wf(&self) -> bool {
        &&& self.rows > 0
        &&& self.cols > 0
        &&& self.rows * self.cols <= isize::MAX
        &&& dims_of(self.grid) == seq![self.rows, self.cols]
        &&& cells_of(self.grid).len() == self.rows * self.cols
        &&& forall|i: int| 0 <= i < cells_of(self.grid).len() ==> flippable(#[trigger] cells_of(self.grid)[i])
    }

    /// What the invariant says, in terms of the model.
    pub proof fn lemma_wf(&self)
        requires
            self.wf(),
        ensures
            self.n_rows() > 0,
            self.n_cols() > 0,
            self.n_rows() * self.n_cols() <= isize::MAX,
            self.cells().len() == self.n_rows() * self.n_cols(),
            forall|i: int| 0 <= i < self.cells().len() ==> flippable(#[trigger] self.cells()[i]),
    {
    }

    /// Whether `(y, x)` is a site of the lattice.
    pub open spec fn in_bounds(&self, y: int, x: int) -> bool {
        in_shape(self.n_rows(), self.n_cols(), y, x)
    }

    /// The spin at `(y, x)`.
    pub open spec fn spin(&self, y: int, x: int) -> i8 {
        spin_in(self.cells(), self.n_cols(), y, x)
    }

    /// The neighbors of `(y, x)` under open boundaries, tried at the offsets
    /// `(0,-1)`, `(1,0)`, `(0,1)`, `(-1,0)` in that order.
    pub open spec fn neighbors_spec(&self, y: int, x: int) -> Seq<(int, int)> {
        keep_if(self.in_bounds(y, x - 1), (y, x - 1))
            + keep_if(self.in_bounds(y + 1, x), (y + 1, x))
            + keep_if(self.in_bounds(y, x + 1), (y, x + 1))
            + keep_if(self.in_bounds(y - 1, x), (y - 1, x))
    }

    /// The spin product of `(y, x)` with `(ny, nx)`, or zero off the lattice.
    pub open spec fn bond(&self, y: int, x: int, ny: int, nx: int) -> int {
        bond_in(self.cells(), self.n_rows(), self.n_cols(), y, x, ny, nx)
    }

    /// The energy of the bonds touching `(y, x)`, in units of the coupling
    /// constant.
    pub open spec fn local_energy_spec(&self, y: int, x: int) -> int {
        local_energy_in(self.cells(), self.n_rows(), self.n_cols(), y, x)
    }

    proof fn lemma_spin_index(&self, y: int, x: int)
        requires
            self.wf(),
            self.in_bounds(y, x),
        ensures
            0 <= y * self.n_cols() + x < self.cells().len(),
            flippable(self.spin(y, x)),
    {
        lemma_index_bounds(y, x, self.rows as int, self.cols as int);
        assert(flippable(cells_of(self.grid)[y * self.n_cols() + x]));
    }

    /// A zero-filled lattice of the given shape.
    pub fn new(shape: Vec<usize>) -> (r: Result<Lattice, IsingError>)
        ensures
            shape@.len() == 2 && shape@[0] > 0 && shape@[1] > 0 && shape@[0] * shape@[1]
                <= isize::MAX <==> r is Ok,
            r is Err ==> r == Err::<Lattice, IsingError>(IsingError::InvalidShape),
            r matches Ok(l) ==> {
                &&& l.wf()
                &&& l.n_rows() == shape@[0]
                &&& l.n_cols() == shape@[1]
                &&& l.cells() == Seq::new((shape@[0] * shape@[1]) as nat, |i: int| 0i8)
            },
    {
        if shape.len() != 2 {
            return Err(IsingError::InvalidShape);
        }
        let rows = shape[0];
        let cols = shape[1];
        if rows == 0 || cols == 0 {
            return Err(IsingError::InvalidShape);
        }
        if rows > (isize::MAX as usize) / cols {
            proof {
                assert(rows * cols > isize::MAX) by (nonlinear_arith)
                    requires
                        rows > isize::MAX as usize / cols,
                        cols > 0,
                ;
            }
            return Err(IsingError::InvalidShape);
        }
        proof {
            assert(rows * cols <= isize::MAX) by (nonlinear_arith)
                requires
                    rows <= isize::MAX as usize / cols,
                    cols > 0,
            ;
        }
        let grid = grid_zeros(rows, cols);
        Ok(Lattice { rows, cols, grid })
    }

    pub fn rows(&self) -> (r: usize)
        requires
            self.wf(),
        ensures
            r == self.n_rows(),
    {
        self.rows
    }

    pub fn cols(&self) -> (r: usize)
        requires
            self.wf(),
        ensures
            r == self.n_cols(),
    {
        self.cols
    }

    /// The spin at `(y, x)`, unchecked beyond the precondition.
    fn spin_at(&self, y: usize, x: usize) -> (r: i8)
        requires
            self.wf(),
            self.in_bounds(y as int, x as int),
        ensures
            r == self.spin(y as int, x as int),
            flippable(r),
    {
        proof {
            self.lemma_spin_index(y as int, x as int);
        }
        grid_get(&self.grid, y, x)
    }

    /// The spin at `(y, x)`, or `IndexOutOfBounds` off the lattice.
    pub fn get(&self, y: usize, x: usize) -> (r: Result<i8, IsingError>)
        requires
            self.wf(),
        ensures
            self.in_bounds(y as int, x as int) ==> r == Ok::<i8, IsingError>(self.spin(y as int, x as int)),
            !self.in_bounds(y as int, x as int) ==> r == Err::<i8, IsingError>(IsingError::IndexOutOfBounds),
    {
        if y < self.rows && x < self.cols {
            Ok(self.spin_at(y, x))
        } else {
            Err(IsingError::IndexOutOfBounds)
        }
    }

    /// Writes `v` at `(y, x)`, or returns `IndexOutOfBounds` off the lattice
    /// and leaves it unchanged.
    pub fn set(&mut self, y: usize, x: usize, v: i8) -> (r: Result<(), IsingError>)
        requires
            old(self).wf(),
            flippable(v),
        ensures
            final(self).wf(),
            final(self).n_rows() == old(self).n_rows(),
            final(self).n_cols() == old(self).n_cols(),
            old(self).in_bounds(y as int, x as int) ==> {
                &&& r is Ok
                &&& final(self).cells() == old(self).cells().update(y * old(self).n_cols() + x, v)
            },
            !old(self).in_bounds(y as int, x as int) ==> {
                &&& r == Err::<(), IsingError>(IsingError::IndexOutOfBounds)
                &&& final(self).cells() == old(self).cells()
            },
    {
        if y < self.rows && x < self.cols {
            proof {
                self.lemma_spin_index(y as int, x as int);
            }
            grid_set(&mut self.grid, y, x, v);
            proof {
                let c = cells_of(self.grid);
                assert forall|i: int| 0 <= i < c.len() implies flippable(#[trigger] c[i]) by {
                    if i != y * self.cols + x {
                        assert(c[i] == cells_of(old(self).grid)[i]);
                    }
                }
            }
            Ok(())
        } else {
            Err(IsingError::IndexOutOfBounds)
        }
    }

    /// Whether `point = (y, x)` lies on the lattice.
    pub fn satisfy_boundary_cond(&self, point: (i64, i64)) -> (r: bool)
        requires
            self.wf(),
        ensures
            r == self.in_bounds(point.0 as int, point.1 as int),
    {
        let (y, x) = point;
        proof {
            let (rows, cols) = (self.rows as int, self.cols as int);
            assert(rows <= rows * cols && cols <= rows * cols) by (nonlinear_arith)
                requires
                    rows > 0,
                    cols > 0,
            ;
        }
        0 <= x && x < self.cols as i64 && 0 <= y && y < self.rows as i64
    }

    /// The neighbors of `point = (y, x)` under open boundaries, in the order
    /// of `neighbors_spec`.
    pub fn neighbors(&self, point: (usize, usize)) -> (r: Vec<(usize, usize)>)
        requires
            self.wf(),
            self.in_bounds(point.0 as int, point.1 as int),
        ensures
            r@.map_values(|p: (usize, usize)| (p.0 as int, p.1 as int)) == self.neighbors_spec(
                point.0 as int,
                point.1 as int,
            ),
    {
        let (y, x) = point;
        let mut r: Vec<(usize, usize)> = Vec::new();
        if x > 0 {
            r.push((y, x - 1));
        }
        if y + 1 < self.rows {
            r.push((y + 1, x));
        }
        if x + 1 < self.cols {
            r.push((y, x + 1));
        }
        if y > 0 {
            r.push((y - 1, x));
        }
        assert(r@.map_values(|p: (usize, usize)| (p.0 as int, p.1 as int)) =~= self.neighbors_spec(
            y as int,
            x as int,
        ));
        r
    }

    /// The product of the spins at `(y, x)` and `(ny, nx)`.
    fn pair(&self, y: usize, x: usize, ny: usize, nx: usize) -> (r: i64)
        requires
            self.wf(),
            self.in_bounds(y as int, x as int),
            self.in_bounds(ny as int, nx as int),
        ensures
            r == self.bond(y as int, x as int, ny as int, nx as int),
            -16384 <= r <= 16384,
    {
        let a = self.spin_at(y, x) as i64;
        let b = self.spin_at(ny, nx) as i64;
        assert(-16384 <= a * b <= 16384) by (nonlinear_arith)
            requires
                -128 <= a <= 127,
                -128 <= b <= 127,
        ;
        a * b
    }

    /// The energy of the bonds touching `point = (y, x)`, in units of the
    /// coupling constant.
    pub fn calc_local_energy(&self, point: (usize, usize)) -> (r: i64)
        requires
            self.wf(),
            self.in_bounds(point.0 as int, point.1 as int),
        ensures
            r == self.local_energy_spec(point.0 as int, point.1 as int),
            -65536 <= r <= 65536,
    {
        let (y, x) = point;
        let mut e: i64 = 0;
        if x > 0 {
            e = e - self.pair(y, x, y, x - 1);
        }
        if y + 1 < self.rows {
            e = e - self.pair(y, x, y + 1, x);
        }
        if x + 1 < self.cols {
            e = e - self.pair(y, x, y, x + 1);
        }
        if y > 0 {
            e = e - self.pair(y, x, y - 1, x);
        }
        e
    }
    /// The change in local energy at `(y, x)`, in units of the coupling
    /// constant, that flipping the spin there would bring.
    pub open spec fn flip_delta_spec(&self, y: int, x: int) -> int {
        local_energy_in(flip_cells(self.cells(), self.n_cols(), y, x), self.n_rows(), self.n_cols(), y, x)
            - self.local_energy_spec(y, x)
    }

    /// The energy change of flipping the spin at `point = (y, x)`, in units
    /// of the coupling constant, computed without forming the flipped lattice.
    pub fn flip_delta(&self, point: (usize, usize)) -> (r: i64)
        requires
            self.wf(),
            self.in_bounds(point.0 as int, point.1 as int),
        ensures
            r == self.flip_delta_spec(point.0 as int, point.1 as int),
            r == -2 * self.local_energy_spec(point.0 as int, point.1 as int),
    {
        let e = self.calc_local_energy(point);
        proof {
            self.lemma_spin_index(point.0 as int, point.1 as int);
            lemma_flip_negates_local(self.cells(), self.n_rows(), self.n_cols(), point.0 as int, point.1 as int);
        }
        -2 * e
    }

    /// Negates the spin at `point = (y, x)`.
    pub fn flip(&mut self, point: (usize, usize))
        requires
            old(self).wf(),
            old(self).in_bounds(point.0 as int, point.1 as int),
        ensures
            final(self).wf(),
            final(self).n_rows() == old(self).n_rows(),
            final(self).n_cols() == old(self).n_cols(),
            final(self).cells() == flip_cells(old(self).cells(), old(self).n_cols(), point.0 as int, point.1 as int),
    {
        let (y, x) = point;
        let v = self.spin_at(y, x);
        let _ = self.set(y, x, -v);
    }
    /// A full copy of the spins, in row-major order.
    pub fn snapshot(&self) -> (r: Vec<i8>)
        requires
            self.wf(),
        ensures
            r@ == self.cells(),
    {
        let n = self.rows * self.cols;
        let mut r: Vec<i8> = Vec::new();
        let mut y: usize = 0;
        while y < self.rows
            invariant
                self.wf(),
                n == self.rows * self.cols,
                0 <= y <= self.rows,
                y * self.cols <= n,
                r@ == self.cells().subrange(0, y * self.cols),
            decreases self.rows - y,
        {
            let mut x: usize = 0;
            while x < self.cols
                invariant
                    self.wf(),
                    n == self.rows * self.cols,
                    0 <= y < self.rows,
                    0 <= x <= self.cols,
                    r@ == self.cells().subrange(0, y * self.cols + x),
                decreases self.cols - x,
            {
                proof {
                    lemma_index_bounds(y as int, x as int, self.rows as int, self.cols as int);
                }
                let v = self.spin_at(y, x);
                r.push(v);
                proof {
                    assert(r@ =~= self.cells().subrange(0, y * self.cols + x + 1));
                }
                x = x + 1;
            }
            proof {
                assert(y * self.cols + self.cols == (y + 1) * self.cols) by (nonlinear_arith);
                assert((y + 1) * self.cols <= n) by (nonlinear_arith)
                    requires
                        y + 1 <= self.rows,
                        n == self.rows * self.cols,
                ;
            }
            y = y + 1;
        }
        proof {
            assert(r@ =~= self.cells());
        }
        r
    }
}

} // verus!
