use vstd::prelude::*;
use crate::lattice::{Lattice, bond_in, in_shape, local_energy_in, spin_in};

verus! {

/// `f(0) + f(1) + ... + f(n - 1)`.
pub open spec fn sum_to(n: int, f: spec_fn(int) -> int) -> int
    decreases n,
{
    if n <= 0 {
        0
    } else {
        sum_to(n - 1, f) + f(n - 1)
    }
}

/// The local energies of the first `k` sites of row `y`, summed.
pub open spec fn row_prefix_sum(c: Seq<i8>, rows: nat, cols: nat, y: int, k: int) -> int {
    sum_to(k, |x: int| local_energy_in(c, rows, cols, y, x))
}

/// The local energies of row `y`, summed.
pub open spec fn row_local_sum(c: Seq<i8>, rows: nat, cols: nat, y: int) -> int {
    row_prefix_sum(c, rows, cols, y, cols as int)
}

/// The local energies of every site, summed: each bond counted from both ends.
pub open spec fn local_sum(c: Seq<i8>, rows: nat, cols: nat) -> int {
    sum_to(rows as int, |y: int| row_local_sum(c, rows, cols, y))
}

/// The bonds from `(y, x)` to the right and downward.
pub open spec fn forward_bonds(c: Seq<i8>, rows: nat, cols: nat, y: int, x: int) -> int {
    bond_in(c, rows, cols, y, x, y, x + 1) + bond_in(c, rows, cols, y, x, y + 1, x)
}

/// The total energy in units of the coupling constant: minus the sum of the
/// spin products over every bond, each bond counted once.
pub open spec fn global_energy_in(c: Seq<i8>, rows: nat, cols: nat) -> int {
    -sum_to(rows as int, |y: int| sum_to(cols as int, |x: int| forward_bonds(c, rows, cols, y, x)))
}

pub proof fn lemma_sum_ext(n: int, f: spec_fn(int) -> int, g: spec_fn(int) -> int)
    requires
        forall|k: int| 0 <= k < n ==> #[trigger] f(k) == g(k),
    ensures
        sum_to(n, f) == sum_to(n, g),
    decreases n,
{
    if n > 0 {
        lemma_sum_ext(n - 1, f, g);
    }
}

pub proof fn lemma_sum_add(n: int, f: spec_fn(int) -> int, g: spec_fn(int) -> int, h: spec_fn(int) -> int)
    requires
        forall|k: int| 0 <= k < n ==> #[trigger] h(k) == f(k) + g(k),
    ensures
        sum_to(n, h) == sum_to(n, f) + sum_to(n, g),
    decreases n,
{
    if n > 0 {
        lemma_sum_add(n - 1, f, g, h);
    }
}

/// Summing `h` shifted up by one place, with zero at the bottom.
pub proof fn lemma_sum_shift(n: int, f: spec_fn(int) -> int, h: spec_fn(int) -> int)
    requires
        n >= 1,
        f(0) == 0,
        forall|k: int| 1 <= k < n ==> #[trigger] f(k) == h(k - 1),
    ensures
        sum_to(n, f) == sum_to(n - 1, h),
    decreases n,
{
    if n > 1 {
        lemma_sum_shift(n - 1, f, h);
        assert(f(n - 1) == h(n - 2));
        assert(sum_to(n - 1, h) == sum_to(n - 2, h) + h(n - 2));
    } else {
        assert(sum_to(1, f) == sum_to(0, f) + f(0));
    }
}

/// Summing `h` with the top place cut to zero.
pub proof fn lemma_sum_cut(n: int, f: spec_fn(int) -> int, h: spec_fn(int) -> int)
    requires
        n >= 1,
        f(n - 1) == 0,
        forall|k: int| 0 <= k < n - 1 ==> #[trigger] f(k) == h(k),
    ensures
        sum_to(n, f) == sum_to(n - 1, h),
{
    lemma_sum_ext(n - 1, f, h);
}

pub proof fn lemma_sum_zero(n: int, f: spec_fn(int) -> int)
    requires
        forall|k: int| 0 <= k < n ==> #[trigger] f(k) == 0,
    ensures
        sum_to(n, f) == 0,
    decreases n,
{
    if n > 0 {
        lemma_sum_zero(n - 1, f);
    }
}

proof fn lemma_bond_sym(c: Seq<i8>, rows: nat, cols: nat, y: int, x: int, ny: int, nx: int)
    requires
        in_shape(rows, cols, y, x),
        in_shape(rows, cols, ny, nx),
    ensures
        bond_in(c, rows, cols, y, x, ny, nx) == bond_in(c, rows, cols, ny, nx, y, x),
{
    let a = spin_in(c, cols, y, x) as int;
    let b = spin_in(c, cols, ny, nx) as int;
    assert(a * b == b * a) by (nonlinear_arith);
}

/// The sum of all local energies is twice the global energy: every bond is
/// seen once from each of its two ends.
pub proof fn lemma_global_is_half_local_sum(c: Seq<i8>, rows: nat, cols: nat)
    requires
        rows > 0,
        cols > 0,
    ensures
        local_sum(c, rows, cols) == 2 * global_energy_in(c, rows, cols),
{
    let (r, n) = (rows as int, cols as int);
    let left = |y: int, x: int| bond_in(c, rows, cols, y, x, y, x - 1);
    let down = |y: int, x: int| bond_in(c, rows, cols, y, x, y + 1, x);
    let right = |y: int, x: int| bond_in(c, rows, cols, y, x, y, x + 1);
    let up = |y: int, x: int| bond_in(c, rows, cols, y, x, y - 1, x);
    let rl = |y: int| sum_to(n, |x: int| left(y, x));
    let rd = |y: int| sum_to(n, |x: int| down(y, x));
    let rr = |y: int| sum_to(n, |x: int| right(y, x));
    let ru = |y: int| sum_to(n, |x: int| up(y, x));
    // Within a row, bonds to the left and to the right are the same bonds.
    assert forall|y: int| 0 <= y < r implies #[trigger] rl(y) == rr(y) by {
        let h = |k: int| right(y, k);
        lemma_sum_cut(n, |x: int| right(y, x), h);
        assert forall|k: int| 1 <= k < n implies #[trigger] left(y, k) == h(k - 1) by {
            lemma_bond_sym(c, rows, cols, y, k, y, k - 1);
        }
        lemma_sum_shift(n, |x: int| left(y, x), h);
    }
    // Bonds upward from row y + 1 are the bonds downward from row y.
    assert forall|y: int| 1 <= y < r implies #[trigger] ru(y) == rd(y - 1) by {
        assert forall|x: int| 0 <= x < n implies #[trigger] up(y, x) == down(y - 1, x) by {
            lemma_bond_sym(c, rows, cols, y, x, y - 1, x);
        }
        lemma_sum_ext(n, |x: int| up(y, x), |x: int| down(y - 1, x));
    }
    lemma_sum_zero(n, |x: int| up(0, x));
    lemma_sum_shift(r, ru, rd);
    lemma_sum_zero(n, |x: int| down(r - 1, x));
    lemma_sum_cut(r, rd, rd);
    // Summing the four directions separately.
    let rowl = |y: int| row_local_sum(c, rows, cols, y);
    assert forall|y: int| 0 <= y < r implies #[trigger] rowl(y) == -(rl(y) + rd(y) + rr(y) + ru(y)) by {
        lemma_sum_neg4(
            n,
            |x: int| left(y, x),
            |x: int| down(y, x),
            |x: int| right(y, x),
            |x: int| up(y, x),
            |x: int| local_energy_in(c, rows, cols, y, x),
        );
    }
    lemma_sum_neg4(r, rl, rd, rr, ru, rowl);
    lemma_sum_ext(r, rl, rr);
    let fwd_row = |y: int| sum_to(n, |x: int| forward_bonds(c, rows, cols, y, x));
    assert forall|y: int| 0 <= y < r implies #[trigger] fwd_row(y) == rr(y) + rd(y) by {
        lemma_sum_add(n, |x: int| right(y, x), |x: int| down(y, x), |x: int| forward_bonds(c, rows, cols, y, x));
    }
    lemma_sum_add(r, rr, rd, fwd_row);
}

pub proof fn lemma_sum_neg4(
    n: int,
    a: spec_fn(int) -> int,
    b: spec_fn(int) -> int,
    c: spec_fn(int) -> int,
    d: spec_fn(int) -> int,
    g: spec_fn(int) -> int,
)
    requires
        forall|k: int| 0 <= k < n ==> #[trigger] g(k) == -(a(k) + b(k) + c(k) + d(k)),
    ensures
        sum_to(n, g) == -(sum_to(n, a) + sum_to(n, b) + sum_to(n, c) + sum_to(n, d)),
    decreases n,
{
    if n > 0 {
        lemma_sum_neg4(n - 1, a, b, c, d, g);
    }
}

impl Lattice {
    /// The total energy in units of the coupling constant: half the sum of
    /// the local energies of every site, which counts each bond once.
    pub fn calc_global_energy(&self) -> (r: i128)
        requires
            self.wf(),
        ensures
            r == global_energy_in(self.cells(), self.n_rows(), self.n_cols()),
            2 * r == local_sum(self.cells(), self.n_rows(), self.n_cols()),
    {
        proof {
            self.lemma_wf();
        }
        let rows = self.rows();
        let cols = self.cols();
        let ghost c = self.cells();
        let ghost (gr, gc) = (self.n_rows(), self.n_cols());
        let ghost row_sum = |y: int| row_local_sum(c, gr, gc, y);
        let mut acc: i128 = 0;
        let ghost mut done: int = 0;
        let mut y: usize = 0;
        while y < rows
            invariant
                self.wf(),
                c == self.cells(),
                row_sum == (|y: int| row_local_sum(c, gr, gc, y)),
                gr == rows,
                gc == cols,
                self.n_rows() == rows,
                self.n_cols() == cols,
                rows * cols <= isize::MAX,
                0 <= y <= rows,
                0 <= done <= y * cols,
                y * cols <= rows * cols,
                acc == sum_to(y as int, row_sum),
                -65536 * done <= acc <= 65536 * done,
            decreases rows - y,
        {
            proof {
                assert(y * cols + cols <= rows * cols) by (nonlinear_arith)
                    requires
                        y + 1 <= rows,
                ;
            }
            let mut x: usize = 0;
            while x < cols
                invariant
                    self.wf(),
                    c == self.cells(),
                    row_sum == (|y: int| row_local_sum(c, gr, gc, y)),
                    gr == rows,
                    gc == cols,
                    self.n_rows() == rows,
                    self.n_cols() == cols,
                    rows * cols <= isize::MAX,
                    0 <= y < rows,
                    0 <= x <= cols,
                    0 <= done <= y * cols + x,
                    y * cols + cols <= rows * cols,
                    acc == sum_to(y as int, row_sum) + row_prefix_sum(c, gr, gc, y as int, x as int),
                    -65536 * done <= acc <= 65536 * done,
                decreases cols - x,
            {
                let e = self.calc_local_energy((y, x));
                acc = acc + e as i128;
                proof {
                    done = done + 1;
                }
                x = x + 1;
            }
            proof {
                assert((y + 1) * cols == y * cols + cols) by (nonlinear_arith);
                assert(row_sum(y as int) == row_prefix_sum(c, gr, gc, y as int, cols as int));
                assert(sum_to(y + 1, row_sum) == sum_to(y as int, row_sum) + row_sum(y as int));
                assert((y + 2) * cols <= rows * cols || y + 1 == rows) by (nonlinear_arith)
                    requires
                        y + 1 <= rows,
                ;
            }
            y = y + 1;
        }
        proof {
            lemma_global_is_half_local_sum(c, gr, gc);
        }
        acc / 2
    }
}

} // verus!
