use vstd::prelude::*;
use crate::lattice::{IsingError, Lattice, flip_cells, flippable, lemma_index_bounds, lemma_index_injective};
use rand::rngs::StdRng;

verus! {

#[verifier::external_type_specification]
#[verifier::external_body]
pub struct ExStdRng(rand::rngs::StdRng);

/// The generator seeded with 32 bytes equal to `seed_value`.
pub uninterp spec fn seeded(seed_value: u8) -> StdRng;

/// The index that a generator in state `g` draws from `[0, n)`.
pub uninterp spec fn drawn_index(g: StdRng, n: usize) -> usize;

/// The state of a generator in state `g` after it drew an index from `[0, n)`.
pub uninterp spec fn after_index_draw(g: StdRng, n: usize) -> StdRng;

/// The outcome of a generator in state `g` drawing `true` with probability
/// `numerator / denominator`.
pub uninterp spec fn drawn_ratio(g: StdRng, numerator: u32, denominator: u32) -> bool;

/// The state of a generator in state `g` after that draw.
pub uninterp spec fn after_ratio_draw(g: StdRng, numerator: u32, denominator: u32) -> StdRng;

/// Relies on `rand::SeedableRng::from_seed` for `StdRng`: a generator whose
/// whole stream is fixed by the 32-byte seed, here every byte `seed_value`.
#[verifier::external_body]
fn seeded_rng(seed_value: u8) -> (r: StdRng)
    ensures
        r == seeded(seed_value),
{
    rand::SeedableRng::from_seed([seed_value; 32])
}

/// Relies on `rand::distributions::Uniform::new(0, n)` and its `sample`: an
/// index drawn uniformly from `[0, n)`. `StdRng` is deterministic, so the
/// index and the generator's next state depend on its state and `n` alone.
/// `Uniform::new` panics when `n == 0`.
#[verifier::external_body]
fn draw_index(rng: &mut StdRng, n: usize) -> (r: usize)
    requires
        n > 0,
    ensures
        r < n,
        r == drawn_index(*old(rng), n),
        *final(rng) == after_index_draw(*old(rng), n),
{
    rand::distributions::Distribution::sample(&rand::distributions::Uniform::new(0usize, n), rng)
}

/// Relies on `rand::Rng::gen_ratio`: `true` with probability
/// `numerator / denominator`, always `false` for a zero numerator and always
/// `true` when the two are equal. The outcome and the generator's next state
/// depend on its state and the ratio alone. It panics when
/// `numerator > denominator` or `denominator == 0`.
#[verifier::external_body]
fn draw_ratio(rng: &mut StdRng, numerator: u32, denominator: u32) -> (r: bool)
    requires
        0 < denominator,
        numerator <= denominator,
    ensures
        numerator == 0 ==> !r,
        numerator == denominator ==> r,
        r == drawn_ratio(*old(rng), numerator, denominator),
        *final(rng) == after_ratio_draw(*old(rng), numerator, denominator),
{
    rand::Rng::gen_ratio(rng, numerator, denominator)
}

/// The generator state after `k` fair coin draws from state `g`.
pub open spec fn coin_stream(g: StdRng, k: nat) -> StdRng
    decreases k,
{
    if k == 0 {
        g
    } else {
        after_ratio_draw(coin_stream(g, (k - 1) as nat), 1, 2)
    }
}

/// The `k`-th fair coin (counting from zero) drawn from state `g`.
pub open spec fn coin(g: StdRng, k: nat) -> bool {
    drawn_ratio(coin_stream(g, k), 1, 2)
}

/// A lattice together with the seeded random stream that drives it.
pub struct IsingModel {
    grid: Lattice,
    /// The random stream. Every draw of a run comes from it, in the order the
    /// sampler makes them.
    pub rng: StdRng,
}

impl IsingModel {
    pub closed spec fn lattice(&self) -> Lattice {
        self.grid
    }

    /// The state of the random stream.
    pub closed spec fn stream(&self) -> StdRng {
        self.rng
    }

    pub open spec fn wf(&self) -> bool {
        self.lattice().wf()
    }

    /// A zero-filled model of the given shape whose stream is seeded with 32
    /// bytes equal to `seed_value`.
    pub fn new(shape: Vec<usize>, seed_value: u8) -> (r: Result<IsingModel, IsingError>)
        ensures
            shape@.len() == 2 && shape@[0] > 0 && shape@[1] > 0 && shape@[0] * shape@[1]
                <= isize::MAX <==> r is Ok,
            r is Err ==> r == Err::<IsingModel, IsingError>(IsingError::InvalidShape),
            r matches Ok(m) ==> {
                &&& m.wf()
                &&& m.lattice().n_rows() == shape@[0]
                &&& m.lattice().n_cols() == shape@[1]
                &&& m.lattice().cells() == Seq::new((shape@[0] * shape@[1]) as nat, |i: int| 0i8)
                &&& m.stream() == seeded(seed_value)
            },
    {
        match Lattice::new(shape) {
            Ok(grid) => Ok(IsingModel { grid, rng: seeded_rng(seed_value) }),
            Err(e) => Err(e),
        }
    }

    pub fn lattice_ref(&self) -> (r: &Lattice)
        ensures
            *r == self.lattice(),
    {
        &self.grid
    }
    /// Sets every site `(y, x)`, row by row, to `f((y, x))`.
    pub fn assign_map<F: Fn((usize, usize)) -> i8>(&mut self, f: F)
        requires
            old(self).wf(),
            forall|y: usize, x: usize|
                old(self).lattice().in_bounds(y as int, x as int) ==> #[trigger] f.requires(((y, x),)),
            forall|p: (usize, usize), v: i8| #[trigger] f.ensures((p,), v) ==> flippable(v),
        ensures
            final(self).wf(),
            final(self).lattice().n_rows() == old(self).lattice().n_rows(),
            final(self).lattice().n_cols() == old(self).lattice().n_cols(),
            forall|y: usize, x: usize|
                final(self).lattice().in_bounds(y as int, x as int) ==> f.ensures(
                    ((y, x),),
                    #[trigger] final(self).lattice().spin(y as int, x as int),
                ),
            final(self).stream() == old(self).stream(),
    {
        let ghost s0 = self.stream();
        let rows = self.grid.rows();
        let cols = self.grid.cols();
        proof {
            self.grid.lemma_wf();
        }
        let mut y: usize = 0;
        while y < rows
            invariant
                self.wf(),
                self.stream() == s0,
                self.lattice().n_rows() == rows,
                self.lattice().n_cols() == cols,
                self.lattice().cells().len() == rows * cols,
                0 <= y <= rows,
                cols > 0,
                y * cols <= rows * cols,
                forall|y: usize, x: usize| y < rows && x < cols ==> #[trigger] f.requires(((y, x),)),
                forall|p: (usize, usize), v: i8| #[trigger] f.ensures((p,), v) ==> flippable(v),
                forall|yy: usize, xx: usize|
                    yy < rows && xx < cols && yy * cols + xx < y * cols ==> f.ensures(
                        ((yy, xx),),
                        #[trigger] self.lattice().spin(yy as int, xx as int),
                    ),
            decreases rows - y,
        {
            let mut x: usize = 0;
            while x < cols
                invariant
                    self.wf(),
                    self.stream() == s0,
                self.lattice().n_rows() == rows,
                    self.lattice().n_cols() == cols,
                    self.lattice().cells().len() == rows * cols,
                    0 <= y < rows,
                    0 <= x <= cols,
                    cols > 0,
                    forall|y: usize, x: usize| y < rows && x < cols ==> #[trigger] f.requires(((y, x),)),
                    forall|p: (usize, usize), v: i8| #[trigger] f.ensures((p,), v) ==> flippable(v),
                    forall|yy: usize, xx: usize|
                        yy < rows && xx < cols && yy * cols + xx < y * cols + x ==> f.ensures(
                            ((yy, xx),),
                            #[trigger] self.lattice().spin(yy as int, xx as int),
                        ),
                decreases cols - x,
            {
                let v = f((y, x));
                proof {
                    lemma_index_bounds(y as int, x as int, rows as int, cols as int);
                }
                let ghost old_lattice = self.lattice();
                let ghost before = self.lattice().cells();
                let _ = self.grid.set(y, x, v);
                proof {
                    self.grid.lemma_wf();
                    let c = self.lattice().cells();
                    assert forall|yy: usize, xx: usize|
                        yy < rows && xx < cols && yy * cols + xx < y * cols + x + 1 implies f.ensures(
                            ((yy, xx),),
                            #[trigger] self.lattice().spin(yy as int, xx as int),
                        ) by {
                        if yy * cols + xx < y * cols + x {
                            lemma_index_bounds(yy as int, xx as int, rows as int, cols as int);
                            assert(c[yy * cols + xx] == before[yy * cols + xx]);
                            assert(f.ensures(((yy, xx),), old_lattice.spin(yy as int, xx as int)));
                        } else {
                            assert(yy * cols + xx == y * cols + x);
                            if yy != y || xx != x {
                                lemma_index_injective(yy as int, xx as int, y as int, x as int, rows as int, cols as int);
                            }
                            assert(self.lattice().spin(y as int, x as int) == v);
                        }
                    }
                }
                x = x + 1;
            }
            proof {
                assert(y * cols + cols == (y + 1) * cols) by (nonlinear_arith);
                assert((y + 1) * cols <= rows * cols) by (nonlinear_arith)
                    requires
                        y + 1 <= rows,
                        cols > 0,
                ;
            }
            y = y + 1;
        }
        proof {
            assert forall|yy: usize, xx: usize| yy < rows && xx < cols implies f.ensures(
                ((yy, xx),),
                #[trigger] self.lattice().spin(yy as int, xx as int),
            ) by {
                lemma_index_bounds(yy as int, xx as int, rows as int, cols as int);
            }
        }
    }

    /// Sets every site, row by row, to `f(p)`, where `p` is a fair coin
    /// drawn from the stream.
    pub fn init<F: Fn(bool) -> i8>(&mut self, f: F)
        requires
            old(self).wf(),
            forall|p: bool| #[trigger] f.requires((p,)),
            forall|p: bool, v: i8| #[trigger] f.ensures((p,), v) ==> flippable(v),
        ensures
            final(self).wf(),
            final(self).lattice().n_rows() == old(self).lattice().n_rows(),
            final(self).lattice().n_cols() == old(self).lattice().n_cols(),
            forall|i: int|
                0 <= i < final(self).lattice().cells().len() ==> f.ensures(
                    (coin(old(self).stream(), i as nat),),
                    #[trigger] final(self).lattice().cells()[i],
                ),
            final(self).stream() == coin_stream(old(self).stream(), final(self).lattice().cells().len()),
    {
        let ghost s0 = self.stream();
        let rows = self.grid.rows();
        let cols = self.grid.cols();
        proof {
            self.grid.lemma_wf();
        }
        let mut y: usize = 0;
        while y < rows
            invariant
                self.wf(),
                forall|p: bool| #[trigger] f.requires((p,)),
                forall|p: bool, v: i8| #[trigger] f.ensures((p,), v) ==> flippable(v),
                self.lattice().n_rows() == rows,
                self.lattice().n_cols() == cols,
                self.lattice().cells().len() == rows * cols,
                0 <= y <= rows,
                cols > 0,
                y * cols <= rows * cols,
                forall|i: int|
                    0 <= i < y * cols ==> f.ensures((coin(s0, i as nat),), #[trigger] self.lattice().cells()[i]),
                self.stream() == coin_stream(s0, (y * cols) as nat),
            decreases rows - y,
        {
            let mut x: usize = 0;
            while x < cols
                invariant
                    self.wf(),
                    forall|p: bool| #[trigger] f.requires((p,)),
                    forall|p: bool, v: i8| #[trigger] f.ensures((p,), v) ==> flippable(v),
                    self.lattice().n_rows() == rows,
                    self.lattice().n_cols() == cols,
                    self.lattice().cells().len() == rows * cols,
                    0 <= y < rows,
                    0 <= x <= cols,
                    cols > 0,
                    forall|i: int|
                        0 <= i < y * cols + x ==> f.ensures((coin(s0, i as nat),), #[trigger] self.lattice().cells()[i]),
                    self.stream() == coin_stream(s0, (y * cols + x) as nat),
                decreases cols - x,
            {
                let p = draw_ratio(&mut self.rng, 1, 2);
                let v = f(p);
                proof {
                    lemma_index_bounds(y as int, x as int, rows as int, cols as int);
                }
                let ghost before = self.lattice().cells();
                let _ = self.grid.set(y, x, v);
                proof {
                    self.grid.lemma_wf();
                    let c = self.lattice().cells();
                    assert(self.stream() == coin_stream(s0, (y * cols + x + 1) as nat));
                    assert forall|i: int| 0 <= i < y * cols + x + 1 implies f.ensures((coin(s0, i as nat),), #[trigger] c[i]) by {
                        if i < y * cols + x {
                            assert(c[i] == before[i]);
                        }
                    }
                }
                x = x + 1;
            }
            proof {
                assert(y * cols + cols == (y + 1) * cols) by (nonlinear_arith);
                assert((y + 1) * cols <= rows * cols) by (nonlinear_arith)
                    requires
                        y + 1 <= rows,
                        cols > 0,
                ;
            }
            y = y + 1;
        }
    }

    /// Draws a site uniformly: its column first, then its row. Returns it as
    /// `(y, x)`.
    pub fn propose(&mut self) -> (r: (usize, usize))
        requires
            old(self).wf(),
        ensures
            final(self).lattice() == old(self).lattice(),
            final(self).lattice().in_bounds(r.0 as int, r.1 as int),
            r.1 == drawn_index(old(self).stream(), old(self).lattice().n_cols() as usize),
            r.0 == drawn_index(
                after_index_draw(old(self).stream(), old(self).lattice().n_cols() as usize),
                old(self).lattice().n_rows() as usize,
            ),
            final(self).stream() == after_index_draw(
                after_index_draw(old(self).stream(), old(self).lattice().n_cols() as usize),
                old(self).lattice().n_rows() as usize,
            ),
    {
        proof {
            self.grid.lemma_wf();
        }
        let x = draw_index(&mut self.rng, self.grid.cols());
        let y = draw_index(&mut self.rng, self.grid.rows());
        (y, x)
    }

    /// The energy of the bonds touching `point`, in units of the coupling
    /// constant.
    pub fn calc_local_energy(&self, point: (usize, usize)) -> (r: i64)
        requires
            self.wf(),
            self.lattice().in_bounds(point.0 as int, point.1 as int),
        ensures
            r == self.lattice().local_energy_spec(point.0 as int, point.1 as int),
    {
        self.grid.calc_local_energy(point)
    }

    /// The energy change of flipping the spin at `point`, in units of the
    /// coupling constant.
    pub fn flip_delta(&self, point: (usize, usize)) -> (r: i64)
        requires
            self.wf(),
            self.lattice().in_bounds(point.0 as int, point.1 as int),
        ensures
            r == self.lattice().flip_delta_spec(point.0 as int, point.1 as int),
            r == -2 * self.lattice().local_energy_spec(point.0 as int, point.1 as int),
    {
        self.grid.flip_delta(point)
    }

    /// Ends a step at `point`: flips the spin there when the move was
    /// accepted, else leaves the lattice as it was.
    pub fn commit(&mut self, point: (usize, usize), accepted: bool)
        requires
            old(self).wf(),
            old(self).lattice().in_bounds(point.0 as int, point.1 as int),
        ensures
            final(self).wf(),
            final(self).lattice().n_rows() == old(self).lattice().n_rows(),
            final(self).lattice().n_cols() == old(self).lattice().n_cols(),
            accepted ==> final(self).lattice().cells() == flip_cells(
                old(self).lattice().cells(),
                old(self).lattice().n_cols(),
                point.0 as int,
                point.1 as int,
            ),
            !accepted ==> final(self).lattice() == old(self).lattice(),
            final(self).stream() == old(self).stream(),
    {
        if accepted {
            self.grid.flip(point);
        }
    }
}

/// Whether a move is accepted without an acceptance draw. The energy change
/// is `J * delta_units`, where `coupling_sign` is the sign of `J` (`-1`, `0`
/// or `1`); a change that does not raise the energy is always accepted.
pub fn accepts_unconditionally(delta_units: i64, coupling_sign: i8) -> (r: bool)
    requires
        -1 <= coupling_sign <= 1,
    ensures
        r == (coupling_sign * delta_units <= 0),
{
    proof {
        if coupling_sign == 1 {
            assert(coupling_sign * delta_units == delta_units);
        } else if coupling_sign == -1 {
            assert(coupling_sign * delta_units == -delta_units);
        } else {
            assert(coupling_sign * delta_units == 0);
        }
    }
    if coupling_sign == 0 || delta_units == 0 {
        true
    } else if coupling_sign > 0 {
        delta_units < 0
    } else {
        delta_units > 0
    }
}

/// Checks a run's configuration before any work: the lattice side and the
/// number of iterations must both be positive.
pub fn validate_run(lattice_size: usize, num_iterations: usize) -> (r: Result<(), IsingError>)
    ensures
        r is Ok <==> lattice_size > 0 && num_iterations > 0,
        r is Err ==> r == Err::<(), IsingError>(IsingError::InvalidConfiguration),
{
    if lattice_size == 0 || num_iterations == 0 {
        Err(IsingError::InvalidConfiguration)
    } else {
        Ok(())
    }
}

} // verus!
