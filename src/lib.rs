//! A Metropolis sampler for the two-dimensional Ising model with open
//! boundaries. Spins are small integers; energies are counted in units of the
//! coupling constant, so every quantity here is exact.

mod grid;
pub mod energy;
pub mod lattice;
pub mod model;
pub mod trajectory;

pub use lattice::{IsingError, Lattice};
pub use model::{IsingModel, accepts_unconditionally, validate_run};
pub use trajectory::{parse_block, render_block};
