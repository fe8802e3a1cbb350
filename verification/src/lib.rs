//! Index sets and sampling stencils for truncated multivariate Taylor
//! expansions of a potential-energy surface.
//!
//! For `n` coordinates and a truncation order `m`, [`Taylor::new`] lists the
//! index tuples of the terms of the expansion: every row of `n` digits in
//! base `m` whose digit sum is below `m` and which the symmetry [`Checks`]
//! accept. [`Taylor::with_ranges`] does the same for checks of any number
//! of ranges. [`Taylor::disps`] derives the sample points at which the terms
//! are probed by central differences, and [`Taylor::exponents`] lays the
//! terms out as the exponent matrix of a least-squares fit.
//!
//! - [`digits`]: rows as numbers in base `m`, and the jump over rows whose
//!   digit sum is too large
//! - [`checks`]: the two symmetry checks and the rule that combines them
//! - [`expansion`]: the Taylor set and its enumeration
//! - [`stencil`]: offsets, their Cartesian products, the sample points of a
//!   row
//! - [`order`]: the lexicographic order of sample points, sorting
//! - [`displacements`]: the displacement set of a Taylor set
//! - [`fit`]: the integer side of the fit input
//! - [`symmetry`]: from irreducible representations to checks
//! - [`error`]: the reasons to turn an input down
pub mod checks;
pub mod digits;
pub mod displacements;
pub mod error;
pub mod expansion;
pub mod fit;
pub mod order;
pub mod stencil;
pub mod symmetry;

pub use checks::Checks;
pub use displacements::Disps;
pub use error::TaylorError;
pub use expansion::Taylor;
pub use fit::Exponents;
pub use symmetry::Irrep;
pub use symmetry::PointGroup;
