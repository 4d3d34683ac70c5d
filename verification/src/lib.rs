//! Least-time descent between two grid points under gravity, found by
//! dynamic programming over a fixed catalogue of displacements.
//!
//! Times are whole ticks. The caller tabulates the time of each transition in
//! a [`CostTable`]; [`Brachistochrone::solve`] fills a [`ValueTable`] by
//! backward induction from the goal, and [`Brachistochrone::path_iter`] walks
//! the table forward from a starting point.

pub mod cost;
pub mod dense;
pub mod grid;
pub mod optimality;
pub mod path;
pub mod recurrence;
pub mod solver;
pub mod table;

pub use cost::CostTable;
pub use grid::{action, action_set, time_horizon, Displacement, GridPoint, ACTION_COUNT};
pub use path::PathIter;
pub use solver::{Brachistochrone, SetupError};
pub use table::{Cell, ValueTable};
