//! A single agent finding its way over a rectangular tile grid, one tick at a
//! time.
//!
//! `grid` holds the tiles, `format` reads and draws them as text, `search`
//! is the incremental frontier search and `environment` the simulation that
//! lets the search advise one move per tick. The other modules state and
//! prove what holds of them: `grid_laws` of the grid and of distances,
//! `run_laws` of runs in general, `progress` that a goal in reach is reached,
//! `termination` that every run comes to rest.

pub mod coord;
pub mod action;
pub mod grid;
pub mod format;
pub mod search;
pub mod environment;
pub mod grid_laws;
pub mod run_laws;
pub mod progress;
pub mod termination;
