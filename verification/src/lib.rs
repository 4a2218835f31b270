//! Path finding on a two-dimensional tile grid: a time-sliced bidirectional
//! weighted A* search, a coarse-to-fine variant of it, and a one-step walker
//! for units that ignore terrain.
//!
//! - [`grid`]: tile addressing, cost, navigability, neighbours.
//! - [`frontier`]: one direction of a search, with its queue of waiting
//!   tiles, its costs and its parents.
//! - [`astar`]: the bidirectional search.
//! - [`open_grid`]: how soon that search is complete where every tile is
//!   navigable and costs one unit.
//! - [`mini`]: the search on a grid of half the resolution, and the way back
//!   to the full grid.
//! - [`air`]: the one-step walker.
//! - [`outcome`]: what a slice of search work reports.
//! - [`open_set`]: the priority queue of the `priority_queue` crate, with
//!   what is taken on trust of it.
//!
//! Costs are whole numbers of thousandths of a unit. Every function is
//! verified against its contract, but for the few in [`open_set`], whose
//! contracts state what the queue's code does.
pub mod air;
pub mod astar;
pub mod frontier;
pub mod grid;
pub mod mini;
pub mod open_grid;
pub mod open_set;
pub mod outcome;

pub use air::AirPathFinderWasm;
pub use astar::SerialAStarWasm;
pub use grid::Point;
pub use grid::WasmGameMap;
pub use grid::COST_SCALE;
pub use mini::MiniAStarWasm;
pub use outcome::PathFindResultType;
