//! Elevation-aware route planning over a road graph: OSM tag rules, graph
//! construction in compressed-sparse-row form with a spatial grid, elevation
//! tiles, a shortest-path search, and a budget-constrained planner.

pub mod builder;
pub mod csr;
pub mod dijkstra;
pub mod graph;
pub mod grid;
pub mod heap;
pub mod larac;
pub mod locator;
pub mod srtm;
pub mod tags;
