//! Roadline: a verified representation of task roadmaps.
//!
//! Tasks reference each other through dependencies; the library checks that
//! the dependency graph is acyclic, places every task in time (the range
//! algebra), discretises the placement into a grid of time units and lanes
//! (the grid algebra), and finally reifies the grid into visual coordinates.

pub mod ids;
pub mod id_map;
pub mod time;
pub mod task;
pub mod arena;
pub mod graph;
pub mod traversal;
pub mod analysis;
pub mod range_algebra;
pub mod stretch;
pub mod grid_algebra;
pub mod reified;
pub mod roadline;
pub mod text;
pub mod github_url;
pub mod fragment;
pub mod github_client;
pub mod selection;
