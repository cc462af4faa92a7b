//! Layout engine for train graphs (Marey diagrams): periodic schedule
//! unrolling, position-axis construction and polyline building, stated and
//! proved with Verus.
pub mod axis;
pub mod config;
pub mod edges;
pub mod error;
pub mod grid;
pub mod laws;
pub mod layout;
pub mod multimap_spec;
pub mod network;
pub mod time_text;
pub mod train;
pub mod types;
