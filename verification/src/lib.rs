//! Structural metrics of a directed graph given as an adjacency map: the
//! breadth-first distance map of a source, the mean shortest-path length
//! over the ordered pairs of vertices joined by a walk, and the diameter.
//!
//! * [`graph`] is the mathematical model: edges, walks, reachability and
//!   shortest-path distance.
//! * [`bfs`] computes the distance map of one source.
//! * [`metrics`] sweeps all sources and reports the two metrics.
//! * [`edge_list`] reads the edge-list text format into an adjacency map.
//! * [`sums`] and [`laws`] hold the sums the metrics are stated with and
//!   what is proved of the metrics on graphs without edges and on chains.

pub mod bfs;
pub mod edge_list;
pub mod graph;
pub mod laws;
pub mod metrics;
pub mod sums;

pub use bfs::bfs;
pub use edge_list::{parse_edge_list, ParseError, ParseErrorKind};
pub use metrics::{
    compute_avg_shortest_path_length, compute_diameter, sweep, test_compute_diameter,
    AggregateCounters, AverageDistance,
};
