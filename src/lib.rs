//! Topological sorting of directed graphs read from edge lists, by Kahn's
//! algorithm, with detection of the edges left over by cycles.

pub mod graph;
pub mod loader;
pub mod registry;
pub mod summary;
pub mod text;
pub mod topo;

pub use graph::{Edge, Graph};
pub use loader::LoadError;
pub use registry::{Node, NodeRegistry};
pub use summary::to_string;
pub use text::first_two_tokens;
pub use topo::{residue_listing, topo_sort, SortOutcome, RESIDUE_LIST_LIMIT};
