//! A directed line graph ("digle") with tombstoned lines, the ordered multimap
//! it is stored in, and graph algorithms over it.

pub mod adjacency;
pub mod dfs;
pub mod digle;
pub mod graph;
pub mod line;
pub mod multimap;
pub mod ordset;
pub mod scc;

pub use adjacency::ListGraph;
pub use dfs::{dfs, Status, Visit};
pub use digle::{Digle, DigleData, DigleModel, DigleMut, DigleParts, Edge};
pub use graph::{linear_order, top_sort, GraphRef, NodeFiltered};
pub use line::{LineId, PatchId, Present, Ranked};
pub use multimap::MMap;
pub use ordset::OrdSet;
pub use scc::{decompose, Decomposition};
