//! An embeddable vector store with an approximate nearest-neighbour index in
//! the style of HNSW (hierarchical navigable small-world graphs).
//!
//! Coordinates are fixed-point integers (`UNIT` stands for 1.0) and distances
//! are exact squared Euclidean distances, so every ordering the index relies
//! on is total and deterministic.

mod entropy;
pub mod codec;
pub mod collection;
pub mod graph;
pub mod node;
pub mod routes;
pub mod search;
pub mod vector;
pub mod visited;

pub use collection::{Collection, Config, Record, Stats, DEFAULT_EF_CONSTRUCTION, DEFAULT_EF_SEARCH};
pub use graph::{layer_of, Error, Index, MAX_LAYER};
pub use node::{BaseNode, LayerID, NearestIter, UpperNode, BASE_SLOTS, M};
pub use routes::{authorize, route, Route};
pub use search::{Candidate, Layer, Search, SearchPool};
pub use vector::{Vector, VectorID, SENTINEL, UNIT};
pub use visited::Visited;
