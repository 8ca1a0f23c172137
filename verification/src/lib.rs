//! A vector database: an exact flat index and an approximate HNSW index over
//! vectors with JSON payloads, filters, binary snapshots, and the collections
//! of a server around them.
//!
//! Numbers in floating point are held by their bit patterns (see [`float`]);
//! the operations that round are done by an arithmetic unit that the caller
//! passes in.

pub mod answer_laws;
pub mod api;
pub mod beam;
pub mod beam_laws;
pub mod bench;
pub mod candidate;
pub mod codec;
pub mod connect_laws;
pub mod cut_laws;
pub mod distance;
pub mod embed;
pub mod error;
pub mod filter_laws;
pub mod flat;
pub mod float;
pub mod format;
pub mod format_laws;
pub mod graph;
pub mod history;
pub mod hnsw;
pub mod hnsw_laws;
pub mod index;
pub mod insert_laws;
pub mod json;
pub mod laws;
pub mod layout_laws;
pub mod lifecycle;
pub mod link;
pub mod link_laws;
pub mod metric_laws;
pub mod number_laws;
pub mod payload;
pub mod persist;
pub mod random_laws;
pub mod record_laws;
pub mod records;
pub mod rng;
pub mod routes;
pub mod server_laws;
pub mod state;
pub mod text;
pub mod text_laws;
pub mod tidy_laws;
pub mod vector;
pub mod walk_laws;

pub use api::ApiError;
pub use beam::BeamStatus;
pub use codec::SnapshotError;
pub use distance::DistanceMetric;
pub use error::{Result, VexError};
pub use flat::FlatIndex;
pub use float::FloatOp;
pub use hnsw::{HnswConfig, HnswIndex, SearchTrace};
pub use index::{search_batch, Index, SearchResult};
pub use json::{Json, Payload};
pub use payload::Filter;
pub use persist::AnyIndex;
pub use state::{AppState, Collection};
pub use vector::{Vector, VectorId};
