//! Streams of commit ancestors.

pub mod ancestorscombinators;
pub mod asking;
pub mod descent;
pub mod exclusion;
pub mod graph;
pub mod history;
pub mod interface;
pub mod laws;
pub mod node_frontier;
pub mod node_stream;
pub mod pending;
pub mod progress;
pub mod runs;
pub mod schedule;
pub mod stream_view;
pub mod types;
pub mod unique_heap;
pub mod walk;

pub use ancestorscombinators::{DifferenceOfUnionsOfAncestorsNodeStream, Excluded, Polled};
pub use node_frontier::NodeFrontier;
pub use node_stream::{BonsaiNodeStream, Source};
pub use pending::{make_pending, PendingChangesets, Query, StreamError};
pub use types::{ChangesetId, Generation, MAX_GEN};
pub use unique_heap::UniqueHeap;
