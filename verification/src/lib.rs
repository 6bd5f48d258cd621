//! Indexing and aggregation over a tag-annotated collection of posts.
//!
//! The crate normalizes decoded tag and post records into keyed tables,
//! builds the inverted index from tags to the posts that carry them, and
//! derives per-tag statistics: the most frequent co-occurring tags, score
//! totals for averaging, and monthly post counts.

pub mod index;
pub mod ingest;
pub mod model;
pub mod ranking;
pub mod rearrange;
pub mod score;
pub mod store;
pub mod text;
pub mod timeline;
