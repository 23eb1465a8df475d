//! A small search-engine core: a crawl scheduler with at-most-once dispatch,
//! a link graph, a fixed-point authority (PageRank-style) scorer, a TF-IDF
//! relevance scorer combined into a scored index, ranked query evaluation,
//! and a round-tripping serialization codec for the index.
//!
//! All scores are fixed-point integers scaled by [`fixed::SCALE`]; one unit
//! of authority mass is `1 / SCALE`.

pub mod codec;
pub mod fixed;
pub mod graph;
pub mod index;
pub mod pagerank;
pub mod pipeline;
pub mod scheduler;
pub mod scoring;
pub mod terms;
pub mod text;

use vstd::prelude::*;

verus! {

} // verus!
