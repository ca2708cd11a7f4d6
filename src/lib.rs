//! Query-time core of a keyword search engine: posting-list intersection
//! inside index blocks, boolean and phrase narrowing, bounded top-k
//! collection and the block-by-block query walk.

pub mod postings;
pub mod intersect;
pub mod multi;
pub mod phrase;
pub mod collector;
pub mod filter;
pub mod executor;
pub mod documents;
