//! A breadth-first web crawler core: a frontier/visited-set engine that yields
//! each reachable page at most once, absorbing per-page failures, together
//! with the response-validation and link-extraction logic around it.

pub mod engine;
pub mod fetch;
pub mod generators;
pub mod page;
pub mod urls;
