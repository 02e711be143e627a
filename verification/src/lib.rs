//! A site-local dead-link checker: the crawl engine, its report, link
//! extraction from tokenized markup and URL normalization.

pub mod engine;
pub mod extract;
pub mod fetch;
pub mod guarantees;
pub mod normalize;
pub mod report;
