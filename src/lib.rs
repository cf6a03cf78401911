//! Closure crawling over an incrementally discovered build graph, together with
//! the small identifier types (advisories, packages) that surround it.

pub mod text;
pub mod drv;
pub mod crawl;
pub mod batch;
pub mod advisory;
pub mod package;
pub mod branch;
pub mod fixtures;
pub mod tracker;
