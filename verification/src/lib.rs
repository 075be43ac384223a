//! Coordination core of a distributed web crawler.
//!
//! The crate tracks which domains and URLs are known, assigns each a compact
//! numeric identifier backed by an embedded key-value store, keeps per-domain
//! and per-URL crawl state, and selects the next round of work by weighted
//! reservoir sampling.

use vstd::prelude::*;

pub mod cache;
pub mod codec;
pub mod crawl_db;
pub mod crawl_types;
pub mod fastfield;
pub mod id_table;
pub mod redirect;
pub mod rng;
pub mod sampler;
pub mod slop;
pub mod store;
pub mod subdomain;
pub mod text;
pub mod urlparse;
pub mod vecmap;

verus! {

/// What can go wrong inside the crawl-state store: a failure of the backing
/// store, or a record that does not decode. Lookups that merely miss return
/// an empty result instead.
#[derive(Debug)]
pub enum CrawlDbError {
    Storage(String),
    Serialization(String),
}

/// General error cases surfaced by the wider system.
#[derive(Debug)]
pub enum Error {
    WarcParse(&'static str),
    EmptyField(&'static str),
    ParsingError(String),
    DownloadFailed,
    EmptyQuery,
    UnknownRegion,
    UnknownCLIOption,
    InvalidStackoverflowSchema,
    InternalError(String),
    UnknownRobotsMetaTag,
}

} // verus!
