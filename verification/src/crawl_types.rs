//! The value types the crawl database speaks: domains, URLs, per-entity
//! states, and the job contracts exchanged with the external executor.

use vstd::prelude::*;
use vstd::string::StrSliceExecFns;

verus! {

/// The host-level grouping key for URLs.
#[derive(Debug, Clone, PartialEq, Eq, Hash)]
pub struct Domain {
    pub name: String,
}

impl View for Domain {
    type V = Seq<char>;

    open spec fn view(&self) -> Seq<char> {
        self.name@
    }
}

impl Domain {
    /// A domain from its host text.
    pub fn new(name: String) -> (r: Domain)
        ensures
            r@ == name@,
    {
        Domain { name }
    }
}

/// A full URL, treated as an opaque immutable key.
#[derive(Debug, Clone, PartialEq, Eq, Hash)]
pub struct Url {
    pub full: String,
}

impl View for Url {
    type V = Seq<char>;

    open spec fn view(&self) -> Seq<char> {
        self.full@
    }
}

impl Url {
    /// A URL from its text.
    pub fn new(full: String) -> (r: Url)
        ensures
            r@ == full@,
    {
        Url { full }
    }
}

/// The UTF-8 bytes of a URL's text.
pub fn url_bytes(u: &Url) -> (r: Vec<u8>)
    ensures
        r@ == vstd::utf8::encode_utf8(u@),
{
    u.full.as_str().as_bytes_vec()
}

/// The views of a row of URLs, in order.
pub open spec fn url_views(s: Seq<Url>) -> Seq<Seq<char>> {
    s.map_values(|u: Url| u@)
}

/// Where a URL stands in its crawl lifecycle.
#[derive(Debug, Clone, Copy, PartialEq, Eq)]
pub enum UrlStatus {
    Pending,
    Crawling,
    Failed { status_code: Option<u16> },
    Done,
}

/// Where a domain stands in the current scheduling round.
#[derive(Debug, Clone, Copy, PartialEq, Eq)]
pub enum DomainStatus {
    Pending,
    CrawlInProgress,
}

/// A domain's compact identifier.
#[derive(Debug, Clone, Copy, PartialEq, Eq, Hash, PartialOrd, Ord, Structural)]
pub struct DomainId(pub u64);

/// A URL's compact identifier.
#[derive(Debug, Clone, Copy, PartialEq, Eq, Hash, PartialOrd, Ord, Structural)]
pub struct UrlId(pub u64);

/// Scheduling state of one URL, grouped under its parent domain.
#[derive(Debug, Clone, Copy)]
pub struct UrlState {
    pub weight: u64,
    pub status: UrlStatus,
}

/// Scheduling state of one domain.
#[derive(Debug, Clone, Copy)]
pub struct DomainState {
    pub weight: u64,
    pub status: DomainStatus,
}

/// A unit of crawl work handed to the external executor: one domain and a
/// bounded batch of its URLs.
#[derive(Debug, Clone)]
pub struct Job {
    pub domain: Domain,
    pub fetch_sitemap: bool,
    pub urls: std::collections::VecDeque<Url>,
}

/// The outcome the executor reports for one URL.
#[derive(Debug, Clone)]
pub enum UrlResponse {
    Success { url: Url },
    Failed { url: Url, status_code: Option<u16> },
    Redirected { url: Url, new_url: Url },
}

/// Everything the executor reports back for one job.
#[derive(Debug, Clone)]
pub struct JobResponse {
    pub domain: Domain,
    pub discovered_urls: Vec<Url>,
    pub url_responses: Vec<UrlResponse>,
}

} // verus!
