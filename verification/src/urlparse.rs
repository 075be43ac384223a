//! Host extraction, backed by the `url` crate.
//!
//! The crawl database groups URLs by the domain that serves them. What the
//! host of a URL is, is decided by the `url` parser; the result is a function
//! of the URL text alone, so the contracts speak of it by name.

use vstd::prelude::*;

verus! {

/// The domain under which a URL is grouped: its host component, or the URL
/// text itself where no host can be parsed.
pub uninterp spec fn domain_of(url: Seq<char>) -> Seq<char>;

/// Relies on url::Url::parse and url::Url::host_str: parsing is a pure
/// function of the text, and the host is a component of the parsed URL.
#[verifier::external_body]
pub(crate) fn domain_text_of(url: &String) -> (r: String)
    ensures
        r@ == domain_of(url@),
{
    match url::Url::parse(url.as_str()) {
        Ok(parsed) => match parsed.host_str() {
            Some(host) => host.to_string(),
            None => url.clone(),
        },
        Err(_) => url.clone(),
    }
}

} // verus!
