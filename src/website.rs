use vstd::prelude::*;
use crate::error::ApiError;

verus! {

/// A monitored endpoint: its URL and the alias that identifies it.
#[derive(Clone, Debug, PartialEq, Eq)]
pub struct Website {
    pub url: String,
    pub alias: String,
}

/// Whether the URL parser accepts `s` as an absolute URL.
pub uninterp spec fn url_accepted(s: Seq<char>) -> bool;

/// Relies on validator's `validate_url`, which reports whether `url::Url::parse`
/// accepts the text; the answer depends on the text alone.
#[verifier::external_body]
fn url_is_valid(s: &String) -> (r: bool)
    ensures
        r == url_accepted(s@),
{
    validator::validate_url(s.as_str())
}

impl Website {
    pub fn new(url: String, alias: String) -> (r: Website)
        ensures
            r.url == url,
            r.alias == alias,
    {
        Website { url, alias }
    }
}

/// Checks a site before it is stored: the URL must be an absolute, well-formed
/// URL; the alias is not constrained here.
pub fn validate_website(site: &Website) -> (r: Result<(), ApiError>)
    ensures
        r is Ok <==> url_accepted(site.url@),
        r is Err ==> r == Err::<(), ApiError>(ApiError::Validation),
{
    if url_is_valid(&site.url) {
        Ok(())
    } else {
        Err(ApiError::Validation)
    }
}

/// Monthly aggregation is not offered.
pub fn get_monthly_stats(alias: &str) -> (r: Result<Vec<crate::stats::WebsiteStats>, ApiError>)
    ensures
        r == Err::<Vec<crate::stats::WebsiteStats>, ApiError>(ApiError::NotSupported),
{
    Err(ApiError::NotSupported)
}

} // verus!
