//! The scope of a crawl and the filter that decides which links it follows.
use vstd::prelude::*;
use crate::text::{contains, text_contains, text_eq};
use crate::url_rules::{get_base_domain, get_base_path, seed_anchor, seed_domain, CrawlError};

verus! {

/// The domain and path anchor that restrict which links a crawl follows.
/// Both are derived once from the seed URL and never change afterwards.
pub struct Scope {
    pub domain: String,
    pub base_path: String,
}

/// Whether `candidate`, found on the page at `current`, may be followed.
///
/// Both checks are plain substring tests: a URL that holds the domain or the
/// anchor anywhere (in its query, say) passes them, and the anchor `"/"`
/// admits every URL.
pub open spec fn eligible(
    candidate: Seq<char>,
    current: Seq<char>,
    domain: Seq<char>,
    anchor: Seq<char>,
) -> bool {
    &&& contains(candidate, domain)
    &&& candidate != current
    &&& contains(candidate, anchor)
}

impl Scope {
    /// Derives the scope of a crawl from its seed URL.
    pub fn from_seed(seed: &str) -> (r: Result<Scope, CrawlError>)
        ensures
            match r {
                Ok(s) => seed_domain(seed@) == Some(s.domain@) && seed_anchor(seed@) == Some(
                    s.base_path@,
                ),
                Err(e) => seed_domain(seed@) is None && e == CrawlError::MalformedBaseUrl,
            },
    {
        let domain = get_base_domain(seed)?;
        let base_path = get_base_path(seed)?;
        Ok(Scope { domain, base_path })
    }

    /// Whether `candidate`, found on the page at `current`, may be followed.
    pub fn in_scope(&self, candidate: &str, current: &str) -> (r: bool)
        ensures
            r == eligible(candidate@, current@, self.domain@, self.base_path@),
    {
        text_contains(candidate, self.domain.as_str()) && !text_eq(candidate, current)
            && text_contains(candidate, self.base_path.as_str())
    }
}

} // verus!
