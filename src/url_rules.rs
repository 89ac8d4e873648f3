//! URL parsing (through the `url` crate), normalization of hyperlink
//! references, and the two parts of a crawl's scope derived from its seed.
use vstd::prelude::*;
use vstd::string::StrSliceExecFns;
use vstd::string::StringExecFns;
use crate::text::{
    chars_of, last_segment, starts_with, text_starts_with, trim_end_slashes,
    trim_trailing_slashes, trimmed_len,
};

verus! {

/// What `url::Url::parse` makes of a string: `None` when it is not an
/// absolute URL, else its scheme, its host (if any) and its path.
pub uninterp spec fn parsed_url(s: Seq<char>) -> Option<(Seq<char>, Option<Seq<char>>, Seq<char>)>;

/// The failures a crawl can meet.
#[derive(Debug, Clone, Copy, PartialEq, Eq, Structural)]
pub enum CrawlError {
    /// A URL could not be parsed where normalization or scope derivation needed it.
    MalformedBaseUrl,
    /// A page could not be fetched.
    FetchFailure,
    /// A page body could not be scanned for links.
    ExtractionFailure,
}

/// The components of a parsed URL that the crawl reads.
pub struct UrlParts {
    pub scheme: String,
    pub host: Option<String>,
    pub path: String,
}

/// The characters of an optional string.
pub open spec fn opt_chars(o: Option<String>) -> Option<Seq<char>> {
    match o {
        Some(s) => Some(s@),
        None => None,
    }
}

/// A host, or nothing when the URL has none.
pub open spec fn host_or_empty(h: Option<Seq<char>>) -> Seq<char> {
    match h {
        Some(s) => s,
        None => Seq::empty(),
    }
}

/// Relies on `url::Url::parse` to parse an absolute URL, and on `Url::scheme`,
/// `Url::host_str` and `Url::path` to read its components.
#[verifier::external_body]
fn parse_url(s: &str) -> (r: Option<UrlParts>)
    ensures
        r is Some <==> parsed_url(s@) is Some,
        r is Some ==> parsed_url(s@) == Some(
            (r->0.scheme@, opt_chars(r->0.host), r->0.path@),
        ),
{
    match url::Url::parse(s) {
        Ok(u) => Some(
            UrlParts {
                scheme: u.scheme().to_string(),
                host: u.host_str().map(|h| h.to_string()),
                path: u.path().to_string(),
            },
        ),
        Err(_) => None,
    }
}

/// The absolute URL that the reference `href`, found on the page at `base`,
/// stands for; `None` when `base` must be parsed and does not parse.
///
/// Any reference that begins with `http` is taken as already absolute, even
/// one such as `httpfoo`; a relative reference is resolved against the page
/// URL itself, not against its directory.
pub open spec fn normalized(base: Seq<char>, href: Seq<char>) -> Option<Seq<char>> {
    if starts_with(href, "http"@) {
        Some(href)
    } else if starts_with(href, "//"@) {
        Some("https:"@ + href)
    } else {
        match parsed_url(base) {
            None => None,
            Some(p) => if starts_with(href, "/"@) {
                Some(p.0 + "://"@ + host_or_empty(p.1) + href)
            } else {
                Some(trim_end_slashes(base) + "/"@ + href)
            },
        }
    }
}

/// The path anchor of a URL path: `"/"` followed by its last non-empty
/// segment, or `"/"` alone when it has none.
pub open spec fn path_anchor(path: Seq<char>) -> Seq<char> {
    let t = trim_end_slashes(path);
    if t.len() == 0 {
        "/"@
    } else {
        "/"@ + last_segment(t)
    }
}

/// The host of a seed URL (empty when it has none), or `None` when the seed
/// does not parse.
pub open spec fn seed_domain(seed: Seq<char>) -> Option<Seq<char>> {
    match parsed_url(seed) {
        Some(p) => Some(host_or_empty(p.1)),
        None => None,
    }
}

/// The path anchor of a seed URL, or `None` when the seed does not parse.
pub open spec fn seed_anchor(seed: Seq<char>) -> Option<Seq<char>> {
    match parsed_url(seed) {
        Some(p) => Some(path_anchor(p.2)),
        None => None,
    }
}

/// Parses `s` as an absolute URL.
pub fn parse_url_parts(s: &str) -> (r: Result<UrlParts, CrawlError>)
    ensures
        match r {
            Ok(p) => parsed_url(s@) == Some((p.scheme@, opt_chars(p.host), p.path@)),
            Err(e) => parsed_url(s@) is None && e == CrawlError::MalformedBaseUrl,
        },
{
    match parse_url(s) {
        Some(p) => Ok(p),
        None => Err(CrawlError::MalformedBaseUrl),
    }
}

/// Resolves the reference `href`, found on the page at `base_url`, into an
/// absolute URL.
pub fn normalize_url(base_url: &str, href: &str) -> (r: Result<String, CrawlError>)
    ensures
        match r {
            Ok(u) => normalized(base_url@, href@) == Some(u@),
            Err(e) => normalized(base_url@, href@) is None && e == CrawlError::MalformedBaseUrl,
        },
{
    if text_starts_with(href, "http") {
        Ok(href.to_string())
    } else if text_starts_with(href, "//") {
        let mut r = "https:".to_string();
        r.append(href);
        Ok(r)
    } else {
        let parts = parse_url_parts(base_url)?;
        if text_starts_with(href, "/") {
            let mut r = parts.scheme.clone();
            r.append("://");
            match &parts.host {
                Some(h) => r.append(h.as_str()),
                None => {},
            }
            proof {
                assert(r@ == parts.scheme@ + "://"@ + host_or_empty(opt_chars(parts.host)));
            }
            r.append(href);
            Ok(r)
        } else {
            let mut r = trim_trailing_slashes(base_url);
            r.append("/");
            r.append(href);
            Ok(r)
        }
    }
}

/// The host of `url`, or the empty string when it has none.
pub fn get_base_domain(url: &str) -> (r: Result<String, CrawlError>)
    ensures
        match r {
            Ok(d) => seed_domain(url@) == Some(d@),
            Err(e) => seed_domain(url@) is None && e == CrawlError::MalformedBaseUrl,
        },
{
    let parts = parse_url_parts(url)?;
    match parts.host {
        Some(h) => Ok(h),
        None => Ok(String::new()),
    }
}

/// Where the last segment of `c[0..e]` starts.
fn last_segment_start(c: &Vec<char>, e: usize) -> (j: usize)
    requires
        e <= c@.len(),
    ensures
        j <= e,
        c@.subrange(j as int, e as int) == last_segment(c@.subrange(0, e as int)),
{
    let mut j: usize = e;
    assert(c@.subrange(0, e as int) + c@.subrange(e as int, e as int) =~= c@.subrange(0, e as int));
    while j > 0 && c[j - 1] != '/'
        invariant
            j <= e <= c@.len(),
            last_segment(c@.subrange(0, e as int)) == last_segment(c@.subrange(0, j as int))
                + c@.subrange(j as int, e as int),
        decreases j,
    {
        let ghost s = c@.subrange(0, j as int);
        assert(s.drop_last() =~= c@.subrange(0, j - 1));
        assert(last_segment(s) == last_segment(c@.subrange(0, j - 1)).push(c@[j - 1]));
        assert(last_segment(c@.subrange(0, j - 1)).push(c@[j - 1]) + c@.subrange(j as int, e as int)
            =~= last_segment(c@.subrange(0, j - 1)) + c@.subrange(j - 1, e as int));
        j = j - 1;
    }
    assert(last_segment(c@.subrange(0, j as int)) =~= Seq::<char>::empty());
    assert(Seq::<char>::empty() + c@.subrange(j as int, e as int) =~= c@.subrange(j as int, e as int));
    j
}

/// The path anchor of a URL path.
pub fn anchor_of_path(path: &str) -> (r: String)
    ensures
        r@ == path_anchor(path@),
{
    let c = chars_of(path);
    let e = trimmed_len(&c);
    let mut r = "/".to_string();
    if e > 0 {
        let j = last_segment_start(&c, e);
        r.append(path.substring_char(j, e));
    } else {
        proof {
            reveal_strlit("/");
        }
    }
    r
}

/// The path anchor of `url`: `"/"` and the last non-empty segment of its
/// path, or `"/"` alone when the path has none.
pub fn get_base_path(url: &str) -> (r: Result<String, CrawlError>)
    ensures
        match r {
            Ok(a) => seed_anchor(url@) == Some(a@),
            Err(e) => seed_anchor(url@) is None && e == CrawlError::MalformedBaseUrl,
        },
{
    let parts = parse_url_parts(url)?;
    Ok(anchor_of_path(parts.path.as_str()))
}

} // verus!
