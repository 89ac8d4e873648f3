//! A same-site crawler core: URL normalization, scope filtering, a visited
//! registry and a depth-bounded traversal driven as a state machine.
use vstd::prelude::*;

pub mod text;
pub mod url_rules;
pub mod scope;
pub mod registry;
pub mod graph;
pub mod tree;
pub mod crawl;

pub use crawl::{Crawler, Progress, MAX_DEPTH};
pub use graph::Graph;
pub use registry::VisitedRegistry;
pub use scope::Scope;
pub use tree::LinkNode;
pub use url_rules::{get_base_domain, get_base_path, normalize_url, CrawlError, UrlParts};

verus! {

} // verus!
