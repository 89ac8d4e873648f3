use graphix::{Crawler, CrawlError, LinkNode, Progress};

/// Runs a whole crawl, answering each fetch from `pages` (a missing page is a
/// failed fetch), and records every URL that was fetched.
fn crawl_with(seed: &str, pages: &[(&str, &str)], fetched: &mut Vec<String>) -> Result<LinkNode, CrawlError> {
    let mut crawler = Crawler::start(seed)?;
    loop {
        let url = crawler.pending().clone();
        fetched.push(url.clone());
        let body = pages.iter().find(|(u, _)| *u == url).map(|(_, b)| b.to_string());
        match crawler.resume(body) {
            Progress::Fetch(next) => crawler = next,
            Progress::Done(result) => return result,
        }
    }
}

/// The tree as (depth, url) pairs in preorder.
fn flatten(node: &LinkNode, depth: usize, out: &mut Vec<(usize, String)>) {
    out.push((depth, node.url.clone()));
    for child in &node.sub_urls {
        flatten(child, depth + 1, out);
    }
}

fn flat(node: &LinkNode) -> Vec<(usize, String)> {
    let mut out = Vec::new();
    flatten(node, 0, &mut out);
    out
}

fn link(href: &str) -> String {
    format!("<a href=\"{}\">x</a>", href)
}

#[test]
fn failed_child_fetch_is_left_out() {
    let root = format!("{}{}", link("/blog/a"), link("/blog/b"));
    let pages = [("https://ex.com/blog", root.as_str()), ("https://ex.com/blog/a", "")];
    let mut fetched = Vec::new();
    let tree = crawl_with("https://ex.com/blog", &pages, &mut fetched).unwrap();
    assert_eq!(tree.url, "https://ex.com/blog");
    assert_eq!(tree.sub_urls.len(), 1);
    assert_eq!(tree.sub_urls[0].url, "https://ex.com/blog/a");
    assert!(tree.sub_urls[0].sub_urls.is_empty());
    assert_eq!(fetched, vec!["https://ex.com/blog", "https://ex.com/blog/a", "https://ex.com/blog/b"]);
}

#[test]
fn malformed_seed_is_rejected_before_any_fetch() {
    let mut fetched = Vec::new();
    let r = crawl_with("not a url", &[], &mut fetched);
    assert!(matches!(r, Err(CrawlError::MalformedBaseUrl)));
    assert!(fetched.is_empty());
}

#[test]
fn failed_root_fetch_fails_the_crawl() {
    let mut fetched = Vec::new();
    let r = crawl_with("https://ex.com/blog", &[], &mut fetched);
    assert!(matches!(r, Err(CrawlError::FetchFailure)));
    assert_eq!(fetched, vec!["https://ex.com/blog"]);
}

#[test]
fn root_of_tree_is_the_seed() {
    let mut fetched = Vec::new();
    let tree = crawl_with("https://ex.com/", &[("https://ex.com/", "")], &mut fetched).unwrap();
    assert_eq!(tree.url, "https://ex.com/");
    assert!(tree.sub_urls.is_empty());
}

#[test]
fn each_url_appears_once() {
    let a = format!("{}{}{}", link("/b"), link("/a"), link("https://ex.com/"));
    let b = format!("{}{}", link("/a"), link("/b"));
    let root = format!("{}{}{}", link("/a"), link("/b"), link("/a"));
    let pages = [
        ("https://ex.com/", root.as_str()),
        ("https://ex.com/a", a.as_str()),
        ("https://ex.com/b", b.as_str()),
    ];
    let mut fetched = Vec::new();
    let tree = crawl_with("https://ex.com/", &pages, &mut fetched).unwrap();
    let got = flat(&tree);
    assert_eq!(
        got,
        vec![
            (0, "https://ex.com/".to_string()),
            (1, "https://ex.com/a".to_string()),
            (2, "https://ex.com/b".to_string()),
        ]
    );
    let mut urls: Vec<String> = got.into_iter().map(|(_, u)| u).collect();
    let n = urls.len();
    urls.sort();
    urls.dedup();
    assert_eq!(urls.len(), n);
    assert_eq!(fetched.len(), 3);
}

#[test]
fn chain_stops_at_depth_three() {
    let pages_owned: Vec<(String, String)> = (0..6)
        .map(|i| (format!("https://ex.com/p{}", i), link(&format!("/p{}", i + 1))))
        .collect();
    let mut pages: Vec<(&str, &str)> = pages_owned.iter().map(|(u, b)| (u.as_str(), b.as_str())).collect();
    pages.insert(0, ("https://ex.com", "<a href=\"/p0\">x</a>"));
    let mut fetched = Vec::new();
    let tree = crawl_with("https://ex.com", &pages, &mut fetched).unwrap();
    let got = flat(&tree);
    assert_eq!(got.len(), 4);
    assert_eq!(got.iter().map(|(d, _)| *d).max(), Some(3));
    assert_eq!(got[3], (3, "https://ex.com/p2".to_string()));
    assert_eq!(fetched.len(), 4);
}

#[test]
fn same_pages_give_same_tree() {
    let root = format!("{}{}{}", link("/docs/x"), link("other"), link("https://elsewhere.org/docs"));
    let x = format!("{}{}", link("//ex.com/docs/y"), link("/docs"));
    let pages = [
        ("https://ex.com/docs", root.as_str()),
        ("https://ex.com/docs/x", x.as_str()),
        ("https://ex.com/docs/other", ""),
        ("https://ex.com/docs/y", ""),
    ];
    let mut f1 = Vec::new();
    let mut f2 = Vec::new();
    let t1 = crawl_with("https://ex.com/docs", &pages, &mut f1).unwrap();
    let t2 = crawl_with("https://ex.com/docs", &pages, &mut f2).unwrap();
    assert_eq!(flat(&t1), flat(&t2));
    assert_eq!(f1, f2);
    assert_eq!(
        flat(&t1),
        vec![
            (0, "https://ex.com/docs".to_string()),
            (1, "https://ex.com/docs/x".to_string()),
            (2, "https://ex.com/docs/y".to_string()),
            (1, "https://ex.com/docs/other".to_string()),
        ]
    );
}

#[test]
fn anchors_without_href_are_skipped() {
    let root = format!("<a name=\"top\">t</a>{}", link("/a"));
    let pages = [("https://ex.com/", root.as_str()), ("https://ex.com/a", "")];
    let mut fetched = Vec::new();
    let tree = crawl_with("https://ex.com/", &pages, &mut fetched).unwrap();
    assert_eq!(flat(&tree), vec![(0, "https://ex.com/".to_string()), (1, "https://ex.com/a".to_string())]);
}
