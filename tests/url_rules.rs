use graphix::{get_base_domain, get_base_path, normalize_url, CrawlError, Graph, Scope, VisitedRegistry};

#[test]
fn normalizes_absolute_path() {
    assert_eq!(normalize_url("https://ex.com/blog/post1", "/about").unwrap(), "https://ex.com/about");
}

#[test]
fn normalizes_protocol_relative() {
    assert_eq!(normalize_url("https://ex.com/blog/post1", "//cdn.ex.com/x").unwrap(), "https://cdn.ex.com/x");
}

#[test]
fn normalizes_relative_against_page_url() {
    assert_eq!(normalize_url("https://ex.com/blog/post1", "page2").unwrap(), "https://ex.com/blog/post1/page2");
    assert_eq!(normalize_url("https://ex.com/blog/", "page2").unwrap(), "https://ex.com/blog/page2");
}

#[test]
fn keeps_absolute_unchanged() {
    assert_eq!(normalize_url("https://ex.com/blog/post1", "https://ex.com/other").unwrap(), "https://ex.com/other");
    assert_eq!(normalize_url("not a url", "httpfoo").unwrap(), "httpfoo");
}

#[test]
fn normalize_needs_a_parsable_base() {
    assert_eq!(normalize_url("not a url", "/about"), Err(CrawlError::MalformedBaseUrl));
    assert_eq!(normalize_url("not a url", "page2"), Err(CrawlError::MalformedBaseUrl));
    assert_eq!(normalize_url("not a url", "//cdn.ex.com/x").unwrap(), "https://cdn.ex.com/x");
}

#[test]
fn base_domain_is_the_host() {
    assert_eq!(get_base_domain("https://ex.com/blog/post1").unwrap(), "ex.com");
    assert_eq!(get_base_domain("mailto:someone@ex.com").unwrap(), "");
    assert_eq!(get_base_domain("not a url"), Err(CrawlError::MalformedBaseUrl));
}

#[test]
fn base_path_is_the_last_segment() {
    assert_eq!(get_base_path("https://ex.com/blog/post1").unwrap(), "/post1");
    assert_eq!(get_base_path("https://ex.com/blog/post1/").unwrap(), "/post1");
    assert_eq!(get_base_path("https://ex.com").unwrap(), "/");
    assert_eq!(get_base_path("https://ex.com/").unwrap(), "/");
    assert_eq!(get_base_path("https://ex.com//").unwrap(), "/");
    assert_eq!(get_base_path("not a url"), Err(CrawlError::MalformedBaseUrl));
}

#[test]
fn scope_filter_uses_substrings() {
    let scope = Scope::from_seed("https://ex.com/blog/post1").unwrap();
    assert_eq!(scope.domain, "ex.com");
    assert_eq!(scope.base_path, "/post1");
    let page = "https://ex.com/blog/post1";
    assert!(scope.in_scope("https://ex.com/blog/post1/x", page));
    assert!(!scope.in_scope("https://other.com/post1", page));
    assert!(!scope.in_scope("https://ex.com/about", page));
    assert!(!scope.in_scope(page, page));
    assert!(scope.in_scope("https://other.com/post1?from=ex.com", page));
}

#[test]
fn root_anchor_admits_every_path() {
    let scope = Scope::from_seed("https://ex.com/").unwrap();
    assert_eq!(scope.base_path, "/");
    assert!(scope.in_scope("https://ex.com/anything", "https://ex.com/"));
}

#[test]
fn scope_of_malformed_seed_fails() {
    assert!(matches!(Scope::from_seed("not a url"), Err(CrawlError::MalformedBaseUrl)));
}

#[test]
fn registry_claims_once() {
    let mut r = VisitedRegistry::new();
    let u = "https://ex.com/a".to_string();
    assert!(!r.contains(&u));
    assert!(r.try_claim(&u));
    assert!(r.contains(&u));
    assert!(!r.try_claim(&u));
    assert!(r.try_claim(&"https://ex.com/b".to_string()));
}

#[test]
fn subdomain_is_text_before_first_dot() {
    assert_eq!(Graph::new("https://www.ex.com".to_string()).get_subdomain(), "https://www");
    assert_eq!(Graph::new("localhost".to_string()).get_subdomain(), "localhost");
    assert_eq!(Graph::new(String::new()).get_subdomain(), "");
}
