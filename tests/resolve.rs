use fixred::resolve::{redirect_target, CurlResolver, ResolutionCache, ResolveError};

#[test]
fn url_parse_error() {
    let res = CurlResolver::default();
    let resolved = res.try_resolve("https://");
    assert!(matches!(resolved, Err(ResolveError::InvalidUrl)));
    assert_eq!(res.cached("https://"), Some(None));
    assert!(matches!(res.try_resolve("not a url"), Err(ResolveError::InvalidUrl)));
}

#[test]
fn fragment_is_kept() {
    assert_eq!(
        redirect_target(
            "https://a.example/old#section",
            Some("section"),
            Some("https://a.example/new")
        ),
        Some("https://a.example/new#section".to_string())
    );
}

#[test]
fn no_location_or_same_location_is_no_redirect() {
    assert_eq!(redirect_target("https://a.example/", None, None), None);
    assert_eq!(
        redirect_target("https://a.example/", None, Some("https://a.example/")),
        None
    );
    assert_eq!(
        redirect_target("https://a.example/", None, Some("https://b.example/")),
        Some("https://b.example/".to_string())
    );
}

#[test]
fn cache_stores_answers() {
    let cache = ResolutionCache::new();
    assert_eq!(cache.get("https://a.example/"), None);
    cache.insert("https://a.example/", Some("https://b.example/".to_string()));
    cache.insert("https://c.example/", None);
    assert_eq!(
        cache.get("https://a.example/"),
        Some(Some("https://b.example/".to_string()))
    );
    assert_eq!(cache.get("https://c.example/"), Some(None));
}
