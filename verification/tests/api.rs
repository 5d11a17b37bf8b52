use daily_knowledge::api::{
    accept_article_bytes, check_resolved_article, decode_request_path, is_rate_limited,
    request_route, validate_article_request, validate_search_request, ApiError, ReadError,
    RouteAccess,
};

fn params(pairs: &[(&str, &str)]) -> Vec<(String, String)> {
    pairs.iter().map(|(k, v)| (k.to_string(), v.to_string())).collect()
}

#[test]
fn article_requests_are_checked_in_order() {
    assert_eq!(validate_article_request(&params(&[])), Err(ApiError::MissingPath));
    assert_eq!(validate_article_request(&params(&[("path", "  ")])), Err(ApiError::MissingPath));
    assert_eq!(
        validate_article_request(&params(&[("path", "a.md"), ("path", "b.md")])),
        Err(ApiError::MissingPath)
    );
    assert_eq!(validate_article_request(&params(&[("path", "a\0b.md")])), Err(ApiError::InvalidCharacters));
    assert_eq!(validate_article_request(&params(&[("path", "../server.py")])), Err(ApiError::ForbiddenPath));
    assert_eq!(validate_article_request(&params(&[("path", "a/../b.md")])), Err(ApiError::ForbiddenPath));
    assert_eq!(validate_article_request(&params(&[("path", "foo.txt")])), Err(ApiError::NotMarkdown));
    assert_eq!(
        validate_article_request(&params(&[("q", "x"), ("path", " knowledges/a..b.md ")])),
        Ok("knowledges/a..b.md".to_string())
    );
}

#[test]
fn search_requests_are_checked_in_order() {
    assert_eq!(validate_search_request(&params(&[])), Err(ApiError::MissingQuery));
    assert_eq!(validate_search_request(&params(&[("q", "\0")])), Err(ApiError::InvalidCharacters));
    let long = "a".repeat(201);
    assert_eq!(validate_search_request(&params(&[("q", &long)])), Err(ApiError::QueryTooLong));
    let ok = "字".repeat(200);
    assert_eq!(validate_search_request(&params(&[("q", &ok)])), Ok(ok.clone()));
    assert_eq!(validate_search_request(&params(&[("q", " rust ")])), Ok("rust".to_string()));
}

#[test]
fn refusals_carry_status_and_message() {
    assert_eq!(ApiError::MissingPath.status(), 400);
    assert_eq!(ApiError::ForbiddenPath.status(), 403);
    assert_eq!(ApiError::NotFound.status(), 404);
    assert_eq!(ApiError::TooLarge.status(), 413);
    assert_eq!(ApiError::TooManyRequests.status(), 429);
    assert_eq!(ApiError::ReadFailed.status(), 500);
    assert_eq!(ApiError::NotFound.message(), "找不到檔案");
    assert_eq!(ApiError::TooManyRequests.message(), "請求過於頻繁，請稍後再試");
    assert_eq!(ReadError::Forbidden.reply(), ApiError::OutsideArticles);
    assert_eq!(ReadError::Io.reply(), ApiError::ReadFailed);
}

#[test]
fn request_paths_are_decoded_then_routed() {
    assert_eq!(decode_request_path("/article%2Ffoo.md"), "/article/foo.md");
    assert_eq!(decode_request_path("/%E9%97%9C%zz"), "/關%zz");
    assert_eq!(decode_request_path("/%ff"), "");
    let denied = [
        "/article/foo", "/article", "/article%2Ffoo.md", "/article%2F..%2F..%2Fserver.py",
        "/appdata", "/appdata/config/server_config.toml", "/appdata%2F..%2F..%2Fserver.py",
        "/api/../Cargo.toml", "/api%2F..%2F..%2Fserver.py", "/api/../index.html", "/server.py",
        "/Cargo.toml", "/src/main.rs", "/README.md", "/favicon.ico", "/no-such-file",
    ];
    for p in denied {
        assert_eq!(request_route(p), RouteAccess::Denied, "path: {p}");
    }
    for p in ["/", "/index.html", "/style.css", "/script.js", "/vendor/marked.min.js", "/vendor/purify.min.js"] {
        assert_eq!(request_route(p), RouteAccess::Static, "path: {p}");
    }
    for p in ["/api/articles", "/api", "/api%2Fsearch"] {
        assert_eq!(request_route(p), RouteAccess::Api, "path: {p}");
    }
    assert!(is_rate_limited("/api/config"));
    assert!(!is_rate_limited("/index.html"));
    assert!(!is_rate_limited("/apiary"));
}

#[test]
fn resolved_articles_stay_below_the_root() {
    assert_eq!(check_resolved_article("/srv/article/a.md", "/srv/article"), Ok(()));
    assert_eq!(check_resolved_article("/srv/articles/a.md", "/srv/article"), Err(ReadError::Forbidden));
    assert_eq!(check_resolved_article("/etc/passwd", "/srv/article"), Err(ReadError::Forbidden));
    assert_eq!(check_resolved_article("/srv/article/a.txt", "/srv/article"), Err(ReadError::Forbidden));
    assert_eq!(check_resolved_article("/a.md", "/"), Ok(()));
}

#[test]
fn article_bytes_respect_the_limit() {
    assert_eq!(accept_article_bytes(b"0123456789".to_vec(), 16), Ok("0123456789".to_string()));
    assert_eq!(accept_article_bytes(b"0123456789".to_vec(), 9), Err(ReadError::TooLarge));
    assert_eq!(accept_article_bytes(vec![0xff, 0xfe], 16), Err(ReadError::Io));
    assert_eq!(accept_article_bytes(Vec::new(), 0), Ok(String::new()));
}
