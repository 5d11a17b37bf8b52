use daily_knowledge::config::{
    parse_u16, resolve_port, ServerConfig, DEFAULT_MAX_FILE_SIZE, DEFAULT_PAGE_TITLE,
    DEFAULT_PERIODIC_SCAN_INTERVAL_SECS, DEFAULT_PORT, DEFAULT_SITE_TITLE,
};

#[test]
fn test_defaults() {
    let c = ServerConfig::default();
    assert_eq!(c.port, None);
    assert!(!c.allow_markdown_html);
    assert_eq!(c.max_file_size, DEFAULT_MAX_FILE_SIZE);
    assert_eq!(c.rate_limit.window_secs, 60);
    assert_eq!(c.rate_limit.max_requests, 300);
    assert_eq!(c.search.max_results, 20);
    assert_eq!(c.site_title, DEFAULT_SITE_TITLE);
    assert_eq!(c.page_title, DEFAULT_PAGE_TITLE);
    assert_eq!(c.periodic_scan_interval_secs, DEFAULT_PERIODIC_SCAN_INTERVAL_SECS);
}

#[test]
fn test_resolve_port_precedence() {
    // command line > environment > configuration file > default
    assert_eq!(resolve_port(Some("3000"), Some("8080"), Some(9000)), 3000);
    assert_eq!(resolve_port(None, Some("8080"), Some(9000)), 8080);
    assert_eq!(resolve_port(None, None, Some(9000)), 9000);
    assert_eq!(resolve_port(None, None, None), DEFAULT_PORT);
    // an invalid command-line value falls through to the next level
    assert_eq!(resolve_port(Some("abc"), Some("8080"), Some(9000)), 8080);
    assert_eq!(resolve_port(Some("99999"), None, Some(9000)), 9000);
}

#[test]
fn port_values_are_trimmed_and_parsed_like_u16_from_str() {
    assert_eq!(resolve_port(Some("  4000\n"), None, None), 4000);
    assert_eq!(resolve_port(Some("+80"), None, None), 80);
    assert_eq!(resolve_port(Some("-80"), Some("0081"), None), 81);
    assert_eq!(resolve_port(Some(""), Some("   "), Some(1)), 1);
    assert_eq!(parse_u16("65535"), Some(65535));
    assert_eq!(parse_u16("65536"), None);
    assert_eq!(parse_u16("+"), None);
    assert_eq!(parse_u16("1 2"), None);
    assert_eq!(parse_u16("00000000000000000007"), Some(7));
}

#[test]
fn config_file_lies_under_appdata_config() {
    assert_eq!(ServerConfig::config_file_path("/srv/kb"), "/srv/kb/appdata/config/server_config.toml");
    assert_eq!(ServerConfig::config_file_path("/srv/kb/"), "/srv/kb/appdata/config/server_config.toml");
    assert_eq!(ServerConfig::config_file_path(""), "appdata/config/server_config.toml");
    assert_eq!(ServerConfig::config_file_path("."), "./appdata/config/server_config.toml");
}
