use daily_knowledge::articles::{extract_date, extract_title, list_articles, Article, FileEntry};

fn entry(path: &str, name: Option<&str>, parent: Option<&str>) -> FileEntry {
    FileEntry {
        path: path.to_string(),
        file_name: name.map(|s| s.to_string()),
        parent_name: parent.map(|s| s.to_string()),
    }
}

#[test]
fn test_extract_title() {
    assert_eq!(extract_title("learning-notes.md"), "learning notes");
    assert_eq!(extract_title("關於本站.md"), "關於本站");
    assert_eq!(extract_title("a_b_c.md"), "a b c");
    // an empty title falls back to the file name
    assert_eq!(extract_title(".md"), ".md");
}

#[test]
fn test_extract_date() {
    assert_eq!(extract_date("20260730").as_deref(), Some("2026-07-30"));
    assert_eq!(extract_date("2026073").as_deref(), None);
    assert_eq!(extract_date("2026073a").as_deref(), None);
    assert_eq!(extract_date("knowledges").as_deref(), None);
}

#[test]
fn test_scan_articles_sorting() {
    // walk order as a directory walk may report it
    let files = vec![
        entry("zeta.md", Some("zeta.md"), Some("daily_knowledge_test_scan")),
        entry("knowledges/20250101/old.md", Some("old.md"), Some("20250101")),
        entry("alpha.md", Some("alpha.md"), Some("daily_knowledge_test_scan")),
        entry("knowledges/20260730/new.md", Some("new.md"), Some("20260730")),
        entry("notes.txt", Some("notes.txt"), Some("daily_knowledge_test_scan")),
    ];
    let articles = list_articles(&files);
    let titles: Vec<&str> = articles.iter().map(|a| a.title.as_str()).collect();
    assert_eq!(titles, vec!["alpha", "zeta", "new", "old"]);
    assert_eq!(articles[2].date.as_deref(), Some("2026-07-30"));
    assert_eq!(articles[3].date.as_deref(), Some("2025-01-01"));
    assert_eq!(articles[0].path, "alpha.md");
}

#[test]
fn test_scan_articles_missing_dir() {
    assert!(list_articles(&Vec::new()).is_empty());
}

#[test]
fn title_trims_unicode_whitespace_and_keeps_inner_spaces() {
    assert_eq!(extract_title("--a--b__.md"), "a  b");
    assert_eq!(extract_title("\u{3000}note\t.md"), "note");
    assert_eq!(extract_title("readme"), "readme");
    assert_eq!(extract_title("a.md.md"), "a.md");
    assert_eq!(extract_title("-_-.md"), "-_-.md");
}

#[test]
fn date_requires_eight_ascii_digits() {
    assert_eq!(extract_date("00000000").as_deref(), Some("0000-00-00"));
    assert_eq!(extract_date("２０２６０７３０"), None);
    assert_eq!(extract_date("202607301"), None);
    assert_eq!(extract_date(""), None);
}

#[test]
fn listing_ties_follow_file_name_then_walk_order() {
    let files = vec![
        entry("b/same.md", Some("same.md"), Some("b")),
        entry("a/same.md", Some("same.md"), Some("a")),
        entry("x/b-note.md", Some("b-note.md"), Some("20240101")),
        entry("y/a_note.md", Some("a_note.md"), Some("20240101")),
        entry("raw", None, Some("a")),
        entry("sub\\win.md", Some("win.md"), None),
    ];
    let articles = list_articles(&files);
    let paths: Vec<&str> = articles.iter().map(|a| a.path.as_str()).collect();
    assert_eq!(paths, vec!["b/same.md", "a/same.md", "sub/win.md", "y/a_note.md", "x/b-note.md"]);
    assert_eq!(
        articles[2],
        Article { title: "win".to_string(), path: "sub/win.md".to_string(), date: None }
    );
    assert_eq!(articles[3].date.as_deref(), Some("2024-01-01"));
}

#[test]
fn undated_articles_come_first_and_dates_descend() {
    let files = vec![
        entry("20230505/c.md", Some("c.md"), Some("20230505")),
        entry("z.md", Some("z.md"), None),
        entry("20240101/d.md", Some("d.md"), Some("20240101")),
        entry("m.md", Some("m.md"), Some("notes")),
    ];
    let articles = list_articles(&files);
    let dates: Vec<Option<&str>> = articles.iter().map(|a| a.date.as_deref()).collect();
    assert_eq!(dates, vec![None, None, Some("2024-01-01"), Some("2023-05-05")]);
    assert_eq!(articles[0].title, "m");
    assert_eq!(articles[1].title, "z");
}
