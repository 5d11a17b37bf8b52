use daily_knowledge::articles::FileEntry;
use daily_knowledge::search::{
    build_snippet, finish_snippet, limited_text, search_articles, snippet_window, ArticleFile,
    Pattern,
};

fn file(path: &str, name: &str, parent: &str, content: Option<&str>) -> ArticleFile {
    ArticleFile {
        file: FileEntry {
            path: path.to_string(),
            file_name: Some(name.to_string()),
            parent_name: Some(parent.to_string()),
        },
        content: content.map(|c| c.as_bytes().to_vec()),
    }
}

fn sample() -> Vec<ArticleFile> {
    vec![
        file(
            "knowledges/20260730/learning-notes.md",
            "learning-notes.md",
            "20260730",
            Some("今天學習了 Rust 的所有權與借用。"),
        ),
        file("關於本站.md", "關於本站.md", "daily_knowledge_test_search", Some("這是本站簡介，沒有任何關鍵字。")),
        file("notes.txt", "notes.txt", "daily_knowledge_test_search", Some("Rust 不應該被搜到")),
    ]
}

#[test]
fn test_search_title_and_content() {
    let files = sample();
    // content match, ignoring case
    let results = search_articles(&files, "rust", 20);
    assert_eq!(results.len(), 1);
    let r = &results[0];
    assert_eq!(r.title, "learning notes");
    assert_eq!(r.path, "knowledges/20260730/learning-notes.md");
    assert_eq!(r.date.as_deref(), Some("2026-07-30"));
    assert!(r.snippet.contains("<mark>Rust</mark>"));
    assert_eq!(r.match_in, "content");

    // file name match
    let results = search_articles(&files, "learning", 20);
    assert_eq!(results.len(), 1);
    assert_eq!(results[0].match_in, "title");
    assert!(results[0].snippet.is_empty());

    // no match
    let results = search_articles(&files, "xyzzy", 20);
    assert!(results.is_empty());
}

#[test]
fn test_search_empty_dir() {
    assert!(search_articles(&Vec::new(), "rust", 20).is_empty());
}

#[test]
fn test_build_snippet_padding() {
    let re = Pattern::new("(?i)rust").unwrap();
    let content = format!("{}Rust{}", "a".repeat(80), "b".repeat(80));
    let snippet = build_snippet(&content, &re);
    assert!(snippet.contains("<mark>Rust</mark>"));
    assert!(snippet.starts_with('a'));
    assert!(snippet.ends_with('b'));
    // 60 characters of a before, 60 of b after
    assert_eq!(snippet.chars().take(60).collect::<String>(), "a".repeat(60));
    assert_eq!(
        snippet.chars().rev().take(60).collect::<String>(),
        "b".repeat(60).chars().rev().collect::<String>()
    );
}

#[test]
fn test_build_snippet_newline_replaced() {
    let re = Pattern::new("(?i)rust").unwrap();
    let content = "第一行\n第二行 Rust 結尾";
    let snippet = build_snippet(content, &re);
    assert!(!snippet.contains('\n'));
    assert!(snippet.contains("<mark>Rust</mark>"));
}

#[test]
fn test_build_snippet_truncation() {
    // a long match makes the snippet longer than 200 characters: cut, with …
    let re = Pattern::new("x+").unwrap();
    let content = "x".repeat(250);
    let snippet = build_snippet(&content, &re);
    assert_eq!(snippet.chars().count(), 201);
    assert!(snippet.ends_with('…'));
}

#[test]
fn both_matches_are_labelled_and_results_are_capped() {
    let files = vec![
        file("rust-a.md", "rust-a.md", "x", Some("rust here")),
        file("b.md", "b.md", "x", None),
        file("rust-c.md", "rust-c.md", "x", Some("nothing")),
        file("d.md", "d.md", "x", Some("RUST")),
    ];
    let results = search_articles(&files, "Rust", 20);
    let labels: Vec<&str> = results.iter().map(|r| r.match_in.as_str()).collect();
    assert_eq!(labels, vec!["title|content", "title", "content"]);
    assert!(results[1].snippet.is_empty());
    assert_eq!(results[2].snippet, "<mark>RUST</mark>");
    assert_eq!(search_articles(&files, "Rust", 2).len(), 2);
    // meta characters are matched literally
    let dotted = vec![file("a.md", "a.md", "x", Some("1+1=2 and 1x1"))];
    assert_eq!(search_articles(&dotted, "1+1", 20)[0].snippet, "<mark>1+1</mark>=2 and 1x1");
}

#[test]
fn snippet_pieces_have_exact_values() {
    assert_eq!(snippet_window("ab\ncd", 3, 4), "ab cd");
    let text = format!("{}é{}", "x".repeat(70), "y".repeat(70));
    // é starts at byte 70 and ends at byte 72
    let w = snippet_window(&text, 70, 72);
    assert_eq!(w, format!("{}é{}", "x".repeat(60), "y".repeat(60)));
    assert_eq!(finish_snippet(&"z".repeat(200)), "z".repeat(200));
    assert_eq!(finish_snippet(&"z".repeat(201)), format!("{}…", "z".repeat(200)));
    assert_eq!(limited_text(&vec![b'a', 0xff]), "a\u{fffd}");
    assert_eq!(limited_text(&"字".repeat(102_401).into_bytes()).chars().count(), 102_400);
}

#[test]
fn snippet_marks_every_match_in_the_window() {
    let re = Pattern::new("(?i)ab").unwrap();
    let snippet = build_snippet("xx ab yy AB zz", &re);
    assert_eq!(snippet, "xx <mark>ab</mark> yy <mark>AB</mark> zz");
    assert_eq!(build_snippet("nothing here", &re), "");
}

#[test]
fn queries_match_literally_and_an_empty_query_matches_every_file() {
    let files = vec![
        file("a.b.md", "a.b.md", "x", Some("plain")),
        file("axb.md", "axb.md", "x", Some("plain")),
        file("skip.txt", "skip.txt", "x", Some("a.b")),
    ];
    let results = search_articles(&files, "a.b", 20);
    assert_eq!(results.len(), 1);
    assert_eq!(results[0].path, "a.b.md");
    assert_eq!(results[0].match_in, "title");
    let all = search_articles(&files, "", 20);
    assert_eq!(all.len(), 2);
    assert_eq!(search_articles(&files, "", 1).len(), 1);
}
