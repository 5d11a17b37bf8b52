use daily_knowledge::articles::Article;
use daily_knowledge::search_index::{
    documents_to_index, merge_results, pick_hits, query_terms, FieldHit, SearchIndex,
};

fn article(title: &str, path: &str, date: Option<&str>) -> Article {
    Article { title: title.to_string(), path: path.to_string(), date: date.map(|d| d.to_string()) }
}

fn sample_articles() -> (Vec<Article>, Vec<Option<Vec<u8>>>) {
    let articles = vec![
        article("learning notes", "knowledges/20260730/learning-notes.md", Some("2026-07-30")),
        article("關於本站", "關於本站.md", None),
    ];
    let contents = vec![
        Some("今天學習了 Rust 的所有權與借用。".as_bytes().to_vec()),
        Some("這是本站簡介，沒有任何關鍵字。".as_bytes().to_vec()),
    ];
    (articles, contents)
}

fn built(articles: &Vec<Article>, contents: &Vec<Option<Vec<u8>>>, max: u64) -> SearchIndex {
    let mut idx = SearchIndex::new().unwrap();
    assert!(idx.rebuild(articles, contents, max).is_empty());
    idx
}

#[test]
fn test_search_english_content() {
    let (articles, contents) = sample_articles();
    let idx = built(&articles, &contents, 5 * 1024 * 1024);
    let results = idx.search("rust", 20);
    assert_eq!(results.len(), 1, "English content should hit one article");
    let r = &results[0];
    assert_eq!(r.path, "knowledges/20260730/learning-notes.md");
    assert_eq!(r.match_in, "content");
    assert!(r.snippet.contains("<mark>Rust</mark>"), "snippet: {}", r.snippet);
}

#[test]
fn test_search_chinese_content() {
    let (articles, contents) = sample_articles();
    let idx = built(&articles, &contents, 5 * 1024 * 1024);
    let results = idx.search("所有權", 20);
    assert_eq!(results.len(), 1, "Chinese content should hit one article");
    let r = &results[0];
    assert_eq!(r.match_in, "content");
    assert!(r.snippet.contains("<mark>"), "snippet: {}", r.snippet);
}

#[test]
fn test_search_title_only() {
    let (articles, contents) = sample_articles();
    let idx = built(&articles, &contents, 5 * 1024 * 1024);
    let results = idx.search("learning", 20);
    assert_eq!(results.len(), 1);
    assert_eq!(results[0].match_in, "title");
    assert!(results[0].snippet.is_empty(), "a title hit has no snippet");
    assert_eq!(results[0].date.as_deref(), Some("2026-07-30"));
}

#[test]
fn test_search_no_match() {
    let (articles, contents) = sample_articles();
    let idx = built(&articles, &contents, 5 * 1024 * 1024);
    assert!(idx.search("xyzzy-no-such-term", 20).is_empty());
}

#[test]
fn test_search_max_results_limit() {
    let mut articles = Vec::new();
    let mut contents = Vec::new();
    for i in 0..5 {
        articles.push(article(&format!("note {i}"), &format!("note-{i}.md"), None));
        contents.push(Some(format!("共同關鍵字 common {i}").into_bytes()));
    }
    let idx = built(&articles, &contents, 5 * 1024 * 1024);
    let results = idx.search("common", 3);
    assert_eq!(results.len(), 3, "results are cut at the limit");
}

#[test]
fn test_rebuild_updates_index() {
    let mut idx = SearchIndex::new().unwrap();
    let a1 = vec![article("a", "a.md", None)];
    assert!(idx.rebuild(&a1, &vec![Some("alpha 內容".as_bytes().to_vec())], 5 * 1024 * 1024).is_empty());
    assert_eq!(idx.search("alpha", 20).len(), 1);
    let a2 = vec![article("b", "b.md", None)];
    assert!(idx.rebuild(&a2, &vec![Some("beta 內容".as_bytes().to_vec())], 5 * 1024 * 1024).is_empty());
    assert!(idx.search("alpha", 20).is_empty(), "the old article is gone");
    assert_eq!(idx.search("beta", 20).len(), 1, "the new article is found");
}

#[test]
fn test_over_max_size_not_indexed() {
    let mut idx = SearchIndex::new().unwrap();
    let articles = vec![article("big", "big.md", None)];
    // limit of 4 bytes: 10 bytes of content are not indexed
    assert!(idx.rebuild(&articles, &vec![Some(b"0123456789".to_vec())], 4).is_empty());
    assert!(idx.search("0123456789", 20).is_empty());
}

#[test]
fn unread_articles_are_left_out() {
    let articles = vec![article("a", "a.md", Some("2024-01-01")), article("b", "b.md", None), article("c", "c.md", None)];
    let contents = vec![Some(b"abc".to_vec()), None, Some(vec![b'x', 0xff])];
    let docs = documents_to_index(&articles, &contents, 3);
    assert_eq!(docs.len(), 2);
    assert_eq!(docs[0].path, "a.md");
    assert_eq!(docs[0].date, "2024-01-01");
    assert_eq!(docs[0].content, "abc");
    assert_eq!(docs[1].path, "c.md");
    assert_eq!(docs[1].date, "");
    assert_eq!(docs[1].content, "x\u{fffd}");
}

#[test]
fn title_and_content_hits_are_merged_once() {
    let articles = vec![article("rust notes", "r.md", None), article("other", "o.md", None)];
    let contents = vec![Some(b"about rust".to_vec()), Some(b"rust again".to_vec())];
    let idx = built(&articles, &contents, 1024);
    let results = idx.search("rust", 20);
    assert_eq!(results.len(), 2);
    assert_eq!(results[0].path, "r.md");
    assert_eq!(results[0].match_in, "title");
    assert_eq!(results[1].path, "o.md");
    assert_eq!(results[1].match_in, "content");
    assert!(results[1].snippet.contains("<mark>rust</mark>"));
    let one = idx.search("rust", 1);
    assert_eq!(one.len(), 1);
    assert_eq!(one[0].match_in, "title");
}

#[test]
fn picking_skips_held_paths_and_stops_when_full() {
    let s = |v: &[&str]| v.iter().map(|x| x.to_string()).collect::<Vec<String>>();
    assert_eq!(pick_hits(&s(&[]), &s(&["a", "b", "a", "c"]), 10), vec![0, 1, 3]);
    assert_eq!(pick_hits(&s(&["b"]), &s(&["a", "b", "c"]), 3), vec![0, 2]);
    assert_eq!(pick_hits(&s(&["b"]), &s(&["a", "b", "c"]), 2), vec![0]);
    assert_eq!(pick_hits(&s(&["x", "y"]), &s(&["a"]), 2), Vec::<usize>::new());
}

#[test]
fn query_terms_drop_blanks_and_repeats() {
    let s = |v: &[&str]| v.iter().map(|x| x.to_string()).collect::<Vec<String>>();
    assert_eq!(query_terms(&s(&["rust", " ", "所有", "rust", "", "權"])), s(&["rust", "所有", "權"]));
}

#[test]
fn a_query_without_terms_finds_nothing() {
    let (articles, contents) = sample_articles();
    let idx = built(&articles, &contents, 5 * 1024 * 1024);
    assert!(idx.search("   ", 20).is_empty());
    assert!(idx.search("\t\n", 20).is_empty());
}

#[test]
fn merging_lists_title_hits_then_new_content_hits() {
    let h = |p: &str, t: &str, d: Option<&str>| FieldHit {
        path: p.to_string(),
        title: t.to_string(),
        date: d.map(|x| x.to_string()),
    };
    let title = vec![h("a.md", "A", None), h("a.md", "A", None), h("b.md", "B", Some("2024-01-01"))];
    let content = vec![h("b.md", "B", None), h("c.md", "C", None), h("d.md", "D", None)];
    let snippets = vec!["sb".to_string(), "<mark>c</mark>".to_string(), "sd".to_string()];
    let r = merge_results(&title, &content, &snippets, 3);
    assert_eq!(r.len(), 3);
    assert_eq!((r[0].path.as_str(), r[0].title.as_str(), r[0].match_in.as_str()), ("a.md", "A", "title"));
    assert!(r[0].snippet.is_empty() && r[0].date.is_none());
    assert_eq!((r[1].path.as_str(), r[1].date.as_deref()), ("b.md", Some("2024-01-01")));
    assert_eq!((r[2].path.as_str(), r[2].match_in.as_str(), r[2].snippet.as_str()), ("c.md", "content", "<mark>c</mark>"));
    let full = merge_results(&title, &content, &snippets, 2);
    assert_eq!(full.len(), 2);
    assert!(full.iter().all(|x| x.match_in == "title"));
    assert!(merge_results(&Vec::new(), &Vec::new(), &Vec::new(), 5).is_empty());
}
