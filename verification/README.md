# daily_knowledge

A small server for a Markdown knowledge base: it lists the articles found
under `appdata/article/`, returns an article's text, searches the articles
(an in-memory Tantivy index with jieba segmentation) and serves the
front-end files, behind a per-client rate limit.

## Layout

- `src/` — the verified library (Verus):
  - `articles.rs` — titles and dates from file names, and the listing order
    of the articles (undated first by title, then newest first);
  - `config.rs` — configuration defaults, the configuration file's path and
    the choice of the listening port;
  - `api.rs` — checking of request parameters, routing of request paths,
    checks on a resolved article path and on the bytes read;
  - `rate_limit.rs` — the sliding-window limiter per client;
  - `watch.rs` — which file events matter, and the debounce decisions of
    the watcher loop;
  - `search_index.rs` — the Tantivy index, modelled by the documents a
    reader sees: a rebuild that reports no issue leaves exactly the
    documents of the articles, and one that stops early leaves them as they
    were; a search merges (`merge_results`) what its title search and its
    content search returned, each of which is the best hits by BM25 or,
    when Tantivy fails, nothing;
  - `search.rs` — direct search of the files with a literal,
    case-insensitive pattern, and the snippet around the first match;
  - `text.rs`, `order.rs` — character-level helpers and the string order.
- `tests/` — tests of the library.
- `app/` — the program: command line, file system, HTTP (axum), the file
  watcher (notify) and the configuration file (toml).
