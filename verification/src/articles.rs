//! Article listing: titles from file names, dates from `YYYYMMDD`
//! directories, and the order in which the article list is shown.

use vstd::prelude::*;
use crate::order::{compare_chars, lemma_lex_asymmetric, lemma_lex_irreflexive, lemma_lex_transitive, lex_lt};
use crate::text::{chars_of, is_ws, lemma_lead_ws, lemma_trail_ws, string_from_chars, trim, trim_bounds};

verus! {

/// One article of the list.
#[derive(Debug, Clone, PartialEq, Eq)]
pub struct Article {
    pub title: String,
    pub path: String,
    pub date: Option<String>,
}

/// What an article holds, as character sequences.
pub struct ArticleView {
    pub title: Seq<char>,
    pub path: Seq<char>,
    pub date: Option<Seq<char>>,
}

/// The view of an optional string.
pub open spec fn opt_view(o: Option<String>) -> Option<Seq<char>> {
    match o {
        Some(s) => Some(s@),
        None => None,
    }
}

impl View for Article {
    type V = ArticleView;

    open spec fn view(&self) -> ArticleView {
        ArticleView { title: self.title@, path: self.path@, date: opt_view(self.date) }
    }
}

/// A file found under the article directory, as the directory walk reports
/// it: its path relative to the article directory, its file name (absent
/// when it is not valid UTF-8) and the name of its parent directory (absent
/// when there is none or it is not valid UTF-8).
#[derive(Debug, Clone)]
pub struct FileEntry {
    pub path: String,
    pub file_name: Option<String>,
    pub parent_name: Option<String>,
}

/// `n` ends in `.md`.
pub open spec fn is_md_name(n: Seq<char>) -> bool {
    &&& n.len() >= 3
    &&& n[n.len() - 3] == '.'
    &&& n[n.len() - 2] == 'm'
    &&& n[n.len() - 1] == 'd'
}

/// `n` without a trailing `.md`.
pub open spec fn strip_md(n: Seq<char>) -> Seq<char> {
    if is_md_name(n) {
        n.subrange(0, n.len() - 3)
    } else {
        n
    }
}

/// `n` with every `-` and `_` turned into a space.
pub open spec fn spaced(n: Seq<char>) -> Seq<char> {
    Seq::new(n.len(), |i: int| if n[i] == '-' || n[i] == '_' { ' ' } else { n[i] })
}

/// The title shown for a file named `f`: the name without `.md`, with `-`
/// and `_` read as spaces and surrounding whitespace removed; the file name
/// itself when that leaves nothing.
pub open spec fn title_of(f: Seq<char>) -> Seq<char> {
    let t = trim(spaced(strip_md(f)));
    if t.len() == 0 {
        f
    } else {
        t
    }
}

/// `c` is an ASCII decimal digit.
pub open spec fn is_digit(c: char) -> bool {
    '0' <= c && c <= '9'
}

/// `p` is a date directory name: eight ASCII digits.
pub open spec fn is_date_dir(p: Seq<char>) -> bool {
    p.len() == 8 && forall|i: int| 0 <= i < 8 ==> is_digit(#[trigger] p[i])
}

/// The date of an article whose parent directory is named `p`:
/// `YYYYMMDD` reads as `YYYY-MM-DD`; any other name gives no date.
pub open spec fn date_of(p: Seq<char>) -> Option<Seq<char>> {
    if is_date_dir(p) {
        Some(p.subrange(0, 4) + seq!['-'] + p.subrange(4, 6) + seq!['-'] + p.subrange(6, 8))
    } else {
        None
    }
}

/// `s` with every backslash turned into a forward slash.
pub open spec fn slashed(s: Seq<char>) -> Seq<char> {
    Seq::new(s.len(), |i: int| if s[i] == '\\' { '/' } else { s[i] })
}

impl FileEntry {
    /// The file name, empty when absent.
    pub open spec fn name_view(self) -> Seq<char> {
        match self.file_name {
            Some(n) => n@,
            None => Seq::empty(),
        }
    }

    /// The parent directory name, empty when absent.
    pub open spec fn parent_view(self) -> Seq<char> {
        match self.parent_name {
            Some(p) => p@,
            None => Seq::empty(),
        }
    }

    /// The file is an article: its name is known and ends in `.md`.
    pub open spec fn listed(self) -> bool {
        self.file_name is Some && is_md_name(self.name_view())
    }

    /// The article this file stands for.
    pub open spec fn article_view(self) -> ArticleView {
        ArticleView {
            title: title_of(self.name_view()),
            path: slashed(self.path@),
            date: date_of(self.parent_view()),
        }
    }
}

/// Among files that share a title (or a date), the one whose file name is
/// smaller comes first, and then the one the walk reported first.
pub open spec fn tie_lt(es: Seq<FileEntry>, i: int, j: int) -> bool {
    ||| lex_lt(es[i].name_view(), es[j].name_view())
    ||| (es[i].name_view() == es[j].name_view() && i < j)
}

/// File `i` is listed before file `j`: undated articles first, by title;
/// then dated ones, newest date first.
pub open spec fn listing_lt(es: Seq<FileEntry>, i: int, j: int) -> bool {
    let a = es[i].article_view();
    let b = es[j].article_view();
    match (a.date, b.date) {
        (None, Some(_)) => true,
        (Some(_), None) => false,
        (None, None) => lex_lt(a.title, b.title) || (a.title == b.title && tie_lt(es, i, j)),
        (Some(da), Some(db)) => lex_lt(db, da) || (da == db && tie_lt(es, i, j)),
    }
}

/// `ord` lists every article of `es` once, in listing order.
pub open spec fn valid_listing(es: Seq<FileEntry>, ord: Seq<usize>) -> bool {
    &&& forall|a: int| 0 <= a < ord.len() ==> #[trigger] ord[a] < es.len() && es[ord[a] as int].listed()
    &&& forall|x: int| 0 <= x < es.len() && #[trigger] es[x].listed() ==> ord.contains(x as usize)
    &&& forall|a: int, b: int|
        0 <= a < b < ord.len() ==> listing_lt(es, #[trigger] ord[a] as int, #[trigger] ord[b] as int)
}

/// `arts` is the list of articles of `es` in the order `ord`.
pub open spec fn listing_matches(es: Seq<FileEntry>, arts: Seq<Article>, ord: Seq<usize>) -> bool {
    &&& valid_listing(es, ord)
    &&& arts.len() == ord.len()
    &&& forall|k: int| 0 <= k < arts.len() ==> #[trigger] arts[k]@ == es[ord[k] as int].article_view()
}

proof fn lemma_tie_irreflexive(es: Seq<FileEntry>, i: int)
    ensures
        !tie_lt(es, i, i),
{
    lemma_lex_irreflexive(es[i].name_view());
}

proof fn lemma_tie_transitive(es: Seq<FileEntry>, i: int, j: int, k: int)
    requires
        tie_lt(es, i, j),
        tie_lt(es, j, k),
    ensures
        tie_lt(es, i, k),
{
    let (ni, nj, nk) = (es[i].name_view(), es[j].name_view(), es[k].name_view());
    if lex_lt(ni, nj) && lex_lt(nj, nk) {
        lemma_lex_transitive(ni, nj, nk);
    }
}

/// No file is listed before itself.
pub proof fn lemma_listing_irreflexive(es: Seq<FileEntry>, i: int)
    ensures
        !listing_lt(es, i, i),
{
    let a = es[i].article_view();
    lemma_lex_irreflexive(a.title);
    if a.date is Some {
        lemma_lex_irreflexive(a.date->0);
    }
    lemma_tie_irreflexive(es, i);
}

/// The listing order is transitive.
pub proof fn lemma_listing_transitive(es: Seq<FileEntry>, i: int, j: int, k: int)
    requires
        listing_lt(es, i, j),
        listing_lt(es, j, k),
    ensures
        listing_lt(es, i, k),
{
    let a = es[i].article_view();
    let b = es[j].article_view();
    let c = es[k].article_view();
    if tie_lt(es, i, j) && tie_lt(es, j, k) {
        lemma_tie_transitive(es, i, j, k);
    }
    match (a.date, b.date, c.date) {
        (None, None, None) => {
            if lex_lt(a.title, b.title) && lex_lt(b.title, c.title) {
                lemma_lex_transitive(a.title, b.title, c.title);
            }
        },
        (Some(da), Some(db), Some(dc)) => {
            if lex_lt(dc, db) && lex_lt(db, da) {
                lemma_lex_transitive(dc, db, da);
            }
        },
        _ => {},
    }
}

/// The listing order is asymmetric.
pub proof fn lemma_listing_asymmetric(es: Seq<FileEntry>, i: int, j: int)
    requires
        listing_lt(es, i, j),
    ensures
        !listing_lt(es, j, i),
{
    if listing_lt(es, j, i) {
        lemma_listing_transitive(es, i, j, i);
        lemma_listing_irreflexive(es, i);
    }
}

/// The title for a file whose name is `name`.
pub fn title_chars(name: &Vec<char>) -> (t: Vec<char>)
    ensures
        t@ == title_of(name@),
{
    let n = name.len();
    let stem = if n >= 3 && name[n - 3] == '.' && name[n - 2] == 'm' && name[n - 1] == 'd' {
        n - 3
    } else {
        n
    };
    let mut sp: Vec<char> = Vec::new();
    let mut i: usize = 0;
    while i < stem
        invariant
            stem <= n == name@.len(),
            strip_md(name@) == name@.subrange(0, stem as int),
            i <= stem,
            sp@ == spaced(name@.subrange(0, stem as int)).subrange(0, i as int),
        decreases stem - i,
    {
        let c = name[i];
        if c == '-' || c == '_' {
            sp.push(' ');
        } else {
            sp.push(c);
        }
        i = i + 1;
    }
    assert(sp@ =~= spaced(strip_md(name@)));
    let (a, b) = trim_bounds(&sp);
    if a == b {
        name.clone()
    } else {
        let mut t: Vec<char> = Vec::new();
        let mut j = a;
        while j < b
            invariant
                a <= j <= b <= sp@.len(),
                t@ == sp@.subrange(a as int, j as int),
            decreases b - j,
        {
            t.push(sp[j]);
            j = j + 1;
        }
        t
    }
}

/// Infers an article title from its file name: drops `.md`, reads `-` and
/// `_` as spaces and trims; falls back to the file name when nothing is left.
pub fn extract_title(filename: &str) -> (r: String)
    ensures
        r@ == title_of(filename@),
{
    let name = chars_of(filename);
    let t = title_chars(&name);
    string_from_chars(&t)
}

/// The date for a parent directory named `p`.
pub fn date_chars(p: &Vec<char>) -> (d: Option<Vec<char>>)
    ensures
        opt_seq(d) == date_of(p@),
{
    if p.len() != 8 {
        return None;
    }
    let mut i: usize = 0;
    while i < 8
        invariant
            p@.len() == 8,
            i <= 8,
            forall|k: int| 0 <= k < i ==> is_digit(#[trigger] p@[k]),
        decreases 8 - i,
    {
        if !('0' <= p[i] && p[i] <= '9') {
            return None;
        }
        i = i + 1;
    }
    let mut d: Vec<char> = Vec::new();
    d.push(p[0]);
    d.push(p[1]);
    d.push(p[2]);
    d.push(p[3]);
    d.push('-');
    d.push(p[4]);
    d.push(p[5]);
    d.push('-');
    d.push(p[6]);
    d.push(p[7]);
    assert(d@ =~= p@.subrange(0, 4) + seq!['-'] + p@.subrange(4, 6) + seq!['-'] + p@.subrange(
        6,
        8,
    ));
    Some(d)
}

/// The view of an optional character vector.
pub open spec fn opt_seq(o: Option<Vec<char>>) -> Option<Seq<char>> {
    match o {
        Some(v) => Some(v@),
        None => None,
    }
}

/// Extracts the date from a parent directory name: `YYYYMMDD` becomes
/// `YYYY-MM-DD`; any other name gives `None`.
pub fn extract_date(parent_name: &str) -> (r: Option<String>)
    ensures
        opt_view(r) == date_of(parent_name@),
{
    let p = chars_of(parent_name);
    match date_chars(&p) {
        Some(d) => Some(string_from_chars(&d)),
        None => None,
    }
}

/// `s` with every backslash turned into a forward slash.
pub fn slashed_string(s: &str) -> (r: String)
    ensures
        r@ == slashed(s@),
{
    let cs = chars_of(s);
    let mut out: Vec<char> = Vec::new();
    let mut i: usize = 0;
    while i < cs.len()
        invariant
            i <= cs@.len(),
            out@ == slashed(cs@).subrange(0, i as int),
        decreases cs@.len() - i,
    {
        if cs[i] == '\\' {
            out.push('/');
        } else {
            out.push(cs[i]);
        }
        i = i + 1;
    }
    assert(out@ =~= slashed(cs@));
    string_from_chars(&out)
}

/// What the listing compares files by, computed once per file.
struct SortKey {
    listed: bool,
    title: Vec<char>,
    date: Option<Vec<char>>,
    name: Vec<char>,
}

/// `k` holds the sort key of `e`.
spec fn key_matches(k: SortKey, e: FileEntry) -> bool {
    &&& k.listed == e.listed()
    &&& e.listed() ==> {
        &&& k.title@ == e.article_view().title
        &&& opt_seq(k.date) == e.article_view().date
        &&& k.name@ == e.name_view()
    }
}

fn sort_key(e: &FileEntry) -> (k: SortKey)
    ensures
        key_matches(k, *e),
{
    match &e.file_name {
        Some(n) => {
            let name = chars_of(n.as_str());
            let m = name.len();
            if m >= 3 && name[m - 3] == '.' && name[m - 2] == 'm' && name[m - 1] == 'd' {
                let title = title_chars(&name);
                let parent = match &e.parent_name {
                    Some(p) => chars_of(p.as_str()),
                    None => Vec::new(),
                };
                proof {
                    assert(parent@ == e.parent_view());
                }
                let date = date_chars(&parent);
                SortKey { listed: true, title, date, name }
            } else {
                SortKey { listed: false, title: Vec::new(), date: None, name }
            }
        },
        None => SortKey { listed: false, title: Vec::new(), date: None, name: Vec::new() },
    }
}

/// Whether file `i` comes before file `j` in the listing (they are
/// distinct articles, so one of them does).
fn listing_before(Ghost(es): Ghost<Seq<FileEntry>>, keys: &Vec<SortKey>, i: usize, j: usize) -> (r:
    bool)
    requires
        i < keys@.len(),
        j < keys@.len(),
        keys@.len() == es.len(),
        i != j,
        key_matches(keys@[i as int], es[i as int]),
        key_matches(keys@[j as int], es[j as int]),
        es[i as int].listed(),
        es[j as int].listed(),
    ensures
        r ==> listing_lt(es, i as int, j as int),
        !r ==> listing_lt(es, j as int, i as int),
{
    let ki = &keys[i];
    let kj = &keys[j];
    let c = match (&ki.date, &kj.date) {
        (None, Some(_)) => {
            return true;
        },
        (Some(_), None) => {
            return false;
        },
        (None, None) => compare_chars(&ki.title, &kj.title),
        (Some(di), Some(dj)) => compare_chars(dj, di),
    };
    if c < 0 {
        return true;
    }
    if c > 0 {
        return false;
    }
    let t = compare_chars(&ki.name, &kj.name);
    if t < 0 {
        true
    } else if t > 0 {
        false
    } else {
        i < j
    }
}

/// The articles among `files`, in listing order: undated articles first,
/// by title; then dated articles, newest first. Ties keep the order of
/// file names, then the order in which the walk reported the files.
pub fn list_articles(files: &Vec<FileEntry>) -> (arts: Vec<Article>)
    ensures
        exists|ord: Seq<usize>| listing_matches(files@, arts@, ord),
        forall|i: int, j: int|
            0 <= i < j < arts@.len() && (#[trigger] arts@[i]).date is Some ==> (
            #[trigger] arts@[j]).date is Some,
        forall|i: int, j: int|
            0 <= i < j < arts@.len() && (#[trigger] arts@[i]).date is None && (
            #[trigger] arts@[j]).date is None ==> !lex_lt(arts@[j].title@, arts@[i].title@),
        forall|i: int, j: int|
            0 <= i < j < arts@.len() && (#[trigger] arts@[i]).date is Some && (
            #[trigger] arts@[j]).date is Some ==> !lex_lt(
                arts@[i].date->0@,
                arts@[j].date->0@,
            ),
{
    let n = files.len();
    let ghost es = files@;
    let mut keys: Vec<SortKey> = Vec::new();
    let mut k: usize = 0;
    while k < n
        invariant
            n == files@.len(),
            es == files@,
            k <= n,
            keys@.len() == k,
            forall|i: int| 0 <= i < k ==> key_matches(#[trigger] keys@[i], es[i]),
        decreases n - k,
    {
        keys.push(sort_key(&files[k]));
        k = k + 1;
    }
    let mut order: Vec<usize> = Vec::new();
    let mut k: usize = 0;
    while k < n
        invariant
            n == files@.len() == keys@.len(),
            es == files@,
            k <= n,
            forall|i: int| 0 <= i < n ==> key_matches(#[trigger] keys@[i], es[i]),
            forall|a: int|
                0 <= a < order@.len() ==> #[trigger] order@[a] < k && es[order@[a] as int].listed(),
            forall|x: int| 0 <= x < k && #[trigger] es[x].listed() ==> order@.contains(x as usize),
            forall|a: int, b: int|
                0 <= a < b < order@.len() ==> listing_lt(
                    es,
                    #[trigger] order@[a] as int,
                    #[trigger] order@[b] as int,
                ),
        decreases n - k,
    {
        if keys[k].listed {
            let mut p = order.len();
            let mut placed = false;
            while !placed
                invariant
                    n == files@.len() == keys@.len(),
                    es == files@,
                    k < n,
                    key_matches(keys@[k as int], es[k as int]),
                    es[k as int].listed(),
                    forall|i: int| 0 <= i < n ==> key_matches(#[trigger] keys@[i], es[i]),
                    forall|a: int|
                        0 <= a < order@.len() ==> #[trigger] order@[a] < k && es[order@[a] as int].listed(),
                    p <= order@.len(),
                    forall|q: int|
                        p <= q < order@.len() ==> listing_lt(es, k as int, #[trigger] order@[q] as int),
                    placed ==> p == 0 || listing_lt(es, order@[p - 1] as int, k as int),
                decreases 2 * p + (if placed { 0int } else { 1int }),
            {
                if p == 0 {
                    placed = true;
                } else if listing_before(Ghost(es), &keys, order[p - 1], k) {
                    placed = true;
                } else {
                    p = p - 1;
                }
            }
            let ghost old_order = order@;
            proof {
                assert forall|q: int| 0 <= q < p implies listing_lt(
                    es,
                    #[trigger] old_order[q] as int,
                    k as int,
                ) by {
                    if q < p - 1 {
                        lemma_listing_transitive(
                            es,
                            old_order[q] as int,
                            old_order[p - 1] as int,
                            k as int,
                        );
                    }
                }
            }
            order.insert(p, k);
            proof {
                let nw = order@;
                assert(nw == old_order.insert(p as int, k));
                assert forall|a: int, b: int| 0 <= a < b < nw.len() implies listing_lt(
                    es,
                    #[trigger] nw[a] as int,
                    #[trigger] nw[b] as int,
                ) by {
                    if b < p {
                        assert(nw[a] == old_order[a] && nw[b] == old_order[b]);
                    } else if b == p {
                        assert(nw[a] == old_order[a]);
                    } else if a == p {
                        assert(nw[b] == old_order[b - 1]);
                    } else if a < p {
                        assert(nw[a] == old_order[a] && nw[b] == old_order[b - 1]);
                    } else {
                        assert(nw[a] == old_order[a - 1] && nw[b] == old_order[b - 1]);
                    }
                }
                assert forall|a: int| 0 <= a < nw.len() implies #[trigger] nw[a] < k + 1
                    && es[nw[a] as int].listed() by {
                    if a < p {
                        assert(nw[a] == old_order[a]);
                    } else if a > p {
                        assert(nw[a] == old_order[a - 1]);
                    }
                }
                assert forall|x: int| 0 <= x < k + 1 && #[trigger] es[x].listed() implies nw.contains(
                    x as usize,
                ) by {
                    if x == k {
                        assert(nw[p as int] == k);
                    } else {
                        assert(old_order.contains(x as usize));
                        let a = choose|a: int| 0 <= a < old_order.len() && old_order[a] == x as usize;
                        if a < p {
                            assert(nw[a] == old_order[a]);
                        } else {
                            assert(nw[a + 1] == old_order[a]);
                        }
                    }
                }
            }
        }
        k = k + 1;
    }
    let mut arts: Vec<Article> = Vec::new();
    let mut a: usize = 0;
    while a < order.len()
        invariant
            n == files@.len() == keys@.len(),
            es == files@,
            forall|i: int| 0 <= i < n ==> key_matches(#[trigger] keys@[i], es[i]),
            forall|b: int| 0 <= b < order@.len() ==> #[trigger] order@[b] < n && es[order@[b] as int].listed(),
            a <= order@.len(),
            arts@.len() == a,
            forall|c: int| 0 <= c < a ==> #[trigger] arts@[c]@ == es[order@[c] as int].article_view(),
        decreases order@.len() - a,
    {
        let idx = order[a];
        let key = &keys[idx];
        let date = match &key.date {
            Some(d) => Some(string_from_chars(d)),
            None => None,
        };
        let art = Article {
            title: string_from_chars(&key.title),
            path: slashed_string(files[idx].path.as_str()),
            date,
        };
        assert(art@ == es[idx as int].article_view());
        arts.push(art);
        a = a + 1;
    }
    proof {
        assert(listing_matches(es, arts@, order@));
        lemma_listing_shape(es, arts@, order@);
    }
    arts
}

/// In a listing, undated articles come before dated ones, undated titles
/// ascend and dates descend.
pub proof fn lemma_listing_shape(es: Seq<FileEntry>, arts: Seq<Article>, ord: Seq<usize>)
    requires
        listing_matches(es, arts, ord),
    ensures
        forall|i: int, j: int|
            0 <= i < j < arts.len() && (#[trigger] arts[i]).date is Some ==> (
            #[trigger] arts[j]).date is Some,
        forall|i: int, j: int|
            0 <= i < j < arts.len() && (#[trigger] arts[i]).date is None && (
            #[trigger] arts[j]).date is None ==> !lex_lt(arts[j].title@, arts[i].title@),
        forall|i: int, j: int|
            0 <= i < j < arts.len() && (#[trigger] arts[i]).date is Some && (
            #[trigger] arts[j]).date is Some ==> !lex_lt(arts[i].date->0@, arts[j].date->0@),
{
    assert forall|i: int, j: int|
        0 <= i < j < arts.len() implies {
        &&& (#[trigger] arts[i]).date is Some ==> (#[trigger] arts[j]).date is Some
        &&& arts[i].date is None && arts[j].date is None ==> !lex_lt(arts[j].title@, arts[i].title@)
        &&& arts[i].date is Some && arts[j].date is Some ==> !lex_lt(
            arts[i].date->0@,
            arts[j].date->0@,
        )
    } by {
        let (x, y) = (ord[i] as int, ord[j] as int);
        assert(listing_lt(es, x, y));
        assert(arts[i]@ == es[x].article_view());
        assert(arts[j]@ == es[y].article_view());
        let a = es[x].article_view();
        let b = es[y].article_view();
        if a.date is None && b.date is None && lex_lt(b.title, a.title) {
            lemma_lex_asymmetric(b.title, a.title);
            lemma_lex_irreflexive(a.title);
        }
        if a.date is Some && b.date is Some && lex_lt(a.date->0, b.date->0) {
            lemma_lex_asymmetric(a.date->0, b.date->0);
            lemma_lex_irreflexive(a.date->0);
        }
    }
}

/// The title of a file `w.md`, where `w` neither starts nor ends with
/// whitespace, `-` or `_`, is `w` itself with each `-` and `_` read as a
/// space: nothing else of the name is dropped or changed.
pub proof fn law_title_reads_dashes_as_spaces(w: Seq<char>)
    requires
        w.len() > 0,
        !is_ws(w[0]) && w[0] != '-' && w[0] != '_',
        !is_ws(w[w.len() - 1]) && w[w.len() - 1] != '-' && w[w.len() - 1] != '_',
    ensures
        title_of(w + ".md"@).len() == w.len(),
        forall|i: int|
            0 <= i < w.len() ==> #[trigger] title_of(w + ".md"@)[i] == (if w[i] == '-' || w[i] == '_' {
                ' '
            } else {
                w[i]
            }),
{
    reveal_strlit(".md");
    let f = w + ".md"@;
    assert(is_md_name(f));
    assert(strip_md(f) =~= w);
    let s = spaced(w);
    assert(!is_ws(s[0]) && !is_ws(s[s.len() - 1]));
    lemma_lead_ws(s, 0);
    lemma_trail_ws(s, s.len() as int);
    assert(trim(s) =~= s);
}

/// A file name whose stem holds nothing but whitespace, `-` and `_` keeps
/// its whole name as title.
pub proof fn law_blank_stems_keep_the_file_name(f: Seq<char>)
    requires
        forall|i: int|
            0 <= i < strip_md(f).len() ==> is_ws(#[trigger] strip_md(f)[i]) || strip_md(f)[i] == '-'
                || strip_md(f)[i] == '_',
    ensures
        title_of(f) == f,
{
    let s = spaced(strip_md(f));
    assert forall|k: int| 0 <= k < s.len() implies is_ws(#[trigger] s[k]) by {
        reveal_strlit(" ");
        assert(is_ws(' '));
    }
    lemma_lead_ws(s, s.len() as int);
}

/// The date of an article lies in its parent directory's name exactly when
/// that name is eight ASCII digits `YYYYMMDD`, and then it is `YYYY-MM-DD`:
/// ten characters, dashes at positions 4 and 7, the digits in their order.
pub proof fn law_date_is_dashed_directory_name(p: Seq<char>)
    ensures
        date_of(p) is Some <==> (p.len() == 8 && forall|i: int|
            0 <= i < 8 ==> '0' <= #[trigger] p[i] && p[i] <= '9'),
        date_of(p) matches Some(d) ==> {
            &&& d.len() == 10
            &&& d[4] == '-' && d[7] == '-'
            &&& forall|i: int| 0 <= i < 4 ==> #[trigger] d[i] == p[i]
            &&& forall|i: int| 4 <= i < 6 ==> #[trigger] d[i + 1] == p[i]
            &&& forall|i: int| 6 <= i < 8 ==> #[trigger] d[i + 2] == p[i]
        },
{
    if date_of(p) is Some {
        let d = date_of(p)->0;
        assert(d.len() == 10);
        assert forall|i: int| 4 <= i < 6 implies #[trigger] d[i + 1] == p[i] by {}
        assert forall|i: int| 6 <= i < 8 implies #[trigger] d[i + 2] == p[i] by {}
    }
}

} // verus!
