//! Direct search of the article files (file name and content) with a
//! case-insensitive literal pattern, and the highlighted snippet of the
//! first content match.

use vstd::prelude::*;
use regex::Regex;
use crate::articles::{
    date_of, extract_date, extract_title, opt_view, slashed, slashed_string, title_of, FileEntry,
};
use crate::text::{chars_of, push_char, string_from_chars, utf8_lossy, utf8_lossy_of};

verus! {

broadcast use vstd::string::group_string_axioms;

#[verifier::external_type_specification]
#[verifier::external_body]
pub struct ExRegex(Regex);

#[verifier::external_type_specification]
#[verifier::external_body]
pub struct ExRegexError(regex::Error);

/// Characters at most read from an article's content.
pub const CONTENT_READ_LIMIT_CHARS: usize = 1024 * 100;

/// Bytes at most read from an article's file (four per character at most).
pub const CONTENT_READ_BYTES: usize = CONTENT_READ_LIMIT_CHARS * 4;

/// Characters of context kept on each side of the first match.
pub const SNIPPET_PADDING: usize = 60;

/// Longest snippet before it is cut, in characters.
pub const SNIPPET_MAX_LEN: usize = 200;

/// One search result.
#[derive(Debug, Clone)]
pub struct SearchResult {
    pub title: String,
    pub path: String,
    pub date: Option<String>,
    /// Highlighted excerpt of the content; empty unless the content matched.
    pub snippet: String,
    /// `title`, `content` or `title|content`: what matched.
    pub match_in: String,
}

/// A file of the article directory with the start of its content: the
/// first `CONTENT_READ_BYTES` bytes read from it, `None` when it could not
/// be read.
#[derive(Debug, Clone)]
pub struct ArticleFile {
    pub file: FileEntry,
    pub content: Option<Vec<u8>>,
}

/// `c` has a meaning of its own in a regular expression.
pub open spec fn is_regex_meta(c: char) -> bool {
    ||| c == '\\' || c == '.' || c == '+' || c == '*' || c == '?' || c == '('
    ||| c == ')' || c == '|' || c == '[' || c == ']' || c == '{' || c == '}'
    ||| c == '^' || c == '$' || c == '#' || c == '&' || c == '-' || c == '~'
}

/// `t` with a backslash before each meta character.
pub open spec fn regex_escaped(t: Seq<char>) -> Seq<char>
    decreases t.len(),
{
    if t.len() == 0 {
        Seq::empty()
    } else {
        let prev = regex_escaped(t.drop_last());
        if is_regex_meta(t.last()) {
            prev.push('\\').push(t.last())
        } else {
            prev.push(t.last())
        }
    }
}

/// `text` with every meta character escaped, so that it matches literally
/// (what `regex::escape` does, stated whole by `regex_escaped`).
fn escape_regex(text: &str) -> (r: String)
    ensures
        r@ == regex_escaped(text@),
{
    let cs = chars_of(text);
    let mut out = String::new();
    let mut i: usize = 0;
    while i < cs.len()
        invariant
            cs@ == text@,
            i <= cs@.len(),
            out@ == regex_escaped(cs@.subrange(0, i as int)),
        decreases cs@.len() - i,
    {
        let c = cs[i];
        assert(cs@.subrange(0, i + 1).drop_last() =~= cs@.subrange(0, i as int));
        assert(cs@.subrange(0, i + 1).last() == c);
        if c == '\\' || c == '.' || c == '+' || c == '*' || c == '?' || c == '(' || c == ')'
            || c == '|' || c == '[' || c == ']' || c == '{' || c == '}' || c == '^' || c == '$'
            || c == '#' || c == '&' || c == '-' || c == '~' {
            push_char(&mut out, '\\');
        }
        push_char(&mut out, c);
        i = i + 1;
    }
    assert(cs@.subrange(0, i as int) =~= cs@);
    out
}

/// A compiled regular expression together with the pattern it was
/// compiled from. Only `Pattern::new` makes one, so the two always agree.
pub struct Pattern {
    source: String,
    re: Regex,
}

impl Pattern {
    /// The pattern the expression was compiled from.
    pub closed spec fn source(&self) -> Seq<char> {
        self.source@
    }
}

/// Whether `pattern` is accepted by `Regex::new`: valid syntax, and within
/// the default size limits. A function of the pattern alone.
pub uninterp spec fn regex_compiles(pattern: Seq<char>) -> bool;

/// Whether the expression compiled from `pattern` matches somewhere in
/// `text` (`Regex::is_match`).
pub uninterp spec fn regex_matches_of(pattern: Seq<char>, text: Seq<char>) -> bool;

/// The byte range of the leftmost-first match of the expression compiled
/// from `pattern` in `text` (`Regex::find`).
pub uninterp spec fn regex_first_match_of(pattern: Seq<char>, text: Seq<char>) -> Option<
    (usize, usize),
>;

/// `text` with every match of the expression compiled from `pattern` put
/// between `<mark>` and `</mark>` (`Regex::replace_all` with
/// `<mark>$0</mark>`).
pub uninterp spec fn regex_marked_of(pattern: Seq<char>, text: Seq<char>) -> Seq<char>;

/// Compiles `pattern` (`Regex::new`), keeping the pattern beside the
/// expression. Fails exactly when `regex_compiles` says so.
#[verifier::external_body]
fn compile_regex(pattern: &str) -> (r: Result<Pattern, regex::Error>)
    ensures
        r is Ok <==> regex_compiles(pattern@),
        r matches Ok(p) ==> p.source() == pattern@,
{
    match Regex::new(pattern) {
        Ok(re) => Ok(Pattern { source: pattern.to_string(), re }),
        Err(e) => Err(e),
    }
}

/// Whether `p` matches somewhere in `text` (`Regex::is_match`).
#[verifier::external_body]
fn regex_is_match(p: &Pattern, text: &str) -> (r: bool)
    ensures
        r == regex_matches_of(p.source(), text@),
{
    p.re.is_match(text)
}

impl Pattern {
    /// Compiles `pattern`; fails exactly when `Regex::new` refuses it.
    pub fn new(pattern: &str) -> (r: Result<Pattern, regex::Error>)
        ensures
            r is Ok <==> regex_compiles(pattern@),
            r matches Ok(p) ==> p.source() == pattern@,
    {
        compile_regex(pattern)
    }
}

/// The pattern searched for a query: `q` matched literally, ignoring case.
pub open spec fn literal_pattern(q: Seq<char>) -> Seq<char> {
    "(?i)"@ + regex_escaped(q)
}

/// The characters that regular-expression syntax gives a meaning of their
/// own (regex-syntax's `is_meta_character`).
pub open spec fn regex_syntax_special(c: char) -> bool {
    c == '\\' || c == '.' || c == '+' || c == '*' || c == '?' || c == '(' || c == ')' || c == '|'
        || c == '[' || c == ']' || c == '{' || c == '}' || c == '^' || c == '$' || c == '#' || c
        == '&' || c == '-' || c == '~'
}

/// An ASCII letter or digit: after a backslash, it would name a class or
/// an assertion (such as `\b`), not itself.
pub open spec fn ascii_word_char(c: char) -> bool {
    ('a' <= c && c <= 'z') || ('A' <= c && c <= 'Z') || ('0' <= c && c <= '9')
}

/// `p` is a sequence of literal atoms, each matching one character as
/// itself: a character without a meaning of its own, or a backslash
/// followed by a character that is neither an ASCII letter nor a digit.
pub open spec fn literal_atoms(p: Seq<char>) -> bool
    decreases p.len(),
{
    if p.len() == 0 {
        true
    } else if p[0] == '\\' {
        p.len() >= 2 && !ascii_word_char(p[1]) && literal_atoms(p.subrange(2, p.len() as int))
    } else {
        !regex_syntax_special(p[0]) && literal_atoms(p.drop_first())
    }
}

/// The characters the literal atoms of `p` match, in order.
pub open spec fn atoms_text(p: Seq<char>) -> Seq<char>
    decreases p.len(),
{
    if p.len() == 0 {
        Seq::empty()
    } else if p[0] == '\\' && p.len() >= 2 {
        seq![p[1]] + atoms_text(p.subrange(2, p.len() as int))
    } else {
        seq![p[0]] + atoms_text(p.drop_first())
    }
}

/// `regex_escaped(t) + rest`, read from the front.
proof fn lemma_escaped_front(t: Seq<char>, rest: Seq<char>)
    requires
        literal_atoms(rest),
    ensures
        literal_atoms(regex_escaped(t) + rest),
        atoms_text(regex_escaped(t) + rest) == t + atoms_text(rest),
    decreases t.len(),
{
    if t.len() == 0 {
        assert(regex_escaped(t) + rest =~= rest);
        assert(t + atoms_text(rest) =~= atoms_text(rest));
    } else {
        let c = t.last();
        let one: Seq<char> = if is_regex_meta(c) {
            seq!['\\', c]
        } else {
            seq![c]
        };
        let rest2 = one + rest;
        if is_regex_meta(c) {
            assert(!ascii_word_char(c));
            assert(rest2.subrange(2, rest2.len() as int) =~= rest);
            assert(atoms_text(rest2) =~= seq![c] + atoms_text(rest));
        } else {
            assert(!regex_syntax_special(c));
            assert(rest2.drop_first() =~= rest);
            assert(atoms_text(rest2) =~= seq![c] + atoms_text(rest));
        }
        assert(literal_atoms(rest2));
        lemma_escaped_front(t.drop_last(), rest2);
        if is_regex_meta(c) {
            assert(regex_escaped(t) =~= regex_escaped(t.drop_last()).push('\\').push(c));
        } else {
            assert(regex_escaped(t) =~= regex_escaped(t.drop_last()).push(c));
        }
        assert(regex_escaped(t) + rest =~= regex_escaped(t.drop_last()) + rest2);
        assert(t =~= t.drop_last() + seq![c]);
        assert(t.drop_last() + (seq![c] + atoms_text(rest)) =~= t + atoms_text(rest));
    }
}

/// The search pattern of `q` is the case-insensitive flag `(?i)` followed
/// by literal atoms that spell exactly `q`: nothing in it but `q`'s own
/// characters, matched as themselves (no class, anchor or word boundary).
pub proof fn law_search_pattern_spells_the_query(q: Seq<char>)
    ensures
        literal_pattern(q).len() >= 4,
        literal_pattern(q).subrange(0, 4) == "(?i)"@,
        literal_atoms(literal_pattern(q).subrange(4, literal_pattern(q).len() as int)),
        atoms_text(literal_pattern(q).subrange(4, literal_pattern(q).len() as int)) == q,
{
    reveal_strlit("(?i)");
    let p = literal_pattern(q);
    assert(p.subrange(0, 4) =~= "(?i)"@);
    assert(p.subrange(4, p.len() as int) =~= regex_escaped(q));
    lemma_escaped_front(q, Seq::empty());
    assert(regex_escaped(q) + Seq::<char>::empty() =~= regex_escaped(q));
    assert(q + atoms_text(Seq::<char>::empty()) =~= q);
}

/// The pattern that matches `q` literally, ignoring case.
pub fn literal_pattern_of(q: &str) -> (r: String)
    ensures
        r@ == literal_pattern(q@),
{
    let escaped = escape_regex(q);
    String::from_str("(?i)").concat(escaped.as_str())
}

/// Bytes that encode `c` in UTF-8.
pub open spec fn utf8_width(c: char) -> nat {
    if (c as u32) < 0x80 {
        1
    } else if (c as u32) < 0x800 {
        2
    } else if (c as u32) < 0x10000 {
        3
    } else {
        4
    }
}

/// Bytes that encode `s` in UTF-8.
pub open spec fn utf8_len(s: Seq<char>) -> nat
    decreases s.len(),
{
    if s.len() == 0 {
        0
    } else {
        utf8_len(s.drop_last()) + utf8_width(s.last())
    }
}

/// Byte range `(start, end)` of the leftmost-first match of `p` in
/// `text` (`Regex::find`): present exactly when `p` matches; its bounds lie
/// between characters, within the text.
#[verifier::external_body]
fn regex_find(p: &Pattern, text: &str) -> (r: Option<(usize, usize)>)
    ensures
        r == regex_first_match_of(p.source(), text@),
        r is Some <==> regex_matches_of(p.source(), text@),
        r matches Some(m) ==> m.0 <= m.1 <= utf8_len(text@),
{
    p.re.find(text).map(|m| (m.start(), m.end()))
}

/// `pieces` joined in order; with `marking`, each piece at an odd position
/// is put between `<mark>` and `</mark>`.
pub open spec fn join_marked(pieces: Seq<Seq<char>>, marking: bool) -> Seq<char>
    decreases pieces.len(),
{
    if pieces.len() == 0 {
        Seq::empty()
    } else {
        let prev = join_marked(pieces.drop_last(), marking);
        if marking && pieces.len() % 2 == 0 {
            prev + "<mark>"@ + pieces.last() + "</mark>"@
        } else {
            prev + pieces.last()
        }
    }
}

/// `marked` is `text` with some stretches of it, none overlapping, put
/// between `<mark>` and `</mark>`.
pub open spec fn marks_in(text: Seq<char>, marked: Seq<char>) -> bool {
    exists|pieces: Seq<Seq<char>>|
        #[trigger] join_marked(pieces, false) == text && join_marked(pieces, true) == marked
}

/// `text` with every match of `p` put between `<mark>` and `</mark>`
/// (`Regex::replace_all` with `<mark>$0</mark>`): the text cut into
/// stretches that do not match and matches, in turn, each match replaced by
/// itself between the marks.
#[verifier::external_body]
fn regex_mark_all(p: &Pattern, text: &str) -> (r: String)
    ensures
        r@ == regex_marked_of(p.source(), text@),
        marks_in(text@, r@),
{
    p.re.replace_all(text, "<mark>$0</mark>").into_owned()
}

/// The number of characters of `s` that lie wholly within its first `b`
/// bytes.
pub open spec fn chars_within(s: Seq<char>, b: int, k: int) -> bool {
    &&& 0 <= k <= s.len()
    &&& utf8_len(s.subrange(0, k)) <= b
    &&& (k == s.len() || utf8_len(s.subrange(0, k + 1)) > b)
}

/// The number of characters of `cs` that lie wholly within its first
/// `byte` bytes (the character count of a byte prefix).
fn char_offset(cs: &Vec<char>, byte: usize) -> (k: usize)
    ensures
        chars_within(cs@, byte as int, k as int),
{
    let mut k: usize = 0;
    let mut total: usize = 0;
    while k < cs.len()
        invariant
            k <= cs@.len(),
            total == utf8_len(cs@.subrange(0, k as int)),
            total <= byte,
        decreases cs@.len() - k,
    {
        let c = cs[k];
        let u = c as u32;
        let w: usize = if u < 0x80 {
            1
        } else if u < 0x800 {
            2
        } else if u < 0x10000 {
            3
        } else {
            4
        };
        assert(cs@.subrange(0, k + 1).drop_last() =~= cs@.subrange(0, k as int));
        assert(w == utf8_width(c));
        if w > byte - total {
            return k;
        }
        total = total + w;
        k = k + 1;
    }
    k
}

/// `s` with every line feed turned into a space.
pub open spec fn unwrapped(s: Seq<char>) -> Seq<char> {
    Seq::new(s.len(), |i: int| if s[i] == '\n' { ' ' } else { s[i] })
}

/// The excerpt around a match that starts after `ks` characters and ends
/// after `ke`: 60 characters of context on each side (as far as the text
/// goes), line feeds read as spaces.
pub open spec fn window_of(cs: Seq<char>, ks: int, ke: int) -> Seq<char> {
    let start = if ks >= 60 { ks - 60 } else { 0 };
    let end = if ke + 60 <= cs.len() { ke + 60 } else { cs.len() as int };
    unwrapped(cs.subrange(start, end))
}

/// The excerpt of `content` around the match at bytes `start..end`: the
/// match with 60 characters on each side, line feeds turned into spaces.
pub fn snippet_window(content: &str, start: usize, end: usize) -> (r: String)
    requires
        start <= end,
    ensures
        forall|ks: int, ke: int|
            chars_within(content@, start as int, ks) && chars_within(content@, end as int, ke)
                ==> r@ == window_of(content@, ks, ke),
        exists|ks: int, ke: int|
            #![trigger chars_within(content@, start as int, ks), chars_within(content@, end as int, ke)]
            chars_within(content@, start as int, ks) && chars_within(content@, end as int, ke)
                && ks <= ke && r@ == window_of(content@, ks, ke),
{
    let cs = chars_of(content);
    let ks = char_offset(&cs, start);
    let ke = char_offset(&cs, end);
    proof {
        lemma_chars_within_unique(cs@, start as int, ks as int);
        lemma_chars_within_unique(cs@, end as int, ke as int);
        lemma_chars_within_monotone(cs@, start as int, end as int, ks as int, ke as int);
    }
    let from = if ks >= SNIPPET_PADDING {
        ks - SNIPPET_PADDING
    } else {
        0
    };
    let to = if cs.len() >= SNIPPET_PADDING && ke <= cs.len() - SNIPPET_PADDING {
        ke + SNIPPET_PADDING
    } else {
        cs.len()
    };
    let mut out: Vec<char> = Vec::new();
    let mut i = from;
    while i < to
        invariant
            from <= i <= to <= cs@.len(),
            out@ == unwrapped(cs@.subrange(from as int, to as int)).subrange(0, i - from),
        decreases to - i,
    {
        if cs[i] == '\n' {
            out.push(' ');
        } else {
            out.push(cs[i]);
        }
        i = i + 1;
    }
    assert(out@ =~= window_of(cs@, ks as int, ke as int));
    string_from_chars(&out)
}

/// `utf8_len` grows with the prefix.
proof fn lemma_utf8_len_prefix(s: Seq<char>, i: int, j: int)
    requires
        0 <= i <= j <= s.len(),
    ensures
        utf8_len(s.subrange(0, i)) + (j - i) <= utf8_len(s.subrange(0, j)),
    decreases j - i,
{
    if i < j {
        lemma_utf8_len_prefix(s, i, j - 1);
        assert(s.subrange(0, j).drop_last() =~= s.subrange(0, j - 1));
    }
}

/// A byte count has one character count.
proof fn lemma_chars_within_unique(s: Seq<char>, b: int, k: int)
    requires
        chars_within(s, b, k),
    ensures
        forall|k2: int| chars_within(s, b, k2) ==> k2 == k,
{
    assert forall|k2: int| chars_within(s, b, k2) implies k2 == k by {
        if k2 < k {
            lemma_utf8_len_prefix(s, k2 + 1, k);
        } else if k < k2 {
            lemma_utf8_len_prefix(s, k + 1, k2);
        }
    }
}

/// More bytes hold at least as many characters.
proof fn lemma_chars_within_monotone(s: Seq<char>, b1: int, b2: int, k1: int, k2: int)
    requires
        b1 <= b2,
        chars_within(s, b1, k1),
        chars_within(s, b2, k2),
    ensures
        k1 <= k2,
{
    if k2 < k1 {
        lemma_utf8_len_prefix(s, k2 + 1, k1);
    }
}

/// A snippet after marking: cut to 200 characters followed by `…` when
/// longer.
pub open spec fn finished(s: Seq<char>) -> Seq<char> {
    if s.len() > SNIPPET_MAX_LEN {
        s.subrange(0, SNIPPET_MAX_LEN as int).push('…')
    } else {
        s
    }
}

/// Cuts a marked snippet to 200 characters and appends `…` when it is
/// longer.
pub fn finish_snippet(marked: &str) -> (r: String)
    ensures
        r@ == finished(marked@),
{
    let cs = chars_of(marked);
    if cs.len() > SNIPPET_MAX_LEN {
        let mut s = crate::text::string_from_range(&cs, 0, SNIPPET_MAX_LEN);
        push_char(&mut s, '…');
        s
    } else {
        string_from_chars(&cs)
    }
}

/// The number of characters of `s` within its first `b` bytes.
pub open spec fn char_index(s: Seq<char>, b: int) -> int {
    choose|k: int| chars_within(s, b, k)
}

/// The snippet of `content` for `pattern`: empty when it does not match;
/// else the first match with 60 characters of context on each side, line
/// feeds read as spaces, every match in that window marked, cut to 200
/// characters plus `…`.
pub open spec fn snippet_for(pattern: Seq<char>, content: Seq<char>) -> Seq<char> {
    match regex_first_match_of(pattern, content) {
        None => Seq::empty(),
        Some(m) => finished(
            regex_marked_of(
                pattern,
                window_of(content, char_index(content, m.0 as int), char_index(content, m.1 as int)),
            ),
        ),
    }
}

/// `s` holds no line feed.
pub open spec fn no_line_feed(s: Seq<char>) -> bool {
    forall|i: int| 0 <= i < s.len() ==> s[i] != '\n'
}

/// Joining keeps out line feeds.
proof fn lemma_no_line_feed_add(a: Seq<char>, b: Seq<char>)
    ensures
        no_line_feed(a + b) <==> no_line_feed(a) && no_line_feed(b),
{
    if no_line_feed(a + b) {
        assert forall|i: int| 0 <= i < a.len() implies a[i] != '\n' by {
            assert((a + b)[i] == a[i]);
        }
        assert forall|i: int| 0 <= i < b.len() implies b[i] != '\n' by {
            assert((a + b)[a.len() + i] == b[i]);
        }
    }
}

/// Marking stretches of a text without line feeds adds none.
proof fn lemma_marking_adds_no_line_feed(pieces: Seq<Seq<char>>)
    requires
        no_line_feed(join_marked(pieces, false)),
    ensures
        no_line_feed(join_marked(pieces, true)),
    decreases pieces.len(),
{
    if pieces.len() > 0 {
        let prev_plain = join_marked(pieces.drop_last(), false);
        let prev_marked = join_marked(pieces.drop_last(), true);
        let p = pieces.last();
        lemma_no_line_feed_add(prev_plain, p);
        lemma_marking_adds_no_line_feed(pieces.drop_last());
        if pieces.len() % 2 == 0 {
            reveal_strlit("<mark>");
            reveal_strlit("</mark>");
            assert(no_line_feed("<mark>"@));
            assert(no_line_feed("</mark>"@));
            lemma_no_line_feed_add(prev_marked, "<mark>"@);
            lemma_no_line_feed_add(prev_marked + "<mark>"@, p);
            lemma_no_line_feed_add(prev_marked + "<mark>"@ + p, "</mark>"@);
        } else {
            lemma_no_line_feed_add(prev_marked, p);
        }
    }
}

/// The snippet of `content` for `re`: the first match with 60 characters of
/// context on each side, line feeds turned into spaces, every match in it
/// marked with `<mark>`, cut to 200 characters plus `…`; empty when there
/// is no match.
pub fn build_snippet(content: &str, re: &Pattern) -> (r: String)
    ensures
        r@ == snippet_for(re.source(), content@),
        no_line_feed(r@),
        r@.len() <= SNIPPET_MAX_LEN + 1,
{
    let (start, end) = match regex_find(re, content) {
        Some(m) => m,
        None => {
            return String::new();
        },
    };
    let window = snippet_window(content, start, end);
    proof {
        let (ks, ke) = choose|ks: int, ke: int|
            #![trigger chars_within(content@, start as int, ks), chars_within(content@, end as int, ke)]
            chars_within(content@, start as int, ks) && chars_within(content@, end as int, ke)
                && ks <= ke && window@ == window_of(content@, ks, ke);
        lemma_chars_within_unique(content@, start as int, ks);
        lemma_chars_within_unique(content@, end as int, ke);
        assert(chars_within(content@, start as int, char_index(content@, start as int)));
        assert(chars_within(content@, end as int, char_index(content@, end as int)));
        assert(window@ == window_of(
            content@,
            char_index(content@, start as int),
            char_index(content@, end as int),
        ));
    }
    let marked = regex_mark_all(re, window.as_str());
    let r = finish_snippet(marked.as_str());
    proof {
        let pieces = choose|pieces: Seq<Seq<char>>|
            #[trigger] join_marked(pieces, false) == window@ && join_marked(pieces, true) == marked@;
        assert(no_line_feed(window@));
        lemma_marking_adds_no_line_feed(pieces);
        if marked@.len() > SNIPPET_MAX_LEN {
            assert(no_line_feed(marked@.subrange(0, SNIPPET_MAX_LEN as int)));
            assert(r@ == marked@.subrange(0, SNIPPET_MAX_LEN as int).push('…'));
        }
    }
    r
}

/// The text of an article's first bytes: decoded lossily, at most the
/// first `CONTENT_READ_LIMIT_CHARS` characters.
pub open spec fn content_text(bytes: Seq<u8>) -> Seq<char> {
    let t = utf8_lossy_of(bytes);
    if t.len() > CONTENT_READ_LIMIT_CHARS {
        t.subrange(0, CONTENT_READ_LIMIT_CHARS as int)
    } else {
        t
    }
}

/// The searched text of an article: its first bytes decoded lossily, cut
/// to `CONTENT_READ_LIMIT_CHARS` characters.
pub fn limited_text(bytes: &Vec<u8>) -> (r: String)
    ensures
        r@ == content_text(bytes@),
{
    let s = utf8_lossy(bytes);
    let cs = chars_of(s.as_str());
    if cs.len() > CONTENT_READ_LIMIT_CHARS {
        crate::text::string_from_range(&cs, 0, CONTENT_READ_LIMIT_CHARS)
    } else {
        s
    }
}

/// What matched: `title`, `content` or both joined by `|`.
pub open spec fn label_of(title: bool, content: bool) -> Seq<char> {
    if title && content {
        "title|content"@
    } else if title {
        "title"@
    } else {
        "content"@
    }
}

/// The label of what matched.
pub fn match_label(title: bool, content: bool) -> (r: String)
    requires
        title || content,
    ensures
        r@ == label_of(title, content),
{
    if title && content {
        "title|content".to_string()
    } else if title {
        "title".to_string()
    } else {
        "content".to_string()
    }
}

/// The file `e` is found by `pattern`: a readable Markdown file whose
/// name or searched text matches.
pub open spec fn found(e: ArticleFile, pattern: Seq<char>) -> bool {
    &&& e.file.listed()
    &&& e.content is Some
    &&& (regex_matches_of(pattern, e.file.name_view()) || regex_matches_of(
        pattern,
        content_text(e.content->0@),
    ))
}

/// `r` is the result for the found file `e`: its title, path and date; a
/// label saying what matched; the snippet of the content when it matched,
/// else nothing.
pub open spec fn result_for(r: SearchResult, e: ArticleFile, pattern: Seq<char>) -> bool {
    let title_hit = regex_matches_of(pattern, e.file.name_view());
    let text = content_text(e.content->0@);
    let content_hit = regex_matches_of(pattern, text);
    &&& r.title@ == title_of(e.file.name_view())
    &&& r.path@ == slashed(e.file.path@)
    &&& opt_view(r.date) == date_of(e.file.parent_view())
    &&& r.match_in@ == label_of(title_hit, content_hit)
    &&& r.snippet@ == (if content_hit {
        snippet_for(pattern, text)
    } else {
        Seq::empty()
    })
}

/// Positions, in order, of the files found by `pattern`.
pub open spec fn found_indices(files: Seq<ArticleFile>, pattern: Seq<char>) -> Seq<int>
    decreases files.len(),
{
    if files.len() == 0 {
        Seq::empty()
    } else {
        let prev = found_indices(files.drop_last(), pattern);
        if found(files.last(), pattern) {
            prev.push(files.len() - 1)
        } else {
            prev
        }
    }
}

/// The found positions of a prefix of the files start the found positions
/// of all of them, and lie within the prefix.
proof fn lemma_found_prefix(files: Seq<ArticleFile>, pattern: Seq<char>, i: int)
    requires
        0 <= i <= files.len(),
    ensures
        found_indices(files.subrange(0, i), pattern).len() <= found_indices(files, pattern).len(),
        found_indices(files.subrange(0, i), pattern) == found_indices(files, pattern).subrange(
            0,
            found_indices(files.subrange(0, i), pattern).len() as int,
        ),
        forall|k: int|
            0 <= k < found_indices(files, pattern).len() ==> 0 <= #[trigger] found_indices(
                files,
                pattern,
            )[k] < files.len(),
    decreases files.len(),
{
    if files.len() == 0 {
        assert(files.subrange(0, i) =~= files);
    } else if i == files.len() {
        assert(files.subrange(0, i) =~= files);
        lemma_found_prefix(files.drop_last(), pattern, 0);
    } else {
        assert(files.subrange(0, i) =~= files.drop_last().subrange(0, i));
        lemma_found_prefix(files.drop_last(), pattern, i);
    }
}

/// Searches the Markdown files among `files`, in order, for `q` (matched
/// literally, ignoring case) in the file name and in the start of the
/// content: the first `max_results` files found, each with its result. A
/// file whose content could not be read is passed over. Nothing is found
/// when the pattern cannot be compiled.
pub fn search_articles(files: &Vec<ArticleFile>, q: &str, max_results: usize) -> (r: Vec<
    SearchResult,
>)
    ensures
        !regex_compiles(literal_pattern(q@)) ==> r@.len() == 0,
        regex_compiles(literal_pattern(q@)) ==> {
            let f = found_indices(files@, literal_pattern(q@));
            &&& r@.len() == if f.len() < max_results {
                f.len()
            } else {
                max_results as nat
            }
            &&& forall|k: int|
                0 <= k < r@.len() ==> result_for(
                    #[trigger] r@[k],
                    files@[f[k]],
                    literal_pattern(q@),
                )
        },
{
    let pattern = literal_pattern_of(q);
    let re = match Pattern::new(pattern.as_str()) {
        Ok(re) => re,
        Err(_) => {
            return Vec::new();
        },
    };
    let ghost pat = literal_pattern(q@);
    let mut results: Vec<SearchResult> = Vec::new();
    let mut i: usize = 0;
    while i < files.len() && results.len() < max_results
        invariant
            i <= files@.len(),
            re.source() == pat,
            results@.len() <= max_results,
            results@.len() == found_indices(files@.subrange(0, i as int), pat).len(),
            forall|k: int|
                0 <= k < results@.len() ==> result_for(
                    #[trigger] results@[k],
                    files@[found_indices(files@.subrange(0, i as int), pat)[k]],
                    pat,
                ),
        decreases files@.len() - i,
    {
        let ghost pre = files@.subrange(0, i as int);
        let ghost nxt = files@.subrange(0, i + 1);
        assert(nxt.drop_last() =~= pre);
        assert(nxt.last() == files@[i as int]);
        proof {
            lemma_found_prefix(nxt, pat, i as int);
        }
        let f = &files[i].file;
        let name = match &f.file_name {
            Some(n) => n,
            None => {
                i = i + 1;
                continue;
            },
        };
        let cs = chars_of(name.as_str());
        let n = cs.len();
        if !(n >= 3 && cs[n - 3] == '.' && cs[n - 2] == 'm' && cs[n - 1] == 'd') {
            i = i + 1;
            continue;
        }
        let bytes = match &files[i].content {
            Some(b) => b,
            None => {
                i = i + 1;
                continue;
            },
        };
        let title_hit = regex_is_match(&re, name.as_str());
        let content = limited_text(bytes);
        let content_hit = regex_is_match(&re, content.as_str());
        if !title_hit && !content_hit {
            i = i + 1;
            continue;
        }
        let path = slashed_string(f.path.as_str());
        let title = extract_title(name.as_str());
        let date = match &f.parent_name {
            Some(p) => extract_date(p.as_str()),
            None => extract_date(""),
        };
        proof {
            reveal_strlit("");
        }
        let snippet = if content_hit {
            build_snippet(content.as_str(), &re)
        } else {
            String::new()
        };
        let match_in = match_label(title_hit, content_hit);
        let r = SearchResult { title, path, date, snippet, match_in };
        assert(found(files@[i as int], pat));
        assert(result_for(r, files@[i as int], pat));
        let ghost old_results = results@;
        results.push(r);
        proof {
            let fi = found_indices(nxt, pat);
            assert(fi == found_indices(pre, pat).push(i as int));
            assert forall|k: int| 0 <= k < results@.len() implies result_for(
                #[trigger] results@[k],
                files@[fi[k]],
                pat,
            ) by {
                if k < old_results.len() {
                    assert(results@[k] == old_results[k]);
                }
            }
        }
        i = i + 1;
    }
    proof {
        lemma_found_prefix(files@, pat, i as int);
        if i == files.len() {
            assert(files@.subrange(0, i as int) =~= files@);
        }
    }
    results
}

/// The label of a search result says exactly what matched: `title` is in
/// it when the file name matched, `content` when the searched text did;
/// only a content match carries a snippet.
pub proof fn law_search_labels_say_what_matched(r: SearchResult, e: ArticleFile, p: Seq<char>)
    requires
        found(e, p),
        result_for(r, e, p),
    ensures
        r.match_in@ == "title"@ || r.match_in@ == "content"@ || r.match_in@ == "title|content"@,
        (r.match_in@ == "title"@ || r.match_in@ == "title|content"@) <==> regex_matches_of(
            p,
            e.file.name_view(),
        ),
        (r.match_in@ == "content"@ || r.match_in@ == "title|content"@) <==> regex_matches_of(
            p,
            content_text(e.content->0@),
        ),
        !regex_matches_of(p, content_text(e.content->0@)) ==> r.snippet@.len() == 0,
{
    reveal_strlit("title");
    reveal_strlit("content");
    reveal_strlit("title|content");
    assert("title"@ != "content"@ && "title"@ != "title|content"@ && "content"@ != "title|content"@) by {
        assert("title"@.len() == 5 && "content"@.len() == 7 && "title|content"@.len() == 13);
    }
}

/// The files a search finds are exactly the found ones, in file order:
/// every listed position is found, positions ascend, and every found
/// position is listed.
pub proof fn law_found_files_are_all_and_only_matches(files: Seq<ArticleFile>, p: Seq<char>)
    ensures
        forall|k: int|
            0 <= k < found_indices(files, p).len() ==> 0 <= #[trigger] found_indices(files, p)[k]
                < files.len() && found(files[found_indices(files, p)[k]], p),
        forall|a: int, b: int|
            0 <= a < b < found_indices(files, p).len() ==> #[trigger] found_indices(files, p)[a]
                < #[trigger] found_indices(files, p)[b],
        forall|i: int| 0 <= i < files.len() && found(#[trigger] files[i], p) ==> found_indices(
            files,
            p,
        ).contains(i),
    decreases files.len(),
{
    if files.len() > 0 {
        let pre = files.drop_last();
        law_found_files_are_all_and_only_matches(pre, p);
        let fp = found_indices(pre, p);
        let f = found_indices(files, p);
        assert forall|k: int| 0 <= k < fp.len() implies #[trigger] fp[k] < pre.len() && files[fp[k]]
            == pre[fp[k]] by {}
        assert forall|i: int| 0 <= i < files.len() && found(#[trigger] files[i], p) implies f.contains(
            i,
        ) by {
            if i < files.len() - 1 {
                assert(pre[i] == files[i]);
                assert(fp.contains(i));
                let k = choose|k: int| 0 <= k < fp.len() && fp[k] == i;
                assert(f[k] == i);
            } else {
                assert(f[f.len() - 1] == i);
            }
        }
    }
}

/// The searched text of an article is the start of its decoded bytes: a
/// prefix of the lossy decoding, at most 102400 characters long, and all of
/// it when it is shorter.
pub proof fn law_searched_text_is_a_bounded_prefix(bytes: Seq<u8>)
    ensures
        content_text(bytes).len() <= 102400,
        content_text(bytes).len() <= utf8_lossy_of(bytes).len(),
        forall|i: int| 0 <= i < content_text(bytes).len() ==> #[trigger] content_text(bytes)[i] == utf8_lossy_of(bytes)[i],
        utf8_lossy_of(bytes).len() <= 102400 ==> content_text(bytes) == utf8_lossy_of(bytes),
{
}

/// The excerpt around a match holds the matched text (line feeds read as
/// spaces) and at most 60 characters on each side of it.
pub proof fn law_window_holds_the_match(cs: Seq<char>, ks: int, ke: int)
    requires
        0 <= ks <= ke <= cs.len(),
    ensures
        window_of(cs, ks, ke).len() <= ke - ks + 120,
        exists|off: int|
            #![trigger window_of(cs, ks, ke)[off]]
            0 <= off <= 60 && off + (ke - ks) <= window_of(cs, ks, ke).len() && forall|i: int|
                0 <= i < ke - ks ==> #[trigger] window_of(cs, ks, ke)[off + i] == (if cs[ks + i] == '\n' {
                    ' '
                } else {
                    cs[ks + i]
                }),
{
    let start = if ks >= 60 { ks - 60 } else { 0 };
    let end = if ke + 60 <= cs.len() { ke + 60 } else { cs.len() as int };
    let w = window_of(cs, ks, ke);
    let off = ks - start;
    assert(w.len() == end - start);
    assert forall|i: int| 0 <= i < ke - ks implies #[trigger] w[off + i] == (if cs[ks + i] == '\n' {
        ' '
    } else {
        cs[ks + i]
    }) by {
        assert(cs.subrange(start, end)[off + i] == cs[ks + i]);
    }
    if ke - ks > 0 {
        assert(w[off + 0] == w[off]);
    } else {
        if off < w.len() {
            assert(w[off] == w[off]);
        } else {
            assert(off == w.len());
        }
    }
}

} // verus!
