//! Decisions of the HTTP front end: which request paths may be served,
//! which query parameters are acceptable, and the error each refusal is
//! answered with.

use vstd::prelude::*;
use vstd::utf8::{decode_utf8, encode_utf8, valid_utf8};
use crate::articles::is_md_name;
use crate::text::{chars_of, trim, trimmed};

verus! {

broadcast use vstd::string::group_string_axioms;

/// Every way a request is refused, each with its status code and message.
#[derive(Debug, Clone, Copy, PartialEq, Eq)]
pub enum ApiError {
    /// The `path` parameter is missing, repeated or blank.
    MissingPath,
    /// A parameter holds a NUL character.
    InvalidCharacters,
    /// The article path has a `..` segment.
    ForbiddenPath,
    /// The article path does not end in `.md`.
    NotMarkdown,
    /// No such file (also every refused static path).
    NotFound,
    /// The article resolves outside the article directory, or not to a
    /// `.md` file.
    OutsideArticles,
    /// The article is larger than the configured limit.
    TooLarge,
    /// The article could not be read, or is not UTF-8.
    ReadFailed,
    /// The `q` parameter is missing, repeated or blank.
    MissingQuery,
    /// The query is longer than 200 characters.
    QueryTooLong,
    /// The client made too many API requests within the window.
    TooManyRequests,
    /// The response could not be produced.
    Internal,
}

/// The HTTP status code of each refusal.
pub open spec fn status_of(e: ApiError) -> u16 {
    match e {
        ApiError::MissingPath => 400,
        ApiError::InvalidCharacters => 400,
        ApiError::ForbiddenPath => 403,
        ApiError::NotMarkdown => 403,
        ApiError::NotFound => 404,
        ApiError::OutsideArticles => 403,
        ApiError::TooLarge => 413,
        ApiError::ReadFailed => 500,
        ApiError::MissingQuery => 400,
        ApiError::QueryTooLong => 400,
        ApiError::TooManyRequests => 429,
        ApiError::Internal => 500,
    }
}

/// The message sent with each refusal.
pub open spec fn message_of(e: ApiError) -> Seq<char> {
    match e {
        ApiError::MissingPath => "缺少 path 參數"@,
        ApiError::InvalidCharacters => "請求含有無效字元"@,
        ApiError::ForbiddenPath => "不允許的路徑"@,
        ApiError::NotMarkdown => "僅允許讀取 .md 檔案"@,
        ApiError::NotFound => "找不到檔案"@,
        ApiError::OutsideArticles => "路徑不在允許範圍內"@,
        ApiError::TooLarge => "檔案過大（超過設定上限）"@,
        ApiError::ReadFailed => "讀取檔案時發生錯誤"@,
        ApiError::MissingQuery => "缺少 q 參數"@,
        ApiError::QueryTooLong => "查詢字串過長（上限 200 字元）"@,
        ApiError::TooManyRequests => "請求過於頻繁，請稍後再試"@,
        ApiError::Internal => "內部錯誤"@,
    }
}

impl ApiError {
    /// The HTTP status code of this refusal.
    pub fn status(&self) -> (r: u16)
        ensures
            r == status_of(*self),
    {
        match self {
            ApiError::MissingPath => 400,
            ApiError::InvalidCharacters => 400,
            ApiError::ForbiddenPath => 403,
            ApiError::NotMarkdown => 403,
            ApiError::NotFound => 404,
            ApiError::OutsideArticles => 403,
            ApiError::TooLarge => 413,
            ApiError::ReadFailed => 500,
            ApiError::MissingQuery => 400,
            ApiError::QueryTooLong => 400,
            ApiError::TooManyRequests => 429,
            ApiError::Internal => 500,
        }
    }

    /// The message sent with this refusal.
    pub fn message(&self) -> (r: &'static str)
        ensures
            r@ == message_of(*self),
    {
        match self {
            ApiError::MissingPath => "缺少 path 參數",
            ApiError::InvalidCharacters => "請求含有無效字元",
            ApiError::ForbiddenPath => "不允許的路徑",
            ApiError::NotMarkdown => "僅允許讀取 .md 檔案",
            ApiError::NotFound => "找不到檔案",
            ApiError::OutsideArticles => "路徑不在允許範圍內",
            ApiError::TooLarge => "檔案過大（超過設定上限）",
            ApiError::ReadFailed => "讀取檔案時發生錯誤",
            ApiError::MissingQuery => "缺少 q 參數",
            ApiError::QueryTooLong => "查詢字串過長（上限 200 字元）",
            ApiError::TooManyRequests => "請求過於頻繁，請稍後再試",
            ApiError::Internal => "內部錯誤",
        }
    }
}

/// `s` equals the literal `lit`.
pub fn chars_equal(s: &Vec<char>, lit: &str) -> (r: bool)
    ensures
        r == (s@ == lit@),
{
    let l = chars_of(lit);
    if s.len() != l.len() {
        return false;
    }
    let mut i: usize = 0;
    while i < s.len()
        invariant
            s@.len() == l@.len(),
            l@ == lit@,
            i <= s@.len(),
            forall|k: int| 0 <= k < i ==> s@[k] == l@[k],
        decreases s@.len() - i,
    {
        if s[i] != l[i] {
            return false;
        }
        i = i + 1;
    }
    assert(s@ =~= l@);
    true
}

/// `s` begins with `prefix`.
pub open spec fn starts_with(s: Seq<char>, prefix: Seq<char>) -> bool {
    prefix.len() <= s.len() && s.subrange(0, prefix.len() as int) == prefix
}

/// Whether `s` begins with the literal `lit`.
pub fn chars_start_with(s: &Vec<char>, lit: &str) -> (r: bool)
    ensures
        r == starts_with(s@, lit@),
{
    let l = chars_of(lit);
    if s.len() < l.len() {
        return false;
    }
    let mut i: usize = 0;
    while i < l.len()
        invariant
            l@.len() <= s@.len(),
            l@ == lit@,
            i <= l@.len(),
            forall|k: int| 0 <= k < i ==> s@[k] == l@[k],
        decreases l@.len() - i,
    {
        if s[i] != l[i] {
            assert(s@.subrange(0, l@.len() as int)[i as int] != l@[i as int]);
            return false;
        }
        i = i + 1;
    }
    assert(s@.subrange(0, l@.len() as int) =~= l@);
    true
}

/// `s` has a `..` segment between slashes (or the ends).
pub open spec fn has_dotdot_segment(s: Seq<char>) -> bool {
    exists|i: int|
        0 <= i && i + 2 <= s.len() && (i == 0 || s[i - 1] == '/') && #[trigger] s[i] == '.' && s[i
            + 1] == '.' && (i + 2 == s.len() || s[i + 2] == '/')
}

/// Whether `s` has a `..` segment.
pub fn dotdot_segment(s: &Vec<char>) -> (r: bool)
    ensures
        r == has_dotdot_segment(s@),
{
    let n = s.len();
    let mut i: usize = 0;
    while i < n && n - i >= 2
        invariant
            n == s@.len(),
            i <= n,
            forall|k: int|
                0 <= k < i && k + 2 <= n ==> !((k == 0 || s@[k - 1] == '/') && #[trigger] s@[k]
                    == '.' && s@[k + 1] == '.' && (k + 2 == n || s@[k + 2] == '/')),
        decreases n - i,
    {
        if (i == 0 || s[i - 1] == '/') && s[i] == '.' && s[i + 1] == '.' && (i + 2 == n || s[i
            + 2] == '/') {
            return true;
        }
        i = i + 1;
    }
    false
}

/// `s` holds a NUL character.
pub open spec fn has_nul(s: Seq<char>) -> bool {
    exists|i: int| 0 <= i < s.len() && #[trigger] s[i] == '\0'
}

/// Whether `s` holds a NUL character.
pub fn contains_nul(s: &Vec<char>) -> (r: bool)
    ensures
        r == has_nul(s@),
{
    let mut i: usize = 0;
    while i < s.len()
        invariant
            i <= s@.len(),
            forall|k: int| 0 <= k < i ==> #[trigger] s@[k] != '\0',
        decreases s@.len() - i,
    {
        if s[i] == '\0' {
            return true;
        }
        i = i + 1;
    }
    false
}

/// Position `i` is the only query parameter named `key`.
pub open spec fn sole_index(ps: Seq<(String, String)>, key: Seq<char>, i: int) -> bool {
    &&& 0 <= i < ps.len()
    &&& ps[i].0@ == key
    &&& forall|j: int| 0 <= j < ps.len() && j != i ==> (#[trigger] ps[j]).0@ != key
}

/// The value of the parameter `key` when exactly one parameter has that
/// name.
pub open spec fn sole_param(ps: Seq<(String, String)>, key: Seq<char>) -> Option<Seq<char>> {
    if exists|i: int| sole_index(ps, key, i) {
        Some(ps[choose|i: int| sole_index(ps, key, i)].1@)
    } else {
        None
    }
}

/// The trimmed value of the parameter `key` when exactly one parameter has
/// that name and its value is not blank.
pub open spec fn wanted_param(ps: Seq<(String, String)>, key: Seq<char>) -> Option<Seq<char>> {
    match sole_param(ps, key) {
        Some(v) => if trim(v).len() > 0 {
            Some(trim(v))
        } else {
            None
        },
        None => None,
    }
}

/// The trimmed value of the only query parameter named `key`; `None` when
/// there is none, more than one, or it is blank.
pub fn wanted_query_param(params: &Vec<(String, String)>, key: &str) -> (r: Option<String>)
    ensures
        match r {
            Some(v) => wanted_param(params@, key@) == Some(v@),
            None => wanted_param(params@, key@) is None,
        },
{
    let k = chars_of(key);
    let mut found: Option<usize> = None;
    let mut twice = false;
    let ghost mut other: int = 0;
    let mut i: usize = 0;
    while i < params.len()
        invariant
            k@ == key@,
            i <= params@.len(),
            !twice && found is None ==> forall|j: int| 0 <= j < i ==> (#[trigger] params@[j]).0@ != key@,
            !twice && found is Some ==> {
                &&& found->0 < i
                &&& params@[found->0 as int].0@ == key@
                &&& forall|j: int|
                    0 <= j < i && j != found->0 ==> (#[trigger] params@[j]).0@ != key@
            },
            twice ==> found is Some && found->0 < i && 0 <= other < i && other != found->0
                && params@[found->0 as int].0@ == key@ && params@[other].0@ == key@,
        decreases params@.len() - i,
    {
        let name = chars_of(params[i].0.as_str());
        if chars_equal(&name, key) {
            if found.is_some() {
                if !twice {
                    proof {
                        other = i as int;
                    }
                }
                twice = true;
            } else {
                found = Some(i);
            }
        }
        i = i + 1;
    }
    if twice {
        proof {
            if exists|x: int| sole_index(params@, key@, x) {
                let x = choose|x: int| sole_index(params@, key@, x);
                assert(params@[found->0 as int].0@ == key@);
            }
        }
        return None;
    }
    match found {
        None => {
            proof {
                if exists|x: int| sole_index(params@, key@, x) {
                    let x = choose|x: int| sole_index(params@, key@, x);
                    assert(params@[x].0@ == key@);
                }
            }
            None
        },
        Some(f) => {
            proof {
                assert(sole_index(params@, key@, f as int));
                let x = choose|x: int| sole_index(params@, key@, x);
                assert(x == f);
            }
            let v = trimmed(params[f].1.as_str());
            if v.as_str().is_empty() {
                proof {
                    assert(v@.len() == 0);
                }
                None
            } else {
                proof {
                    assert(v@.len() > 0);
                }
                Some(v)
            }
        },
    }
}

/// The article path an `/api/article` request asks for, or the refusal.
pub open spec fn article_request(ps: Seq<(String, String)>) -> Result<Seq<char>, ApiError> {
    match wanted_param(ps, "path"@) {
        None => Err(ApiError::MissingPath),
        Some(p) => if has_nul(p) {
            Err(ApiError::InvalidCharacters)
        } else if has_dotdot_segment(p) {
            Err(ApiError::ForbiddenPath)
        } else if !is_md_name(p) {
            Err(ApiError::NotMarkdown)
        } else {
            Ok(p)
        },
    }
}

/// The view of a string result.
pub open spec fn result_view<E>(r: Result<String, E>) -> Result<Seq<char>, E> {
    match r {
        Ok(s) => Ok(s@),
        Err(e) => Err(e),
    }
}

/// Checks the query of an `/api/article` request: exactly one non-blank
/// `path` (trimmed), without NUL, without a `..` segment, ending in `.md`.
pub fn validate_article_request(params: &Vec<(String, String)>) -> (r: Result<String, ApiError>)
    ensures
        result_view(r) == article_request(params@),
{
    let p = match wanted_query_param(params, "path") {
        None => {
            return Err(ApiError::MissingPath);
        },
        Some(p) => p,
    };
    let cs = chars_of(p.as_str());
    if contains_nul(&cs) {
        return Err(ApiError::InvalidCharacters);
    }
    if dotdot_segment(&cs) {
        return Err(ApiError::ForbiddenPath);
    }
    let n = cs.len();
    if !(n >= 3 && cs[n - 3] == '.' && cs[n - 2] == 'm' && cs[n - 1] == 'd') {
        return Err(ApiError::NotMarkdown);
    }
    Ok(p)
}

/// Longest query accepted, in characters.
pub const MAX_QUERY_CHARS: usize = 200;

/// The query an `/api/search` request asks for, or the refusal.
pub open spec fn search_request(ps: Seq<(String, String)>) -> Result<Seq<char>, ApiError> {
    match wanted_param(ps, "q"@) {
        None => Err(ApiError::MissingQuery),
        Some(q) => if q.len() > MAX_QUERY_CHARS {
            Err(ApiError::QueryTooLong)
        } else if has_nul(q) {
            Err(ApiError::InvalidCharacters)
        } else {
            Ok(q)
        },
    }
}

/// Checks the query of an `/api/search` request: exactly one non-blank `q`
/// (trimmed), at most 200 characters, without NUL.
pub fn validate_search_request(params: &Vec<(String, String)>) -> (r: Result<String, ApiError>)
    ensures
        result_view(r) == search_request(params@),
{
    let q = match wanted_query_param(params, "q") {
        None => {
            return Err(ApiError::MissingQuery);
        },
        Some(q) => q,
    };
    let cs = chars_of(q.as_str());
    if cs.len() > MAX_QUERY_CHARS {
        return Err(ApiError::QueryTooLong);
    }
    if contains_nul(&cs) {
        return Err(ApiError::InvalidCharacters);
    }
    Ok(q)
}

/// How a request path may be served.
#[derive(Debug, Clone, Copy, PartialEq, Eq)]
pub enum RouteAccess {
    /// Answered with "not found" whatever lies there.
    Denied,
    /// Handed to the API handlers.
    Api,
    /// Served from the front-end files.
    Static,
}

/// The path is under `/api`.
pub open spec fn is_api_path(d: Seq<char>) -> bool {
    d == "/api"@ || starts_with(d, "/api/"@)
}

/// The path is the article or data directory, or lies below it.
pub open spec fn is_private_path(d: Seq<char>) -> bool {
    ||| d == "/article"@
    ||| starts_with(d, "/article/"@)
    ||| d == "/appdata"@
    ||| starts_with(d, "/appdata/"@)
}

/// The front-end files that are served.
pub open spec fn is_public_file(d: Seq<char>) -> bool {
    ||| d == "/"@
    ||| d == "/index.html"@
    ||| d == "/style.css"@
    ||| d == "/script.js"@
    ||| d == "/vendor/marked.min.js"@
    ||| d == "/vendor/purify.min.js"@
}

/// How a (percent-decoded) request path is served: the article and data
/// directories and any path with a `..` segment are denied; `/api` paths go
/// to the API; of the rest only the front-end files are served.
pub open spec fn route_access_of(d: Seq<char>) -> RouteAccess {
    if is_private_path(d) || has_dotdot_segment(d) {
        RouteAccess::Denied
    } else if is_api_path(d) {
        RouteAccess::Api
    } else if is_public_file(d) {
        RouteAccess::Static
    } else {
        RouteAccess::Denied
    }
}

/// How the decoded request path `decoded` is served.
pub fn route_access(decoded: &str) -> (r: RouteAccess)
    ensures
        r == route_access_of(decoded@),
{
    let d = chars_of(decoded);
    if chars_equal(&d, "/article") || chars_start_with(&d, "/article/") || chars_equal(
        &d,
        "/appdata",
    ) || chars_start_with(&d, "/appdata/") {
        return RouteAccess::Denied;
    }
    if dotdot_segment(&d) {
        return RouteAccess::Denied;
    }
    if chars_equal(&d, "/api") || chars_start_with(&d, "/api/") {
        return RouteAccess::Api;
    }
    if chars_equal(&d, "/") || chars_equal(&d, "/index.html") || chars_equal(&d, "/style.css")
        || chars_equal(&d, "/script.js") || chars_equal(&d, "/vendor/marked.min.js")
        || chars_equal(&d, "/vendor/purify.min.js") {
        return RouteAccess::Static;
    }
    RouteAccess::Denied
}

/// Whether the decoded request path `decoded` is an API path.
pub fn api_path(decoded: &str) -> (r: bool)
    ensures
        r == is_api_path(decoded@),
{
    let d = chars_of(decoded);
    chars_equal(&d, "/api") || chars_start_with(&d, "/api/")
}

/// Value of an ASCII hexadecimal digit.
pub open spec fn hex_value(b: u8) -> Option<u8> {
    if 0x30 <= b && b <= 0x39 {
        Some((b - 0x30) as u8)
    } else if 0x41 <= b && b <= 0x46 {
        Some((b - 0x37) as u8)
    } else if 0x61 <= b && b <= 0x66 {
        Some((b - 0x57) as u8)
    } else {
        None
    }
}

/// Percent-decoding of bytes: `%` and two hexadecimal digits stand for the
/// byte they spell; every other byte, a `%` without two hexadecimal digits
/// after it included, stands for itself.
pub open spec fn percent_decoded_bytes(b: Seq<u8>) -> Seq<u8>
    decreases b.len(),
{
    if b.len() == 0 {
        Seq::empty()
    } else if b[0] == 0x25 && b.len() >= 3 && hex_value(b[1]) is Some && hex_value(b[2]) is Some {
        seq![(hex_value(b[1])->0 * 16 + hex_value(b[2])->0) as u8] + percent_decoded_bytes(
            b.subrange(3, b.len() as int),
        )
    } else {
        seq![b[0]] + percent_decoded_bytes(b.drop_first())
    }
}

/// The value of an ASCII hexadecimal digit.
fn hex_digit(b: u8) -> (r: Option<u8>)
    ensures
        r == hex_value(b),
{
    if 0x30 <= b && b <= 0x39 {
        Some(b - 0x30)
    } else if 0x41 <= b && b <= 0x46 {
        Some(b - 0x37)
    } else if 0x61 <= b && b <= 0x66 {
        Some(b - 0x57)
    } else {
        None
    }
}

/// The decoded bytes of a percent-encoded string (what
/// `percent_encoding::percent_decode_str` yields, stated whole by
/// `percent_decoded_bytes`).
fn percent_decode_bytes(s: &str) -> (r: Vec<u8>)
    ensures
        r@ == percent_decoded_bytes(encode_utf8(s@)),
{
    let b = s.as_bytes();
    let n = b.len();
    let mut out: Vec<u8> = Vec::new();
    let mut i: usize = 0;
    assert(b@.subrange(0, n as int) =~= b@);
    while i < n
        invariant
            n == b@.len(),
            b@ == encode_utf8(s@),
            i <= n,
            out@ + percent_decoded_bytes(b@.subrange(i as int, n as int)) == percent_decoded_bytes(b@),
        decreases n - i,
    {
        let ghost rest = b@.subrange(i as int, n as int);
        let mut step: usize = 1;
        let mut byte: u8 = b[i];
        if b[i] == 0x25 && n - i >= 3 {
            match (hex_digit(b[i + 1]), hex_digit(b[i + 2])) {
                (Some(hi), Some(lo)) => {
                    byte = hi * 16 + lo;
                    step = 3;
                },
                _ => {},
            }
        }
        proof {
            if step == 3 {
                assert(rest.subrange(3, rest.len() as int) =~= b@.subrange(i + 3, n as int));
            } else {
                assert(rest.drop_first() =~= b@.subrange(i + 1, n as int));
            }
            assert(out@.push(byte) + percent_decoded_bytes(b@.subrange(i + step, n as int)) =~= out@
                + percent_decoded_bytes(rest));
        }
        out.push(byte);
        i = i + step;
    }
    assert(b@.subrange(n as int, n as int) =~= Seq::<u8>::empty());
    assert(out@ + Seq::<u8>::empty() =~= out@);
    out
}

/// The string that `bytes` encode, when they are valid UTF-8
/// (`String::from_utf8`).
#[verifier::external_body]
pub(crate) fn utf8_string(bytes: Vec<u8>) -> (r: Option<String>)
    ensures
        r is Some <==> valid_utf8(bytes@),
        r matches Some(s) ==> s@ == decode_utf8(bytes@),
{
    String::from_utf8(bytes).ok()
}

/// A request path as the server reads it: percent-decoded, then read as
/// UTF-8; empty when the decoded bytes are not UTF-8.
pub open spec fn decoded_path(p: Seq<char>) -> Seq<char> {
    let b = percent_decoded_bytes(encode_utf8(p));
    if valid_utf8(b) {
        decode_utf8(b)
    } else {
        Seq::empty()
    }
}

/// Percent-decodes a request path; an undecodable path reads as empty.
pub fn decode_request_path(path: &str) -> (r: String)
    ensures
        r@ == decoded_path(path@),
{
    let bytes = percent_decode_bytes(path);
    match utf8_string(bytes) {
        Some(s) => s,
        None => String::new(),
    }
}

/// How the raw request path `path` is served, read after percent-decoding.
pub fn request_route(path: &str) -> (r: RouteAccess)
    ensures
        r == route_access_of(decoded_path(path@)),
{
    let d = decode_request_path(path);
    route_access(d.as_str())
}

/// Whether the raw request path `path` is rate limited: it is an API path
/// once percent-decoded.
pub fn is_rate_limited(path: &str) -> (r: bool)
    ensures
        r == is_api_path(decoded_path(path@)),
{
    let d = decode_request_path(path);
    api_path(d.as_str())
}

/// Why reading a requested article failed.
#[derive(Debug, Clone, Copy, PartialEq, Eq)]
pub enum ReadError {
    /// The path does not resolve to a file.
    NotFound,
    /// The path resolves outside the article directory or not to `.md`.
    Forbidden,
    /// The file is larger than allowed.
    TooLarge,
    /// The file could not be read or is not UTF-8.
    Io,
}

/// The refusal each read failure is answered with.
pub open spec fn read_reply(e: ReadError) -> ApiError {
    match e {
        ReadError::NotFound => ApiError::NotFound,
        ReadError::Forbidden => ApiError::OutsideArticles,
        ReadError::TooLarge => ApiError::TooLarge,
        ReadError::Io => ApiError::ReadFailed,
    }
}

impl ReadError {
    /// The refusal this failure is answered with.
    pub fn reply(&self) -> (r: ApiError)
        ensures
            r == read_reply(*self),
    {
        match self {
            ReadError::NotFound => ApiError::NotFound,
            ReadError::Forbidden => ApiError::OutsideArticles,
            ReadError::TooLarge => ApiError::TooLarge,
            ReadError::Io => ApiError::ReadFailed,
        }
    }
}

/// For normalized absolute paths (as `fs::canonicalize` gives), `path` is
/// `root` or lies below it: the component-wise prefix test of
/// `Path::starts_with`.
pub open spec fn is_under(path: Seq<char>, root: Seq<char>) -> bool {
    ||| path == root
    ||| (root.len() > 0 && root.last() == '/' && starts_with(path, root))
    ||| starts_with(path, root + seq!['/'])
}

/// The resolved path of a requested article is acceptable: below the
/// article directory and naming a `.md` file.
pub open spec fn resolved_article_check(path: Seq<char>, root: Seq<char>) -> Result<(), ReadError> {
    if !is_under(path, root) {
        Err(ReadError::Forbidden)
    } else if !is_md_name(path) {
        Err(ReadError::Forbidden)
    } else {
        Ok(())
    }
}

/// Checks the resolved (canonical) path of a requested article against the
/// resolved article directory `root`.
pub fn check_resolved_article(path: &str, root: &str) -> (r: Result<(), ReadError>)
    ensures
        r == resolved_article_check(path@, root@),
{
    let p = chars_of(path);
    let r = chars_of(root);
    let under = if p.len() == r.len() {
        chars_equal(&p, root)
    } else if p.len() > r.len() {
        let mut i: usize = 0;
        let mut same = true;
        while i < r.len()
            invariant
                p@ == path@,
                r@ == root@,
                p@.len() > r@.len(),
                i <= r@.len(),
                same == forall|k: int| 0 <= k < i ==> p@[k] == r@[k],
            decreases r@.len() - i,
        {
            if p[i] != r[i] {
                same = false;
            }
            i = i + 1;
        }
        if !same {
            proof {
                let k = choose|k: int| 0 <= k < r@.len() && p@[k] != r@[k];
                assert(p@.subrange(0, r@.len() as int)[k] != r@[k]);
                assert(p@.subrange(0, r@.len() as int + 1)[k] != (r@ + seq!['/'])[k]);
            }
            false
        } else if r.len() > 0 && r[r.len() - 1] == '/' {
            assert(p@.subrange(0, r@.len() as int) =~= r@);
            true
        } else {
            let slash = p[r.len()] == '/';
            proof {
                if slash {
                    assert(p@.subrange(0, r@.len() as int + 1) =~= r@ + seq!['/']);
                } else {
                    assert(p@.subrange(0, r@.len() as int + 1)[r@.len() as int] != (r@ + seq![
                        '/',
                    ])[r@.len() as int]);
                }
            }
            slash
        }
    } else {
        false
    };
    if !under {
        return Err(ReadError::Forbidden);
    }
    let n = p.len();
    if !(n >= 3 && p[n - 3] == '.' && p[n - 2] == 'm' && p[n - 1] == 'd') {
        return Err(ReadError::Forbidden);
    }
    Ok(())
}

/// What an article's bytes give: refused when longer than `max_file_size`
/// (they were read with a limit of `max_file_size + 1`, so a longer file
/// shows as longer), refused when not UTF-8, else the text.
pub fn accept_article_bytes(buf: Vec<u8>, max_file_size: u64) -> (r: Result<String, ReadError>)
    ensures
        buf@.len() > max_file_size ==> r == Err::<String, ReadError>(ReadError::TooLarge),
        buf@.len() <= max_file_size && !valid_utf8(buf@) ==> r == Err::<String, ReadError>(
            ReadError::Io,
        ),
        buf@.len() <= max_file_size && valid_utf8(buf@) ==> (r matches Ok(s) && s@ == decode_utf8(
            buf@,
        )),
{
    if buf.len() as u64 > max_file_size {
        return Err(ReadError::TooLarge);
    }
    match utf8_string(buf) {
        Some(s) => Ok(s),
        None => Err(ReadError::Io),
    }
}

/// The only parameter named `key` is the one at `i`.
proof fn lemma_sole_param_at(ps: Seq<(String, String)>, key: Seq<char>, i: int)
    requires
        0 <= i < ps.len(),
        ps[i].0@ == key,
        forall|j: int| 0 <= j < ps.len() && j != i ==> (#[trigger] ps[j]).0@ != key,
    ensures
        sole_param(ps, key) == Some(ps[i].1@),
{
    assert(sole_index(ps, key, i));
    let c = choose|c: int| sole_index(ps, key, c);
    if c != i {
        assert(ps[i].0@ != key);
    }
}

/// An article request is accepted, with its trimmed path, whenever it has
/// exactly one `path` parameter whose trimmed value `t` is not blank, holds
/// no NUL character, has no `..` segment and ends in `.md`; whatever other
/// characters it holds (non-ASCII ones included).
pub proof fn law_article_request_accepts_plain_paths(ps: Seq<(String, String)>, i: int)
    requires
        0 <= i < ps.len(),
        ps[i].0@ == "path"@,
        forall|j: int| 0 <= j < ps.len() && j != i ==> (#[trigger] ps[j]).0@ != "path"@,
        ({
            let t = trim(ps[i].1@);
            &&& t.len() >= 3
            &&& forall|k: int| 0 <= k < t.len() ==> t[k] != '\0'
            &&& forall|k: int|
                0 <= k && k + 2 <= t.len() && (k == 0 || t[k - 1] == '/') && #[trigger] t[k] == '.'
                    && t[k + 1] == '.' ==> k + 2 < t.len() && t[k + 2] != '/'
            &&& t[t.len() - 3] == '.' && t[t.len() - 2] == 'm' && t[t.len() - 1] == 'd'
        }),
    ensures
        article_request(ps) == Ok::<Seq<char>, ApiError>(trim(ps[i].1@)),
{
    lemma_sole_param_at(ps, "path"@, i);
    let t = trim(ps[i].1@);
    assert(wanted_param(ps, "path"@) == Some(t));
    if has_nul(t) {
        let k = choose|k: int| 0 <= k < t.len() && #[trigger] t[k] == '\0';
        assert(t[k] != '\0');
    }
    if has_dotdot_segment(t) {
        let k = choose|k: int|
            0 <= k && k + 2 <= t.len() && (k == 0 || t[k - 1] == '/') && #[trigger] t[k] == '.'
                && t[k + 1] == '.' && (k + 2 == t.len() || t[k + 2] == '/');
        assert(k + 2 < t.len() && t[k + 2] != '/');
    }
}

/// A search request is accepted, with its trimmed query, whenever it has
/// exactly one `q` parameter whose trimmed value is not blank, at most 200
/// characters long and free of NUL characters.
pub proof fn law_search_request_accepts_plain_queries(ps: Seq<(String, String)>, i: int)
    requires
        0 <= i < ps.len(),
        ps[i].0@ == "q"@,
        forall|j: int| 0 <= j < ps.len() && j != i ==> (#[trigger] ps[j]).0@ != "q"@,
        0 < trim(ps[i].1@).len() <= 200,
        forall|k: int| 0 <= k < trim(ps[i].1@).len() ==> trim(ps[i].1@)[k] != '\0',
    ensures
        search_request(ps) == Ok::<Seq<char>, ApiError>(trim(ps[i].1@)),
{
    lemma_sole_param_at(ps, "q"@, i);
    let t = trim(ps[i].1@);
    if has_nul(t) {
        let k = choose|k: int| 0 <= k < t.len() && #[trigger] t[k] == '\0';
        assert(t[k] != '\0');
    }
}

/// Every path under `/api` without a `..` segment goes to the API handlers.
pub proof fn law_api_paths_reach_the_api(d: Seq<char>)
    requires
        d == "/api"@ || (d.len() >= 5 && d.subrange(0, 5) == "/api/"@),
        forall|k: int|
            0 <= k && k + 2 <= d.len() && (k == 0 || d[k - 1] == '/') && #[trigger] d[k] == '.'
                && d[k + 1] == '.' ==> k + 2 < d.len() && d[k + 2] != '/',
    ensures
        route_access_of(d) == RouteAccess::Api,
{
    reveal_strlit("/api");
    reveal_strlit("/api/");
    reveal_strlit("/article");
    reveal_strlit("/article/");
    reveal_strlit("/appdata");
    reveal_strlit("/appdata/");
    assert(d.len() >= 4 && d[1] == 'a' && d[2] == 'p' && d[3] == 'i') by {
        if d != "/api"@ {
            assert(d.subrange(0, 5)[2] == d[2]);
            assert(d.subrange(0, 5)[3] == d[3]);
            assert(d.subrange(0, 5)[1] == d[1]);
        }
    }
    if starts_with(d, "/article/"@) {
        assert(d.subrange(0, 9)[2] == d[2]);
    }
    if starts_with(d, "/appdata/"@) {
        assert(d.subrange(0, 9)[3] == d[3]);
    }
    if d == "/article"@ {
        assert(d[2] == 'r');
    }
    if d == "/appdata"@ {
        assert(d[3] == 'd');
    }
    assert(!is_private_path(d));
    if has_dotdot_segment(d) {
        let k = choose|k: int|
            0 <= k && k + 2 <= d.len() && (k == 0 || d[k - 1] == '/') && #[trigger] d[k] == '.'
                && d[k + 1] == '.' && (k + 2 == d.len() || d[k + 2] == '/');
        assert(k + 2 < d.len() && d[k + 2] != '/');
    }
    assert(is_api_path(d));
}

/// The article and data directories, and everything below them, are never
/// served, whatever follows.
pub proof fn law_private_directories_are_denied(d: Seq<char>)
    requires
        ({
            ||| d == "/article"@ || d == "/appdata"@
            ||| (d.len() >= 9 && (d.subrange(0, 9) == "/article/"@ || d.subrange(0, 9) == "/appdata/"@))
        }),
    ensures
        route_access_of(d) == RouteAccess::Denied,
{
    reveal_strlit("/article/");
    reveal_strlit("/appdata/");
}

/// No front-end file has a `..` segment.
proof fn lemma_no_double_dot(d: Seq<char>)
    requires
        forall|k: int| 0 <= k && k + 1 < d.len() && #[trigger] d[k] == '.' ==> d[k + 1] != '.',
    ensures
        !has_dotdot_segment(d),
{
}

/// The front-end files are served.
pub proof fn law_front_end_files_are_served(d: Seq<char>)
    requires
        ({
            ||| d == "/"@
            ||| d == "/index.html"@
            ||| d == "/style.css"@
            ||| d == "/script.js"@
            ||| d == "/vendor/marked.min.js"@
            ||| d == "/vendor/purify.min.js"@
        }),
    ensures
        route_access_of(d) == RouteAccess::Static,
{
    reveal_strlit("/");
    reveal_strlit("/index.html");
    reveal_strlit("/style.css");
    reveal_strlit("/script.js");
    reveal_strlit("/vendor/marked.min.js");
    reveal_strlit("/vendor/purify.min.js");
    reveal_strlit("/api");
    reveal_strlit("/api/");
    reveal_strlit("/article");
    reveal_strlit("/article/");
    reveal_strlit("/appdata");
    reveal_strlit("/appdata/");
    assert(d.len() >= 1 && d[0] == '/');
    assert(forall|k: int| 0 <= k && k + 1 < d.len() && #[trigger] d[k] == '.' ==> d[k + 1] != '.');
    lemma_no_double_dot(d);
    if d.len() >= 2 {
        assert(d[1] == 'i' || d[1] == 's' || d[1] == 'v');
    }
    if starts_with(d, "/api/"@) {
        assert(d.subrange(0, 5)[1] == d[1]);
    }
    if starts_with(d, "/article/"@) {
        assert(d.subrange(0, 9)[1] == d[1]);
    }
    if starts_with(d, "/appdata/"@) {
        assert(d.subrange(0, 9)[1] == d[1]);
    }
    assert(!is_private_path(d));
    assert(!is_api_path(d));
}

/// Bytes without `%` decode to themselves.
pub proof fn law_percent_free_bytes_decode_to_themselves(b: Seq<u8>)
    requires
        forall|i: int| 0 <= i < b.len() ==> b[i] != 0x25,
    ensures
        percent_decoded_bytes(b) == b,
    decreases b.len(),
{
    if b.len() > 0 {
        law_percent_free_bytes_decode_to_themselves(b.drop_first());
        assert(seq![b[0]] + b.drop_first() =~= b);
    }
}

/// `%` followed by two hexadecimal digits stands for the byte they spell,
/// whatever comes before and after it, as long as what comes before holds
/// no `%`.
pub proof fn law_percent_escape_decodes_to_its_byte(a: Seq<u8>, h: u8, l: u8, rest: Seq<u8>)
    requires
        forall|i: int| 0 <= i < a.len() ==> a[i] != 0x25,
        hex_value(h) is Some,
        hex_value(l) is Some,
    ensures
        percent_decoded_bytes(a + seq![0x25u8, h, l] + rest) == a + seq![
            (hex_value(h)->0 * 16 + hex_value(l)->0) as u8,
        ] + percent_decoded_bytes(rest),
    decreases a.len(),
{
    let whole = a + seq![0x25u8, h, l] + rest;
    if a.len() == 0 {
        assert(whole =~= seq![0x25u8, h, l] + rest);
        assert(whole.subrange(3, whole.len() as int) =~= rest);
        assert(a + seq![(hex_value(h)->0 * 16 + hex_value(l)->0) as u8] =~= seq![
            (hex_value(h)->0 * 16 + hex_value(l)->0) as u8,
        ]);
    } else {
        law_percent_escape_decodes_to_its_byte(a.drop_first(), h, l, rest);
        assert(whole.drop_first() =~= a.drop_first() + seq![0x25u8, h, l] + rest);
        assert(whole[0] == a[0]);
        assert(seq![a[0]] + (a.drop_first() + seq![
            (hex_value(h)->0 * 16 + hex_value(l)->0) as u8,
        ] + percent_decoded_bytes(rest)) =~= a + seq![
            (hex_value(h)->0 * 16 + hex_value(l)->0) as u8,
        ] + percent_decoded_bytes(rest));
    }
}

/// An ASCII request path without `%` is read as written.
pub proof fn law_plain_paths_decode_to_themselves(p: Seq<char>)
    requires
        vstd::utf8::is_ascii_chars(p),
        forall|i: int| 0 <= i < p.len() ==> p[i] != '%',
    ensures
        decoded_path(p) == p,
{
    broadcast use vstd::utf8::group_utf8_lib;

    let b = encode_utf8(p);
    vstd::utf8::is_ascii_chars_encode_utf8(p);
    assert forall|i: int| 0 <= i < b.len() implies b[i] != 0x25 by {
        assert(p[i] as u8 == b[i]);
        assert(p[i] != '%');
        assert((p[i] as u32) < 128);
    }
    law_percent_free_bytes_decode_to_themselves(b);
    vstd::utf8::encode_utf8_valid_utf8(p);
    vstd::utf8::encode_utf8_decode_utf8(p);
}

/// A resolved path that does not begin with the article directory's path
/// is refused.
pub proof fn law_paths_outside_the_root_are_refused(path: Seq<char>, root: Seq<char>)
    requires
        !(root.len() <= path.len() && path.subrange(0, root.len() as int) == root),
    ensures
        resolved_article_check(path, root) == Err::<(), ReadError>(ReadError::Forbidden),
{
    if is_under(path, root) {
        if path == root {
            assert(path.subrange(0, root.len() as int) =~= root);
        }
        if starts_with(path, root + seq!['/']) {
            assert(path.subrange(0, root.len() as int) =~= path.subrange(0, root.len() as int + 1).subrange(
                0,
                root.len() as int,
            ));
            assert((root + seq!['/']).subrange(0, root.len() as int) =~= root);
        }
    }
}

/// A Markdown file directly or deeper below the article directory is
/// accepted: `root/x` with `x` ending in `.md`.
pub proof fn law_markdown_files_below_the_root_are_accepted(root: Seq<char>, x: Seq<char>)
    requires
        x.len() >= 3,
        x[x.len() - 3] == '.' && x[x.len() - 2] == 'm' && x[x.len() - 1] == 'd',
    ensures
        resolved_article_check(root + seq!['/'] + x, root) == Ok::<(), ReadError>(()),
{
    let path = root + seq!['/'] + x;
    assert(path.subrange(0, root.len() as int + 1) =~= root + seq!['/']);
    assert(starts_with(path, root + seq!['/']));
    assert(path[path.len() - 1] == x[x.len() - 1]);
    assert(path[path.len() - 2] == x[x.len() - 2]);
    assert(path[path.len() - 3] == x[x.len() - 3]);
}

} // verus!
