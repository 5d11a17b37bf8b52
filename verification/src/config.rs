//! Server configuration: built-in defaults, the configuration file's
//! location and the choice of the listening port.
//!
//! The configuration file is optional: without it every field takes its
//! default, and a field the file leaves out takes that field's default.

use vstd::prelude::*;
use crate::text::{chars_of, push_char, trim, trimmed};

verus! {

broadcast use vstd::string::group_string_axioms;

/// Port used when neither the command line, the environment nor the
/// configuration file names one.
pub const DEFAULT_PORT: u16 = 8765;

/// Markdown with embedded HTML is not rendered as HTML by default.
pub const DEFAULT_ALLOW_MARKDOWN_HTML: bool = false;

/// Largest article served or indexed, in bytes: 5 MiB.
pub const DEFAULT_MAX_FILE_SIZE: usize = 5 * 1024 * 1024;

/// Length of the rate-limit window, in seconds.
pub const DEFAULT_RATE_LIMIT_WINDOW_SECS: u64 = 60;

/// Requests one client may make within a window.
pub const DEFAULT_RATE_LIMIT_MAX_REQUESTS: u32 = 300;

/// Most results one search returns.
pub const DEFAULT_SEARCH_MAX_RESULTS: usize = 20;

/// Interval between full rescans of the article directory, in seconds.
pub const DEFAULT_PERIODIC_SCAN_INTERVAL_SECS: u64 = 3600;

/// Title shown in the navigation bar.
pub const DEFAULT_SITE_TITLE: &'static str = "每日知識庫";

/// Title of the browser tab.
pub const DEFAULT_PAGE_TITLE: &'static str = "每日知識庫";

/// Top-level server configuration.
#[derive(Debug, Clone)]
pub struct ServerConfig {
    /// Listening port; `None` when the file does not name one.
    pub port: Option<u16>,
    /// Whether Markdown may embed raw HTML.
    pub allow_markdown_html: bool,
    /// Largest article read, in bytes.
    pub max_file_size: usize,
    /// API rate limiting.
    pub rate_limit: RateLimitConfig,
    /// Search behaviour.
    pub search: SearchConfig,
    /// Interval between full rescans, in seconds.
    pub periodic_scan_interval_secs: u64,
    /// Navigation bar title.
    pub site_title: String,
    /// Browser tab title.
    pub page_title: String,
}

/// Per-client sliding-window rate limit of the API.
#[derive(Debug, Clone, Copy)]
pub struct RateLimitConfig {
    /// Window length, in seconds.
    pub window_secs: u64,
    /// Requests allowed within a window.
    pub max_requests: u32,
}

/// Search behaviour.
#[derive(Debug, Clone, Copy)]
pub struct SearchConfig {
    /// Most results one search returns.
    pub max_results: usize,
}

impl Default for RateLimitConfig {
    fn default() -> (r: Self)
        ensures
            r.window_secs == DEFAULT_RATE_LIMIT_WINDOW_SECS,
            r.max_requests == DEFAULT_RATE_LIMIT_MAX_REQUESTS,
    {
        RateLimitConfig {
            window_secs: DEFAULT_RATE_LIMIT_WINDOW_SECS,
            max_requests: DEFAULT_RATE_LIMIT_MAX_REQUESTS,
        }
    }
}

impl Default for SearchConfig {
    fn default() -> (r: Self)
        ensures
            r.max_results == DEFAULT_SEARCH_MAX_RESULTS,
    {
        SearchConfig { max_results: DEFAULT_SEARCH_MAX_RESULTS }
    }
}

impl Default for ServerConfig {
    fn default() -> (r: Self)
        ensures
            r.port is None,
            r.allow_markdown_html == DEFAULT_ALLOW_MARKDOWN_HTML,
            r.max_file_size == DEFAULT_MAX_FILE_SIZE,
            r.rate_limit.window_secs == DEFAULT_RATE_LIMIT_WINDOW_SECS,
            r.rate_limit.max_requests == DEFAULT_RATE_LIMIT_MAX_REQUESTS,
            r.search.max_results == DEFAULT_SEARCH_MAX_RESULTS,
            r.periodic_scan_interval_secs == DEFAULT_PERIODIC_SCAN_INTERVAL_SECS,
            r.site_title@ == DEFAULT_SITE_TITLE@,
            r.page_title@ == DEFAULT_PAGE_TITLE@,
    {
        ServerConfig {
            port: None,
            allow_markdown_html: DEFAULT_ALLOW_MARKDOWN_HTML,
            max_file_size: DEFAULT_MAX_FILE_SIZE,
            rate_limit: RateLimitConfig::default(),
            search: SearchConfig::default(),
            periodic_scan_interval_secs: DEFAULT_PERIODIC_SCAN_INTERVAL_SECS,
            site_title: DEFAULT_SITE_TITLE.to_string(),
            page_title: DEFAULT_PAGE_TITLE.to_string(),
        }
    }
}

/// `base` joined with the relative or absolute path `part`, as
/// `PathBuf::push` does on Unix: an absolute `part` replaces `base`; a
/// separator is put between them unless `base` is empty or already ends in
/// one.
pub open spec fn path_join(base: Seq<char>, part: Seq<char>) -> Seq<char> {
    if part.len() > 0 && part[0] == '/' {
        part
    } else if base.len() == 0 || base.last() == '/' {
        base + part
    } else {
        base + seq!['/'] + part
    }
}

/// Joins `part` onto `base` (Unix path rules, see `path_join`).
pub fn join_path(base: &str, part: &str) -> (r: String)
    ensures
        r@ == path_join(base@, part@),
{
    let b = chars_of(base);
    let p = chars_of(part);
    let mut out: String;
    if p.len() > 0 && p[0] == '/' {
        out = String::new();
    } else {
        out = base.to_string();
        if b.len() > 0 && b[b.len() - 1] != '/' {
            push_char(&mut out, '/');
        }
    }
    let mut i: usize = 0;
    while i < p.len()
        invariant
            p@ == part@,
            b@ == base@,
            i <= p@.len(),
            out@ == (if part@.len() > 0 && part@[0] == '/' {
                Seq::empty()
            } else if base@.len() == 0 || base@.last() == '/' {
                base@
            } else {
                base@ + seq!['/']
            }) + p@.subrange(0, i as int),
        decreases p@.len() - i,
    {
        push_char(&mut out, p[i]);
        i = i + 1;
    }
    assert(p@.subrange(0, p@.len() as int) =~= p@);
    out
}

/// Where the configuration file lies below the project directory
/// `base_dir`: `appdata/config/server_config.toml`.
pub open spec fn config_file_path_of(base_dir: Seq<char>) -> Seq<char> {
    path_join(
        path_join(path_join(base_dir, "appdata"@), "config"@),
        "server_config.toml"@,
    )
}

impl ServerConfig {
    /// The configuration file's path: `base_dir/appdata/config/server_config.toml`.
    pub fn config_file_path(base_dir: &str) -> (r: String)
        ensures
            r@ == config_file_path_of(base_dir@),
    {
        let a = join_path(base_dir, "appdata");
        let c = join_path(a.as_str(), "config");
        join_path(c.as_str(), "server_config.toml")
    }
}

/// Decimal value of a digit string.
pub open spec fn decimal_value(d: Seq<char>) -> nat
    decreases d.len(),
{
    if d.len() == 0 {
        0
    } else {
        decimal_value(d.drop_last()) * 10 + ((d.last() as u32) - ('0' as u32)) as nat
    }
}

/// `c` is an ASCII decimal digit.
pub open spec fn is_decimal(c: char) -> bool {
    '0' <= c && c <= '9'
}

/// The digits of a number text: what follows an optional leading `+`.
pub open spec fn unsigned_digits(s: Seq<char>) -> Seq<char> {
    if s.len() > 0 && s[0] == '+' {
        s.drop_first()
    } else {
        s
    }
}

/// What `u16::from_str` gives for `s`: an optional `+`, then at least one
/// ASCII digit and nothing else, of value at most 65535.
pub open spec fn parse_u16_spec(s: Seq<char>) -> Option<u16> {
    let d = unsigned_digits(s);
    if d.len() > 0 && (forall|i: int| 0 <= i < d.len() ==> is_decimal(#[trigger] d[i]))
        && decimal_value(d) <= 65535 {
        Some(decimal_value(d) as u16)
    } else {
        None
    }
}

/// Parses a port number as `u16::from_str` does.
pub fn parse_u16(s: &str) -> (r: Option<u16>)
    ensures
        r == parse_u16_spec(s@),
{
    let cs = chars_of(s);
    let start: usize = if cs.len() > 0 && cs[0] == '+' {
        1
    } else {
        0
    };
    let ghost d = unsigned_digits(s@);
    assert(d =~= cs@.subrange(start as int, cs@.len() as int));
    if start == cs.len() {
        return None;
    }
    let mut acc: u32 = 0;
    let mut i: usize = start;
    while i < cs.len()
        invariant
            cs@ == s@,
            start <= i <= cs@.len(),
            d == cs@.subrange(start as int, cs@.len() as int),
            d == unsigned_digits(s@),
            forall|k: int| start <= k < i ==> is_decimal(#[trigger] cs@[k]),
            acc as nat == (if decimal_value(cs@.subrange(start as int, i as int)) < 65536 {
                decimal_value(cs@.subrange(start as int, i as int))
            } else {
                65536nat
            }),
        decreases cs@.len() - i,
    {
        let c = cs[i];
        if !('0' <= c && c <= '9') {
            assert(d[i - start] == c);
            assert(!is_decimal(d[i - start]));
            return None;
        }
        let ghost pre = cs@.subrange(start as int, i as int);
        let ghost nxt = cs@.subrange(start as int, i + 1);
        assert(nxt.drop_last() =~= pre);
        let v = acc * 10 + ((c as u32) - ('0' as u32));
        acc = if v > 65536 {
            65536
        } else {
            v
        };
        i = i + 1;
    }
    assert(cs@.subrange(start as int, i as int) =~= d);
    if acc > 65535 {
        None
    } else {
        Some(acc as u16)
    }
}

/// The port a command-line or environment value names, if it is a valid
/// port once trimmed.
pub open spec fn named_port(v: Option<Seq<char>>) -> Option<u16> {
    match v {
        Some(s) => parse_u16_spec(trim(s)),
        None => None,
    }
}

/// The view of an optional string slice.
pub open spec fn opt_str_view(o: Option<&str>) -> Option<Seq<char>> {
    match o {
        Some(s) => Some(s@),
        None => None,
    }
}

/// Port precedence: a valid command-line value, else a valid `PORT`
/// environment value, else the configuration file's port, else
/// `DEFAULT_PORT`.
pub open spec fn resolve_port_spec(
    cli: Option<Seq<char>>,
    env_port: Option<Seq<char>>,
    config_port: Option<u16>,
) -> u16 {
    match named_port(cli) {
        Some(p) => p,
        None => match named_port(env_port) {
            Some(p) => p,
            None => match config_port {
                Some(p) => p,
                None => DEFAULT_PORT,
            },
        },
    }
}

fn port_of(v: Option<&str>) -> (r: Option<u16>)
    ensures
        r == named_port(opt_str_view(v)),
{
    match v {
        Some(s) => {
            let t = trimmed(s);
            parse_u16(t.as_str())
        },
        None => None,
    }
}

/// Chooses the listening port: command line over the `PORT` environment
/// variable over the configuration file over `DEFAULT_PORT`. A value that
/// is not a valid port (after trimming) is passed over.
pub fn resolve_port(cli: Option<&str>, env_port: Option<&str>, config_port: Option<u16>) -> (r:
    u16)
    ensures
        r == resolve_port_spec(opt_str_view(cli), opt_str_view(env_port), config_port),
{
    if let Some(p) = port_of(cli) {
        return p;
    }
    if let Some(p) = port_of(env_port) {
        return p;
    }
    match config_port {
        Some(p) => p,
        None => DEFAULT_PORT,
    }
}

/// The configuration file of a project directory `base` (not ending in
/// `/`) is `base/appdata/config/server_config.toml`.
pub proof fn law_config_file_lies_under_the_project(base: Seq<char>)
    requires
        base.len() > 0,
        base.last() != '/',
    ensures
        config_file_path_of(base) == base + "/appdata/config/server_config.toml"@,
{
    reveal_strlit("appdata");
    reveal_strlit("config");
    reveal_strlit("server_config.toml");
    reveal_strlit("/appdata/config/server_config.toml");
    let a = path_join(base, "appdata"@);
    assert(a == base + seq!['/'] + "appdata"@);
    assert(a.last() == 'a');
    let c = path_join(a, "config"@);
    assert(c == a + seq!['/'] + "config"@);
    assert(c.last() == 'g');
    assert(path_join(c, "server_config.toml"@) == c + seq!['/'] + "server_config.toml"@);
    assert(c + seq!['/'] + "server_config.toml"@ =~= base + "/appdata/config/server_config.toml"@);
}

/// A port text is read as `u16::from_str` reads it: nothing but an
/// optional leading `+` and ASCII digits is accepted; the `+` changes
/// nothing; leading zeros change nothing; one digit is its own value.
pub proof fn law_port_texts_read_as_numbers(s: Seq<char>, d: Seq<char>, c: char)
    ensures
        parse_u16_spec(s) is Some ==> s.len() > 0 && forall|i: int|
            0 <= i < s.len() ==> ('0' <= #[trigger] s[i] && s[i] <= '9') || (i == 0 && s[i] == '+'),
        (d.len() > 0 && forall|i: int| 0 <= i < d.len() ==> '0' <= #[trigger] d[i] && d[i] <= '9')
            ==> parse_u16_spec(seq!['+'] + d) == parse_u16_spec(d) && parse_u16_spec(seq!['0'] + d)
            == parse_u16_spec(d),
        '0' <= c && c <= '9' ==> parse_u16_spec(seq![c]) == Some(((c as u32) - ('0' as u32)) as u16),
{
    if parse_u16_spec(s) is Some {
        let u = unsigned_digits(s);
        assert forall|i: int| 0 <= i < s.len() implies ('0' <= #[trigger] s[i] && s[i] <= '9') || (i
            == 0 && s[i] == '+') by {
            if s.len() > 0 && s[0] == '+' {
                if i > 0 {
                    assert(s[i] == u[i - 1]);
                }
            } else {
                assert(s[i] == u[i]);
            }
        }
    }
    if d.len() > 0 && forall|i: int| 0 <= i < d.len() ==> '0' <= #[trigger] d[i] && d[i] <= '9' {
        assert((seq!['+'] + d).drop_first() =~= d);
        let z = seq!['0'] + d;
        lemma_leading_zero(d);
        assert(unsigned_digits(z) == z);
        assert forall|i: int| 0 <= i < z.len() implies is_decimal(#[trigger] z[i]) by {
            if i > 0 {
                assert(z[i] == d[i - 1]);
            }
        }
    }
    if '0' <= c && c <= '9' {
        let one = seq![c];
        assert(one.drop_last() =~= Seq::<char>::empty());
        assert(one.last() == c);
        assert(unsigned_digits(one) == one);
        assert(decimal_value(one.drop_last()) == 0);
        assert(decimal_value(one) == ((c as u32) - ('0' as u32)) as nat);
        assert(is_decimal(one[0]));
    }
}

/// A leading zero does not change a decimal value.
proof fn lemma_leading_zero(d: Seq<char>)
    ensures
        decimal_value(seq!['0'] + d) == decimal_value(d),
    decreases d.len(),
{
    let z = seq!['0'] + d;
    if d.len() == 0 {
        assert(z =~= seq!['0']);
        assert(z.drop_last() =~= Seq::<char>::empty());
        assert(z.last() == '0');
        assert(decimal_value(z.drop_last()) == 0);
        assert(decimal_value(z) == 0);
    } else {
        lemma_leading_zero(d.drop_last());
        assert(z.drop_last() =~= seq!['0'] + d.drop_last());
        assert(z.last() == d.last());
    }
}

/// Port precedence: a command-line value that reads as a port wins; else
/// an environment value that does; else the configuration file's port;
/// else the default. An unreadable value is passed over.
pub proof fn law_port_precedence(
    cli: Option<Seq<char>>,
    env_port: Option<Seq<char>>,
    config_port: Option<u16>,
)
    ensures
        cli is Some && parse_u16_spec(trim(cli->0)) is Some ==> resolve_port_spec(
            cli,
            env_port,
            config_port,
        ) == parse_u16_spec(trim(cli->0))->0,
        !(cli is Some && parse_u16_spec(trim(cli->0)) is Some) && (env_port is Some
            && parse_u16_spec(trim(env_port->0)) is Some) ==> resolve_port_spec(cli, env_port, config_port)
            == parse_u16_spec(trim(env_port->0))->0,
        !(cli is Some && parse_u16_spec(trim(cli->0)) is Some) && !(env_port is Some
            && parse_u16_spec(trim(env_port->0)) is Some) ==> resolve_port_spec(cli, env_port, config_port)
            == (match config_port {
            Some(p) => p,
            None => 8765,
        }),
{
}

} // verus!
