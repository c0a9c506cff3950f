//! Synthetic access-log lines for benchmarks: a fixed-seed linear
//! congruential generator picks every field, so the same count always gives
//! the same log.
use vstd::prelude::*;
use crate::parse::{
    format_log_line, lemma_char_end_piece, hour_of, is_token, lacks, lemma_format_then_parse, log_line, size_of,
    spec_parse_line,
};
use crate::analyze::{analysis, lemma_all_lines_parse, lemma_text_lines_concat, lemma_text_lines_one, text_lines};
use crate::prompt::two_digits;
use crate::text::{
    all_ascii_digits, char_end, decimal_digit, decimal_of, digit_value, digits_value, is_ascii_digit,
    is_whitespace, lemma_char_end_suffix, lemma_decimal_digit, lemma_decimal_reads_back, parse_unsigned, push_char, push_decimal, push_str, unsigned_digits,
};

verus! {

/// The generator's starting state.
pub const SEED: u64 = 0xdeadbeefcafebabe;

/// One step of the generator (Knuth's MMIX constants, wrapping in `u64`).
pub open spec fn lcg(s: u64) -> u64 {
    s.wrapping_mul(6364136223846793005).wrapping_add(1442695040888963407)
}

/// The state after `k` steps.
pub open spec fn lcg_steps(s: u64, k: nat) -> u64
    decreases k,
{
    if k == 0 {
        s
    } else {
        lcg(lcg_steps(s, (k - 1) as nat))
    }
}

pub open spec fn method_at(i: nat) -> Seq<char> {
    if i == 4 {
        "POST"@
    } else if i == 6 {
        "HEAD"@
    } else {
        "GET"@
    }
}

pub open spec fn path_at(i: nat) -> Seq<char> {
    seq![
        "/"@, "/index.html"@, "/about"@, "/api/users"@, "/api/health"@, "/static/app.js"@,
        "/static/app.css"@, "/products"@, "/products/42"@, "/cart"@, "/checkout"@, "/login"@,
        "/admin"@, "/.env"@, "/wp-login.php"@, "/phpmyadmin"@, "/.git/config"@, "/blog"@,
        "/blog/post-1"@, "/blog/post-2"@, "/search?q=widgets"@, "/contact"@, "/favicon.ico"@,
        "/robots.txt"@, "/sitemap.xml"@, "/api/products/12"@,
    ][i as int]
}

pub open spec fn status_at(i: nat) -> nat {
    seq![200nat, 200, 200, 200, 200, 304, 301, 404, 404, 500, 401, 403][i as int]
}

pub open spec fn agent_at(i: nat) -> Seq<char> {
    seq![
        "Mozilla/5.0 (Windows NT 10.0; Win64; x64) AppleWebKit/537.36"@,
        "Mozilla/5.0 (Macintosh; Intel Mac OS X 10_15_7) AppleWebKit/537.36"@,
        "curl/8.4.0"@,
        "Googlebot/2.1 (+http://www.google.com/bot.html)"@,
        "python-requests/2.31.0"@,
    ][i as int]
}

/// An index into a table of `len` entries, from a generator value.
pub open spec fn pick(x: u64, len: nat) -> nat {
    ((x as usize) as nat) % len
}

/// The client address of the line written from state `s`.
pub open spec fn synthetic_ip(s: u64) -> Seq<char> {
    decimal_of(lcg_steps(s, 1) as nat % 224 + 1) + "."@ + decimal_of(lcg_steps(s, 2) as nat % 256)
        + "."@ + decimal_of(lcg_steps(s, 3) as nat % 256) + "."@ + decimal_of(
        lcg_steps(s, 4) as nat % 256,
    )
}

/// The timestamp of the line written from state `s`.
pub open spec fn synthetic_timestamp(s: u64) -> Seq<char> {
    two_digits(lcg_steps(s, 5) as nat % 28 + 1) + "/Jan/2026:"@ + two_digits(
        lcg_steps(s, 6) as nat % 24,
    ) + ":"@ + two_digits(lcg_steps(s, 7) as nat % 60) + ":"@ + two_digits(
        lcg_steps(s, 8) as nat % 60,
    ) + " -0700"@
}

/// The line the generator writes from state `s` (with its final newline):
/// thirteen steps give, in order, the four address bytes, day, hour,
/// minute, second, method, path, status, size and user agent.
pub open spec fn synthetic_line(s: u64) -> Seq<char> {
    log_line(
        synthetic_ip(s),
        "-"@,
        "-"@,
        synthetic_timestamp(s),
        method_at(pick(lcg_steps(s, 9), 7)),
        path_at(pick(lcg_steps(s, 10), 26)),
        "HTTP/1.1"@,
        decimal_of(status_at(pick(lcg_steps(s, 11), 12))),
        decimal_of(lcg_steps(s, 12) as nat % 50000 + 100),
        " \"-\" \""@ + agent_at(pick(lcg_steps(s, 13), 5)) + "\"\n"@,
    )
}

fn method_name(i: usize) -> (r: &'static str)
    requires
        i < 7,
    ensures
        r@ == method_at(i as nat),
{
    if i == 4 {
        "POST"
    } else if i == 6 {
        "HEAD"
    } else {
        "GET"
    }
}

fn path_name(i: usize) -> (r: &'static str)
    requires
        i < 26,
    ensures
        r@ == path_at(i as nat),
{
    let names: [&'static str; 26] = [
        "/",
        "/index.html",
        "/about",
        "/api/users",
        "/api/health",
        "/static/app.js",
        "/static/app.css",
        "/products",
        "/products/42",
        "/cart",
        "/checkout",
        "/login",
        "/admin",
        "/.env",
        "/wp-login.php",
        "/phpmyadmin",
        "/.git/config",
        "/blog",
        "/blog/post-1",
        "/blog/post-2",
        "/search?q=widgets",
        "/contact",
        "/favicon.ico",
        "/robots.txt",
        "/sitemap.xml",
        "/api/products/12",
    ];
    names[i]
}

fn status_code(i: usize) -> (r: u64)
    requires
        i < 12,
    ensures
        r as nat == status_at(i as nat),
{
    let codes: [u64; 12] = [200, 200, 200, 200, 200, 304, 301, 404, 404, 500, 401, 403];
    codes[i]
}

fn agent_name(i: usize) -> (r: &'static str)
    requires
        i < 5,
    ensures
        r@ == agent_at(i as nat),
{
    let names: [&'static str; 5] = [
        "Mozilla/5.0 (Windows NT 10.0; Win64; x64) AppleWebKit/537.36",
        "Mozilla/5.0 (Macintosh; Intel Mac OS X 10_15_7) AppleWebKit/537.36",
        "curl/8.4.0",
        "Googlebot/2.1 (+http://www.google.com/bot.html)",
        "python-requests/2.31.0",
    ];
    names[i]
}

fn push_two_digits(s: &mut String, n: u64)
    requires
        n < 100,
    ensures
        final(s)@ == old(s)@ + two_digits(n as nat),
{
    push_char(s, ((n / 10) as u8 + 48u8) as char);
    push_char(s, ((n % 10) as u8 + 48u8) as char);
    assert(final(s)@ =~= old(s)@ + two_digits(n as nat));
}

/// The first `n` lines the generator writes from state `s`, one after
/// the other: line `i` is written from the state `13 * i` steps on.
pub open spec fn synthetic_log(s: u64, n: nat) -> Seq<char>
    decreases n,
{
    if n == 0 {
        Seq::empty()
    } else {
        synthetic_log(s, (n - 1) as nat) + synthetic_line(lcg_steps(s, 13 * (n - 1) as nat))
    }
}

/// Stepping `a` times and then `b` times is stepping `a + b` times.
pub proof fn lemma_lcg_steps_add(s: u64, a: nat, b: nat)
    ensures
        lcg_steps(lcg_steps(s, a), b) == lcg_steps(s, a + b),
    decreases b,
{
    if b > 0 {
        lemma_lcg_steps_add(s, a, (b - 1) as nat);
    }
}

/// Fewer lines from the same state are a prefix of more lines: the log of
/// `m` lines is the start of the log of `n` lines, for `m <= n`.
pub proof fn lemma_synthetic_log_prefix(s: u64, m: nat, n: nat)
    requires
        m <= n,
    ensures
        synthetic_log(s, m).len() <= synthetic_log(s, n).len(),
        synthetic_log(s, n).subrange(0, synthetic_log(s, m).len() as int) == synthetic_log(s, m),
    decreases n,
{
    if m < n {
        let k = (n - 1) as nat;
        lemma_synthetic_log_prefix(s, m, k);
        let a = synthetic_log(s, k);
        let b = synthetic_line(lcg_steps(s, 13 * k));
        assert(synthetic_log(s, n) == a + b);
        assert((a + b).subrange(0, synthetic_log(s, m).len() as int) =~= a.subrange(
            0,
            synthetic_log(s, m).len() as int,
        ));
    } else {
        assert(synthetic_log(s, n).subrange(0, synthetic_log(s, n).len() as int) =~= synthetic_log(
            s,
            n,
        ));
    }
}

/// A source of synthetic log lines.
pub struct LogGenerator {
    state: u64,
    written: Ghost<nat>,
}

impl View for LogGenerator {
    type V = u64;

    closed spec fn view(&self) -> u64 {
        self.state
    }
}

impl LogGenerator {
    /// How many lines the generator has written.
    pub closed spec fn written(&self) -> nat {
        self.written@
    }

    /// The state is the seed advanced by every line written so far.
    pub closed spec fn wf(&self) -> bool {
        self.state == lcg_steps(SEED, 13 * self.written@)
    }

    /// A generator at the fixed seed.
    pub fn new() -> (g: Self)
        ensures
            g@ == SEED,
            g.wf(),
            g.written() == 0,
    {
        LogGenerator { state: SEED, written: Ghost(0) }
    }

    fn step(&mut self) -> (r: u64)
        ensures
            r == lcg(old(self)@),
            final(self)@ == r,
            final(self).written == old(self).written,
    {
        self.state = self.state.wrapping_mul(6364136223846793005).wrapping_add(
            1442695040888963407,
        );
        self.state
    }

    /// The next synthetic line, ending in a newline. The lines written
    /// since [`LogGenerator::new`] are always `synthetic_log(SEED, n)`, so
    /// every run writes the same log.
    pub fn next_line(&mut self) -> (r: String)
        requires
            old(self).wf(),
        ensures
            r@ == synthetic_line(old(self)@),
            final(self)@ == lcg_steps(old(self)@, 13),
            final(self).wf(),
            final(self).written() == old(self).written() + 1,
            synthetic_log(SEED, final(self).written()) == synthetic_log(SEED, old(self).written())
                + r@,
    {
        let ghost s0 = self.state;
        let ghost w = self.written@;
        let mut ip = String::new();
        let a = self.step();
        push_decimal(&mut ip, a % 224 + 1);
        push_str(&mut ip, ".");
        let b = self.step();
        push_decimal(&mut ip, b % 256);
        push_str(&mut ip, ".");
        let c = self.step();
        push_decimal(&mut ip, c % 256);
        push_str(&mut ip, ".");
        let d = self.step();
        push_decimal(&mut ip, d % 256);
        let mut ts = String::new();
        let day = self.step();
        push_two_digits(&mut ts, day % 28 + 1);
        push_str(&mut ts, "/Jan/2026:");
        let hour = self.step();
        push_two_digits(&mut ts, hour % 24);
        push_str(&mut ts, ":");
        let min = self.step();
        push_two_digits(&mut ts, min % 60);
        push_str(&mut ts, ":");
        let sec = self.step();
        push_two_digits(&mut ts, sec % 60);
        push_str(&mut ts, " -0700");
        let m = self.step();
        let method = method_name((m as usize) % 7);
        let p = self.step();
        let path = path_name((p as usize) % 26);
        let st = self.step();
        let mut status = String::new();
        push_decimal(&mut status, status_code((st as usize) % 12));
        let size_value = self.step();
        let mut size = String::new();
        push_decimal(&mut size, size_value % 50000 + 100);
        let ua = self.step();
        let mut tail = String::new();
        push_str(&mut tail, " \"-\" \"");
        push_str(&mut tail, agent_name((ua as usize) % 5));
        push_str(&mut tail, "\"\n");
        proof {
            reveal_with_fuel(lcg_steps, 14);
            assert(ip@ =~= synthetic_ip(s0));
            assert(ts@ =~= synthetic_timestamp(s0));
            lemma_lcg_steps_add(SEED, 13 * w, 13);
            assert(13 * w + 13 == 13 * (w + 1));
        }
        self.written = Ghost(w + 1);
        format_log_line(
            ip.as_str(),
            "-",
            "-",
            ts.as_str(),
            method,
            path,
            "HTTP/1.1",
            status.as_str(),
            size.as_str(),
            tail.as_str(),
        )
    }
}

proof fn lemma_digits_no_whitespace(t: Seq<char>)
    requires
        all_ascii_digits(t),
    ensures
        forall|k: int| 0 <= k < t.len() ==> !is_whitespace(#[trigger] t[k]),
        forall|k: int| 0 <= k < t.len() ==> #[trigger] t[k] != ']' && t[k] != ':' && t[k] != '+',
{
    assert forall|k: int| 0 <= k < t.len() implies !is_whitespace(#[trigger] t[k]) by {
        assert(is_ascii_digit(t[k]));
    }
    assert forall|k: int| 0 <= k < t.len() implies #[trigger] t[k] != ']' && t[k] != ':' && t[k]
        != '+' by {
        assert(is_ascii_digit(t[k]));
    }
}

/// A number of three digits is written with three digits.
proof fn lemma_three_digits(n: nat)
    requires
        100 <= n < 1000,
    ensures
        decimal_of(n).len() == 3,
        all_ascii_digits(decimal_of(n)),
        digit_value(decimal_of(n)[0]) * 100 + digit_value(decimal_of(n)[1]) * 10 + digit_value(
            decimal_of(n)[2],
        ) == n,
{
    lemma_decimal_reads_back(n);
    lemma_decimal_reads_back(n / 10);
    lemma_decimal_reads_back(n / 100);
    let d = decimal_of(n);
    assert(d.drop_last() =~= decimal_of(n / 10));
    assert(decimal_of(n / 10).drop_last() =~= decimal_of(n / 100));
    assert(d[0] == decimal_of(n / 100)[0]);
    assert(d[1] == decimal_of(n / 10)[1]);
    let t = d.drop_last().drop_last();
    assert(t =~= seq![d[0]]);
    assert(digits_value(seq![d[0]]) == digit_value(d[0])) by {
        assert(seq![d[0]].drop_last() =~= Seq::<char>::empty());
    }
}

proof fn lemma_no_whitespace_concat(a: Seq<char>, b: Seq<char>)
    requires
        forall|k: int| 0 <= k < a.len() ==> !is_whitespace(#[trigger] a[k]),
        forall|k: int| 0 <= k < b.len() ==> !is_whitespace(#[trigger] b[k]),
    ensures
        forall|k: int| 0 <= k < (a + b).len() ==> !is_whitespace(#[trigger] (a + b)[k]),
{
    assert forall|k: int| 0 <= k < (a + b).len() implies !is_whitespace(#[trigger] (a + b)[k]) by {
        if k < a.len() {
            assert((a + b)[k] == a[k]);
        } else {
            assert((a + b)[k] == b[k - a.len()]);
        }
    }
}

proof fn lemma_ip_is_token(s: u64)
    ensures
        is_token(synthetic_ip(s)),
{
    reveal_strlit(".");
    let d1 = decimal_of(lcg_steps(s, 1) as nat % 224 + 1);
    let d2 = decimal_of(lcg_steps(s, 2) as nat % 256);
    let d3 = decimal_of(lcg_steps(s, 3) as nat % 256);
    let d4 = decimal_of(lcg_steps(s, 4) as nat % 256);
    lemma_decimal_reads_back(lcg_steps(s, 1) as nat % 224 + 1);
    lemma_decimal_reads_back(lcg_steps(s, 2) as nat % 256);
    lemma_decimal_reads_back(lcg_steps(s, 3) as nat % 256);
    lemma_decimal_reads_back(lcg_steps(s, 4) as nat % 256);
    lemma_digits_no_whitespace(d1);
    lemma_digits_no_whitespace(d2);
    lemma_digits_no_whitespace(d3);
    lemma_digits_no_whitespace(d4);
    let dot = "."@;
    assert(!is_whitespace(dot[0]));
    lemma_no_whitespace_concat(d1, dot);
    lemma_no_whitespace_concat(d1 + dot, d2);
    lemma_no_whitespace_concat(d1 + dot + d2, dot);
    lemma_no_whitespace_concat(d1 + dot + d2 + dot, d3);
    lemma_no_whitespace_concat(d1 + dot + d2 + dot + d3, dot);
    lemma_no_whitespace_concat(d1 + dot + d2 + dot + d3 + dot, d4);
}

proof fn lemma_two_digits_read(h: nat)
    requires
        h < 100,
    ensures
        two_digits(h).len() == 2,
        all_ascii_digits(two_digits(h)),
        parse_unsigned(two_digits(h), 255) == (if h <= 255 {
            Some(h)
        } else {
            None
        }),
{
    lemma_decimal_digit(h / 10);
    lemma_decimal_digit(h % 10);
    let t = two_digits(h);
    assert(t.drop_last() =~= seq![t[0]]);
    assert(seq![t[0]].drop_last() =~= Seq::<char>::empty());
    assert(digits_value(Seq::<char>::empty()) == 0);
    assert(digits_value(seq![t[0]]) == h / 10);
    assert(digits_value(t) == (h / 10) * 10 + h % 10);
    assert(t[0] != '+');
    assert(unsigned_digits(t) == t);
}

proof fn lemma_lacks_concat(a: Seq<char>, b: Seq<char>, c: char)
    requires
        lacks(a, c),
        lacks(b, c),
    ensures
        lacks(a + b, c),
{
    assert forall|k: int| 0 <= k < (a + b).len() implies #[trigger] (a + b)[k] != c by {
        if k < a.len() {
            assert((a + b)[k] == a[k]);
        } else {
            assert((a + b)[k] == b[k - a.len()]);
        }
    }
}

/// Two digits hold neither `:` nor `]`.
proof fn lemma_two_digits_plain(h: nat)
    requires
        h < 100,
    ensures
        lacks(two_digits(h), ':'),
        lacks(two_digits(h), ']'),
        parse_unsigned(two_digits(h), 255) == Some(h),
{
    lemma_two_digits_read(h);
    lemma_digits_no_whitespace(two_digits(h));
}

proof fn lemma_timestamp(s: u64)
    ensures
        synthetic_timestamp(s).len() > 0,
        lacks(synthetic_timestamp(s), ']'),
        lacks(synthetic_timestamp(s), '\n'),
        hour_of(synthetic_timestamp(s)) == Some(lcg_steps(s, 6) as nat % 24),
{
    reveal_strlit("/Jan/2026:");
    reveal_strlit("/Jan/2026");
    reveal_strlit(":");
    reveal_strlit(" -0700");
    let day = two_digits(lcg_steps(s, 5) as nat % 28 + 1);
    let hh = two_digits(lcg_steps(s, 6) as nat % 24);
    let mm = two_digits(lcg_steps(s, 7) as nat % 60);
    let ss = two_digits(lcg_steps(s, 8) as nat % 60);
    lemma_two_digits_plain(lcg_steps(s, 5) as nat % 28 + 1);
    lemma_two_digits_plain(lcg_steps(s, 6) as nat % 24);
    lemma_two_digits_plain(lcg_steps(s, 7) as nat % 60);
    lemma_two_digits_plain(lcg_steps(s, 8) as nat % 60);
    let jan = "/Jan/2026"@;
    let colon = ":"@;
    let zone = " -0700"@;
    assert("/Jan/2026:"@ =~= jan + colon);
    assert(lacks(jan, ':') && lacks(jan, ']'));
    assert(lacks(colon, ']'));
    assert(lacks(zone, ']') && lacks(zone, ':'));
    let tail = colon + mm + colon + ss + zone;
    let ts = synthetic_timestamp(s);
    assert(ts =~= (day + jan) + (colon + (hh + tail)));
    lemma_lacks_concat(day, jan, ':');
    lemma_char_end_piece(day + jan, colon + (hh + tail), 0, ':');
    assert(ts.subrange(12, ts.len() as int) =~= hh + tail);
    lemma_char_end_suffix(ts, 12, 0, ':');
    lemma_char_end_piece(hh, tail, 0, ':');
    assert(ts.subrange(12, 14) =~= hh);
    lemma_lacks_concat(day, jan, ']');
    lemma_lacks_concat(colon, mm, ']');
    lemma_lacks_concat(colon + mm, colon, ']');
    lemma_lacks_concat(colon + mm + colon, ss, ']');
    lemma_lacks_concat(colon + mm + colon + ss, zone, ']');
    lemma_lacks_concat(hh, tail, ']');
    lemma_lacks_concat(colon, hh + tail, ']');
    lemma_lacks_concat(day + jan, colon + (hh + tail), ']');
    lemma_no_whitespace_no_newline(day);
    lemma_no_whitespace_no_newline(hh);
    lemma_no_whitespace_no_newline(mm);
    lemma_no_whitespace_no_newline(ss);
    assert(lacks(jan, '\n') && lacks(colon, '\n') && lacks(zone, '\n'));
    lemma_lacks_concat(day, jan, '\n');
    lemma_lacks_concat(colon, mm, '\n');
    lemma_lacks_concat(colon + mm, colon, '\n');
    lemma_lacks_concat(colon + mm + colon, ss, '\n');
    lemma_lacks_concat(colon + mm + colon + ss, zone, '\n');
    lemma_lacks_concat(hh, tail, '\n');
    lemma_lacks_concat(colon, hh + tail, '\n');
    lemma_lacks_concat(day + jan, colon + (hh + tail), '\n');
}

/// Text free of whitespace is free of `\n`.
proof fn lemma_no_whitespace_no_newline(t: Seq<char>)
    requires
        forall|k: int| 0 <= k < t.len() ==> !is_whitespace(#[trigger] t[k]),
    ensures
        lacks(t, '\n'),
{
    assert forall|k: int| 0 <= k < t.len() implies #[trigger] t[k] != '\n' by {
        assert(!is_whitespace(t[k]));
    }
}

proof fn lemma_method_is_token(i: nat)
    ensures
        is_token(method_at(i)),
{
    reveal_strlit("GET");
    reveal_strlit("POST");
    reveal_strlit("HEAD");
}

proof fn lemma_path_is_token(i: nat)
    requires
        i < 26,
    ensures
        is_token(path_at(i)),
{
    reveal_strlit("/");
    reveal_strlit("/index.html");
    reveal_strlit("/about");
    reveal_strlit("/api/users");
    reveal_strlit("/api/health");
    reveal_strlit("/static/app.js");
    reveal_strlit("/static/app.css");
    reveal_strlit("/products");
    reveal_strlit("/products/42");
    reveal_strlit("/cart");
    reveal_strlit("/checkout");
    reveal_strlit("/login");
    reveal_strlit("/admin");
    reveal_strlit("/.env");
    reveal_strlit("/wp-login.php");
    reveal_strlit("/phpmyadmin");
    reveal_strlit("/.git/config");
    reveal_strlit("/blog");
    reveal_strlit("/blog/post-1");
    reveal_strlit("/blog/post-2");
    reveal_strlit("/search?q=widgets");
    reveal_strlit("/contact");
    reveal_strlit("/favicon.ico");
    reveal_strlit("/robots.txt");
    reveal_strlit("/sitemap.xml");
    reveal_strlit("/api/products/12");
}

/// Every line the generator writes is a well-formed log line that parses
/// back to the fields it was written from: its address, hour, path, status
/// and size.
pub proof fn lemma_synthetic_line_parses(s: u64)
    ensures
        spec_parse_line(synthetic_line(s)) == Some(
            (
                synthetic_ip(s),
                (lcg_steps(s, 6) as nat % 24) as u8,
                path_at(pick(lcg_steps(s, 10), 26)),
                status_at(pick(lcg_steps(s, 11), 12)) as u16,
                (lcg_steps(s, 12) as nat % 50000 + 100) as u64,
            ),
        ),
{
    reveal_strlit("-");
    reveal_strlit("HTTP/1.1");
    reveal_strlit(" \"-\" \"");
    let status_n = status_at(pick(lcg_steps(s, 11), 12));
    let size_n = lcg_steps(s, 12) as nat % 50000 + 100;
    let tail = " \"-\" \""@ + agent_at(pick(lcg_steps(s, 13), 5)) + "\"\n"@;
    lemma_ip_is_token(s);
    lemma_timestamp(s);
    lemma_method_is_token(pick(lcg_steps(s, 9), 7));
    lemma_path_is_token(pick(lcg_steps(s, 10), 26));
    lemma_three_digits(status_n);
    lemma_decimal_reads_back(size_n);
    lemma_digits_no_whitespace(decimal_of(size_n));
    assert(unsigned_digits(decimal_of(size_n)) == decimal_of(size_n));
    assert(size_of(decimal_of(size_n)) == size_n as u64);
    assert(tail[0] == ' ');
    assert(lacks("HTTP/1.1"@, '"'));
    lemma_format_then_parse(
        synthetic_ip(s),
        "-"@,
        "-"@,
        synthetic_timestamp(s),
        method_at(pick(lcg_steps(s, 9), 7)),
        path_at(pick(lcg_steps(s, 10), 26)),
        "HTTP/1.1"@,
        decimal_of(status_n),
        decimal_of(size_n),
        tail,
    );
}

/// The line written from state `s` without its final newline, as
/// `str::lines` gives it back.
#[verifier::opaque]
pub open spec fn synthetic_body(s: u64) -> Seq<char> {
    log_line(
        synthetic_ip(s),
        "-"@,
        "-"@,
        synthetic_timestamp(s),
        method_at(pick(lcg_steps(s, 9), 7)),
        path_at(pick(lcg_steps(s, 10), 26)),
        "HTTP/1.1"@,
        decimal_of(status_at(pick(lcg_steps(s, 11), 12))),
        decimal_of(lcg_steps(s, 12) as nat % 50000 + 100),
        " \"-\" \""@ + agent_at(pick(lcg_steps(s, 13), 5)) + "\""@,
    )
}

proof fn lemma_agent_plain(i: nat)
    requires
        i < 5,
    ensures
        lacks(agent_at(i), '\n'),
{
    reveal_strlit("Mozilla/5.0 (Windows NT 10.0; Win64; x64) AppleWebKit/537.36");
    reveal_strlit("Mozilla/5.0 (Macintosh; Intel Mac OS X 10_15_7) AppleWebKit/537.36");
    reveal_strlit("curl/8.4.0");
    reveal_strlit("Googlebot/2.1 (+http://www.google.com/bot.html)");
    reveal_strlit("python-requests/2.31.0");
}

/// A log line laid out from pieces free of `\n` is free of `\n`.
proof fn lemma_log_line_no_newline(
    ip: Seq<char>,
    ident: Seq<char>,
    user: Seq<char>,
    ts: Seq<char>,
    method: Seq<char>,
    path: Seq<char>,
    protocol: Seq<char>,
    status: Seq<char>,
    size: Seq<char>,
    tail: Seq<char>,
)
    requires
        lacks(ip, '\n'),
        lacks(ident, '\n'),
        lacks(user, '\n'),
        lacks(ts, '\n'),
        lacks(method, '\n'),
        lacks(path, '\n'),
        lacks(protocol, '\n'),
        lacks(status, '\n'),
        lacks(size, '\n'),
        lacks(tail, '\n'),
    ensures
        lacks(log_line(ip, ident, user, ts, method, path, protocol, status, size, tail), '\n'),
{
    reveal_strlit(" ");
    reveal_strlit(" [");
    reveal_strlit("] \"");
    reveal_strlit("\" ");
    let sp = " "@;
    let open = " ["@;
    let close = "] \""@;
    let quote_sp = "\" "@;
    assert(lacks(sp, '\n') && lacks(open, '\n') && lacks(close, '\n') && lacks(quote_sp, '\n'));
    let p1 = size + tail;
    lemma_lacks_concat(size, tail, '\n');
    let p2 = sp + p1;
    lemma_lacks_concat(sp, p1, '\n');
    let p3 = status + p2;
    lemma_lacks_concat(status, p2, '\n');
    let p4 = quote_sp + p3;
    lemma_lacks_concat(quote_sp, p3, '\n');
    let p5 = protocol + p4;
    lemma_lacks_concat(protocol, p4, '\n');
    let p6 = sp + p5;
    lemma_lacks_concat(sp, p5, '\n');
    let p7 = path + p6;
    lemma_lacks_concat(path, p6, '\n');
    let p8 = sp + p7;
    lemma_lacks_concat(sp, p7, '\n');
    let p9 = method + p8;
    lemma_lacks_concat(method, p8, '\n');
    let p10 = close + p9;
    lemma_lacks_concat(close, p9, '\n');
    let p11 = ts + p10;
    lemma_lacks_concat(ts, p10, '\n');
    let p12 = open + p11;
    lemma_lacks_concat(open, p11, '\n');
    let p13 = user + p12;
    lemma_lacks_concat(user, p12, '\n');
    let p14 = sp + p13;
    lemma_lacks_concat(sp, p13, '\n');
    let p15 = ident + p14;
    lemma_lacks_concat(ident, p14, '\n');
    let p16 = sp + p15;
    lemma_lacks_concat(sp, p15, '\n');
    lemma_lacks_concat(ip, p16, '\n');
}

/// A log line ends as its last piece does, and a longer last piece gives
/// the longer line.
proof fn lemma_log_line_tail(
    ip: Seq<char>,
    ident: Seq<char>,
    user: Seq<char>,
    ts: Seq<char>,
    method: Seq<char>,
    path: Seq<char>,
    protocol: Seq<char>,
    status: Seq<char>,
    size: Seq<char>,
    tail: Seq<char>,
    c: char,
)
    requires
        tail.len() > 0,
    ensures
        log_line(ip, ident, user, ts, method, path, protocol, status, size, tail.push(c))
            == log_line(ip, ident, user, ts, method, path, protocol, status, size, tail).push(c),
        log_line(ip, ident, user, ts, method, path, protocol, status, size, tail).last()
            == tail.last(),
{
    let sp = " "@;
    let open = " ["@;
    let close = "] \""@;
    let quote_sp = "\" "@;
    let t2 = tail.push(c);
    lemma_push_concat(size, tail, c);
    let p1 = size + tail;
    lemma_push_concat(sp, p1, c);
    let p2 = sp + p1;
    lemma_push_concat(status, p2, c);
    let p3 = status + p2;
    lemma_push_concat(quote_sp, p3, c);
    let p4 = quote_sp + p3;
    lemma_push_concat(protocol, p4, c);
    let p5 = protocol + p4;
    lemma_push_concat(sp, p5, c);
    let p6 = sp + p5;
    lemma_push_concat(path, p6, c);
    let p7 = path + p6;
    lemma_push_concat(sp, p7, c);
    let p8 = sp + p7;
    lemma_push_concat(method, p8, c);
    let p9 = method + p8;
    lemma_push_concat(close, p9, c);
    let p10 = close + p9;
    lemma_push_concat(ts, p10, c);
    let p11 = ts + p10;
    lemma_push_concat(open, p11, c);
    let p12 = open + p11;
    lemma_push_concat(user, p12, c);
    let p13 = user + p12;
    lemma_push_concat(sp, p13, c);
    let p14 = sp + p13;
    lemma_push_concat(ident, p14, c);
    let p15 = ident + p14;
    lemma_push_concat(sp, p15, c);
    let p16 = sp + p15;
    lemma_push_concat(ip, p16, c);
}

/// Pushing onto a concatenation pushes onto its second part.
proof fn lemma_push_concat(a: Seq<char>, b: Seq<char>, c: char)
    requires
        b.len() > 0,
    ensures
        (a + b).push(c) == a + b.push(c),
        (a + b).last() == b.last(),
        (a + b).len() > 0,
{
    assert((a + b).push(c) =~= a + b.push(c));
}

proof fn lemma_synthetic_body_parses(s: u64)
    ensures
        spec_parse_line(synthetic_body(s)) == Some(
            (
                synthetic_ip(s),
                (lcg_steps(s, 6) as nat % 24) as u8,
                path_at(pick(lcg_steps(s, 10), 26)),
                status_at(pick(lcg_steps(s, 11), 12)) as u16,
                (lcg_steps(s, 12) as nat % 50000 + 100) as u64,
            ),
        ),
{
    reveal(synthetic_body);
    reveal_strlit("-");
    reveal_strlit("HTTP/1.1");
    reveal_strlit(" \"-\" \"");
    let status_n = status_at(pick(lcg_steps(s, 11), 12));
    let size_n = lcg_steps(s, 12) as nat % 50000 + 100;
    let tail = " \"-\" \""@ + agent_at(pick(lcg_steps(s, 13), 5)) + "\""@;
    lemma_ip_is_token(s);
    lemma_timestamp(s);
    lemma_method_is_token(pick(lcg_steps(s, 9), 7));
    lemma_path_is_token(pick(lcg_steps(s, 10), 26));
    lemma_three_digits(status_n);
    lemma_decimal_reads_back(size_n);
    lemma_digits_no_whitespace(decimal_of(size_n));
    assert(unsigned_digits(decimal_of(size_n)) == decimal_of(size_n));
    assert(size_of(decimal_of(size_n)) == size_n as u64);
    assert(tail[0] == ' ');
    assert(lacks("HTTP/1.1"@, '"'));
    lemma_format_then_parse(
        synthetic_ip(s),
        "-"@,
        "-"@,
        synthetic_timestamp(s),
        method_at(pick(lcg_steps(s, 9), 7)),
        path_at(pick(lcg_steps(s, 10), 26)),
        "HTTP/1.1"@,
        decimal_of(status_n),
        decimal_of(size_n),
        tail,
    );
}

proof fn lemma_synthetic_body_no_newline(s: u64)
    ensures
        lacks(synthetic_body(s), '\n'),
{
    reveal(synthetic_body);
    reveal_strlit("-");
    reveal_strlit("HTTP/1.1");
    reveal_strlit(" \"-\" \"");
    reveal_strlit("\"");
    let status_n = status_at(pick(lcg_steps(s, 11), 12));
    let size_n = lcg_steps(s, 12) as nat % 50000 + 100;
    let agent = agent_at(pick(lcg_steps(s, 13), 5));
    lemma_ip_is_token(s);
    lemma_timestamp(s);
    lemma_method_is_token(pick(lcg_steps(s, 9), 7));
    lemma_path_is_token(pick(lcg_steps(s, 10), 26));
    lemma_three_digits(status_n);
    lemma_decimal_reads_back(size_n);
    lemma_digits_no_whitespace(decimal_of(size_n));
    lemma_digits_no_whitespace(decimal_of(status_n));
    lemma_no_whitespace_no_newline(synthetic_ip(s));
    lemma_no_whitespace_no_newline(method_at(pick(lcg_steps(s, 9), 7)));
    lemma_no_whitespace_no_newline(path_at(pick(lcg_steps(s, 10), 26)));
    lemma_no_whitespace_no_newline(decimal_of(status_n));
    lemma_no_whitespace_no_newline(decimal_of(size_n));
    lemma_agent_plain(pick(lcg_steps(s, 13), 5));
    assert(lacks("-"@, '\n') && lacks("HTTP/1.1"@, '\n'));
    assert(lacks(" \"-\" \""@, '\n') && lacks("\""@, '\n'));
    lemma_lacks_concat(" \"-\" \""@, agent, '\n');
    lemma_lacks_concat(" \"-\" \""@ + agent, "\""@, '\n');
    lemma_log_line_no_newline(
        synthetic_ip(s),
        "-"@,
        "-"@,
        synthetic_timestamp(s),
        method_at(pick(lcg_steps(s, 9), 7)),
        path_at(pick(lcg_steps(s, 10), 26)),
        "HTTP/1.1"@,
        decimal_of(status_n),
        decimal_of(size_n),
        " \"-\" \""@ + agent + "\""@,
    );
}

/// The line written from state `s` is its body and a newline; the body has
/// no newline, ends in `"` (so not in `\r`), and parses to the line's
/// fields.
pub proof fn lemma_synthetic_body(s: u64)
    ensures
        synthetic_line(s) == synthetic_body(s).push('\n'),
        lacks(synthetic_body(s), '\n'),
        synthetic_body(s).len() > 0,
        synthetic_body(s).last() == '"',
        spec_parse_line(synthetic_body(s)) == Some(
            (
                synthetic_ip(s),
                (lcg_steps(s, 6) as nat % 24) as u8,
                path_at(pick(lcg_steps(s, 10), 26)),
                status_at(pick(lcg_steps(s, 11), 12)) as u16,
                (lcg_steps(s, 12) as nat % 50000 + 100) as u64,
            ),
        ),
{
    reveal(synthetic_body);
    reveal_strlit(" \"-\" \"");
    reveal_strlit("\"");
    reveal_strlit("\"\n");
    let agent = agent_at(pick(lcg_steps(s, 13), 5));
    let tail = " \"-\" \""@ + agent + "\""@;
    assert(" \"-\" \""@ + agent + "\"\n"@ =~= tail.push('\n'));
    lemma_log_line_tail(
        synthetic_ip(s),
        "-"@,
        "-"@,
        synthetic_timestamp(s),
        method_at(pick(lcg_steps(s, 9), 7)),
        path_at(pick(lcg_steps(s, 10), 26)),
        "HTTP/1.1"@,
        decimal_of(status_at(pick(lcg_steps(s, 11), 12))),
        decimal_of(lcg_steps(s, 12) as nat % 50000 + 100),
        tail,
        '\n',
    );
    lemma_synthetic_body_parses(s);
    lemma_synthetic_body_no_newline(s);
}

/// The first `n` lines written from state `s`, without their newlines.
pub open spec fn synthetic_bodies(s: u64, n: nat) -> Seq<Seq<char>> {
    Seq::new(n, |i: int| synthetic_body(lcg_steps(s, (13 * i) as nat)))
}

#[verifier::spinoff_prover]
proof fn lemma_synthetic_log_text(s: u64, n: nat)
    ensures
        text_lines(synthetic_log(s, n)) == synthetic_bodies(s, n),
        synthetic_log(s, n).len() == 0 || synthetic_log(s, n).last() == '\n',
    decreases n,
{
    if n == 0 {
        assert(text_lines(synthetic_log(s, 0)) =~= Seq::<Seq<char>>::empty());
        assert(synthetic_bodies(s, 0) =~= Seq::<Seq<char>>::empty());
    } else {
        let k = (n - 1) as nat;
        lemma_synthetic_log_text(s, k);
        let st = lcg_steps(s, 13 * k);
        lemma_synthetic_body(st);
        let body = synthetic_body(st);
        lemma_text_lines_one(body);
        lemma_text_lines_concat(synthetic_log(s, k), synthetic_line(st));
        assert(synthetic_log(s, n) == synthetic_log(s, k) + synthetic_line(st));
        assert(synthetic_bodies(s, n) =~= synthetic_bodies(s, k) + seq![body]);
        assert(synthetic_log(s, n).last() == synthetic_line(st).last());
    }
}

/// The log read back with `str::lines` is the lines that were written, each
/// of them parses, so its statistics count `n` lines, all parsed.
#[verifier::spinoff_prover]
pub proof fn lemma_synthetic_log_lines(s: u64, n: nat)
    ensures
        text_lines(synthetic_log(s, n)) == synthetic_bodies(s, n),
        forall|i: int| 0 <= i < n ==> spec_parse_line(#[trigger] synthetic_bodies(s, n)[i]) is Some,
        analysis(text_lines(synthetic_log(s, n))).total_lines == n,
        analysis(text_lines(synthetic_log(s, n))).parsed_lines == n,
{
    lemma_synthetic_log_text(s, n);
    let bodies = synthetic_bodies(s, n);
    assert forall|i: int| 0 <= i < n implies spec_parse_line(#[trigger] bodies[i]) is Some by {
        lemma_synthetic_body(lcg_steps(s, (13 * i) as nat));
    }
    lemma_all_lines_parse(bodies);
}

/// The fixed table of statuses the generator picks from.
pub open spec fn status_table() -> Seq<u16> {
    seq![200u16, 200, 200, 200, 200, 304, 301, 404, 404, 500, 401, 403]
}

/// The fixed table of paths the generator picks from.
pub open spec fn path_table() -> Seq<Seq<char>> {
    seq![
        "/"@, "/index.html"@, "/about"@, "/api/users"@, "/api/health"@, "/static/app.js"@,
        "/static/app.css"@, "/products"@, "/products/42"@, "/cart"@, "/checkout"@, "/login"@,
        "/admin"@, "/.env"@, "/wp-login.php"@, "/phpmyadmin"@, "/.git/config"@, "/blog"@,
        "/blog/post-1"@, "/blog/post-2"@, "/search?q=widgets"@, "/contact"@, "/favicon.ico"@,
        "/robots.txt"@, "/sitemap.xml"@, "/api/products/12"@,
    ]
}

proof fn lemma_status_table(i: nat)
    requires
        i < 12,
    ensures
        status_at(i) as u16 == status_table()[i as int],
{
}

proof fn lemma_path_table(i: nat)
    requires
        i < 26,
    ensures
        path_at(i) == path_table()[i as int],
{
}

/// The status a generated line carries is the entry of [`status_table`]
/// (200, 200, 200, 200, 200, 304, 301, 404, 404, 500, 401, 403) at the
/// generator's value modulo 12, and its path the entry of [`path_table`] at
/// the value modulo 26.
#[verifier::spinoff_prover]
pub proof fn lemma_synthetic_status_and_path(s: u64)
    ensures
        spec_parse_line(synthetic_line(s)) matches Some(r) && r.3 == status_table()[((lcg_steps(
            s,
            11,
        ) as usize) as nat % 12) as int] && r.2 == path_table()[((lcg_steps(s, 10) as usize) as nat
            % 26) as int],
{
    lemma_synthetic_line_parses(s);
    lemma_status_table(pick(lcg_steps(s, 11), 12));
    lemma_path_table(pick(lcg_steps(s, 10), 26));
}

/// The method of a generated line is the entry, picked by the generator's
/// value modulo 7, of the table GET, GET, GET, GET, POST, GET, HEAD.
pub proof fn lemma_method_table(i: nat)
    requires
        i < 7,
    ensures
        method_at(i) == seq!["GET"@, "GET"@, "GET"@, "GET"@, "POST"@, "GET"@, "HEAD"@][i as int],
{
}

/// The user agent of a generated line is the entry, modulo 5, of the fixed
/// agent table.
pub proof fn lemma_agent_table(i: nat)
    requires
        i < 5,
    ensures
        agent_at(i) == seq![
            "Mozilla/5.0 (Windows NT 10.0; Win64; x64) AppleWebKit/537.36"@,
            "Mozilla/5.0 (Macintosh; Intel Mac OS X 10_15_7) AppleWebKit/537.36"@,
            "curl/8.4.0"@,
            "Googlebot/2.1 (+http://www.google.com/bot.html)"@,
            "python-requests/2.31.0"@,
        ][i as int],
{
}

} // verus!
