//! The user message that asks for a summary of a log's statistics.
use vstd::prelude::*;
use crate::counts::count;
use crate::report::{
    format_kv_sorted, format_top_n, join_lines, join_strings, sorted_by_key, string_views,
    text_entry_views, top_by_count,
};
use crate::sanitize::{sanitize, sanitized};
use crate::stats::{Stats, StatsView};
use crate::text::{decimal_digit, decimal_of, push_char, push_decimal, push_str};

verus! {

/// How many addresses and paths the prompt lists.
pub const TOP_N: usize = 20;

/// One line of the status breakdown: `  200 → 12 requests`.
pub open spec fn status_line(code: u16, n: u64) -> Seq<char> {
    "  "@ + decimal_of(code as nat) + " \u{2192} "@ + decimal_of(n as nat) + " requests"@
}

/// One line of a top list: the key sanitized, then its count.
pub open spec fn top_line(key: Seq<char>, n: nat) -> Seq<char> {
    "  "@ + sanitized(key) + " \u{2192} "@ + decimal_of(n)
}

/// An hour written with two digits.
pub open spec fn two_digits(h: nat) -> Seq<char> {
    seq![decimal_digit(h / 10), decimal_digit(h % 10)]
}

/// One line of the hourly distribution: `  07:00 → 3`.
pub open spec fn hour_line(h: nat, hours: Map<u8, nat>) -> Seq<char> {
    "  "@ + two_digits(h) + ":00 \u{2192} "@ + decimal_of(count(hours, h as u8))
}

/// The hourly distribution: one line for each hour 0 to 23, also for hours
/// with no request.
pub open spec fn hours_block(hours: Map<u8, nat>) -> Seq<char> {
    join_lines(Seq::new(24, |h: int| hour_line(h as nat, hours)))
}

/// The prompt text around its computed blocks.
pub open spec fn prompt_text(
    s: StatsView,
    rate: Seq<char>,
    statuses: Seq<char>,
    ips: Seq<char>,
    paths: Seq<char>,
) -> Seq<char> {
    "Aggregate stats from a web-server log file (NCSA Common Log Format):\n\nLines read:        "@
        + decimal_of(s.total_lines) + "\nLines parsed:      "@ + decimal_of(s.parsed_lines)
        + "  ("@ + rate + "% parse rate)\nTotal requests:    "@ + decimal_of(s.requests)
        + "\nBytes served:      "@ + decimal_of(s.bytes) + "\nUnique IPs:        "@ + decimal_of(
        s.by_ip.dom().len(),
    ) + "\nDistinct paths:    "@ + decimal_of(s.by_path.dom().len()) + "\nStatus classes:    "@
        + decimal_of(s.by_status.dom().len()) + "\n\nStatus code breakdown:\n"@ + statuses
        + "\n\nTop "@ + decimal_of(TOP_N as nat) + " IPs by request count:\n"@ + ips + "\n\nTop "@
        + decimal_of(TOP_N as nat) + " paths by request count:\n"@ + paths
        + "\n\nHourly request distribution (24h):\n"@ + hours_block(s.by_hour)
        + "\n\nProduce both the technical and plain summaries now as a single JSON object."@
}

fn status_line_text(code: &u16, n: &u64) -> (l: String)
    ensures
        l@ == status_line(*code, *n),
{
    let mut l = String::new();
    push_str(&mut l, "  ");
    push_decimal(&mut l, *code as u64);
    push_str(&mut l, " \u{2192} ");
    push_decimal(&mut l, *n);
    push_str(&mut l, " requests");
    assert(l@ =~= status_line(*code, *n));
    l
}

fn top_line_text(key: &String, n: &u64) -> (l: String)
    ensures
        l@ == top_line(key@, *n as nat),
{
    let mut l = String::new();
    push_str(&mut l, "  ");
    let k = sanitize(key.as_str());
    push_str(&mut l, k.as_str());
    push_str(&mut l, " \u{2192} ");
    push_decimal(&mut l, *n);
    assert(l@ =~= top_line(key@, *n as nat));
    l
}

fn hours_text(s: &Stats) -> (r: String)
    ensures
        r@ == hours_block(s@.by_hour),
{
    let mut lines: Vec<String> = Vec::new();
    let mut h: u8 = 0;
    while h < 24
        invariant
            h <= 24,
            lines@.len() == h,
            forall|j: int| 0 <= j < h ==> (#[trigger] lines@[j])@ == hour_line(j as nat, s@.by_hour),
        decreases 24 - h,
    {
        let mut l = String::new();
        push_str(&mut l, "  ");
        push_char(&mut l, (h / 10 + 48u8) as char);
        push_char(&mut l, (h % 10 + 48u8) as char);
        push_str(&mut l, ":00 \u{2192} ");
        push_decimal(&mut l, s.by_hour.count_of(h));
        assert(l@ =~= hour_line(h as nat, s@.by_hour));
        lines.push(l);
        h = h + 1;
    }
    assert(string_views(lines@) =~= Seq::new(24, |j: int| hour_line(j as nat, s@.by_hour)));
    join_strings(&lines)
}

/// The user message asking for the two summaries of `s`. The parse rate
/// comes in already written (two decimals, as `{:.2}` writes it).
pub fn build_prompt(s: &Stats, parse_rate: &str) -> (r: String)
    requires
        s.wf(),
    ensures
        exists|st: Seq<(u16, u64)>, ips: Seq<(String, u64)>, paths: Seq<(String, u64)>|
            {
                &&& sorted_by_key(s@.by_status, st)
                &&& top_by_count(s@.by_ip, TOP_N as nat, text_entry_views(ips))
                &&& top_by_count(s@.by_path, TOP_N as nat, text_entry_views(paths))
                &&& r@ == prompt_text(
                    s@,
                    parse_rate@,
                    join_lines(st.map_values(|e: (u16, u64)| status_line(e.0, e.1))),
                    join_lines(
                        text_entry_views(ips).map_values(
                            |e: (Seq<char>, nat)| top_line(e.0, e.1),
                        ),
                    ),
                    join_lines(
                        text_entry_views(paths).map_values(
                            |e: (Seq<char>, nat)| top_line(e.0, e.1),
                        ),
                    ),
                )
            },
{
    let by_status = format_kv_sorted(&s.by_status, status_line_text);
    let top_ips = format_top_n(&s.by_ip, TOP_N, top_line_text);
    let top_paths = format_top_n(&s.by_path, TOP_N, top_line_text);
    let hours = hours_text(s);
    let ghost st_w = choose|es: Seq<(u16, u64)>, ls: Seq<String>|
        {
            &&& sorted_by_key(s@.by_status, es)
            &&& ls.len() == es.len()
            &&& forall|i: int|
                0 <= i < es.len() ==> call_ensures(
                    status_line_text,
                    (&es[i].0, &es[i].1),
                    #[trigger] ls[i],
                )
            &&& by_status@ == join_lines(string_views(ls))
        };
    let ghost ip_w = choose|es: Seq<(String, u64)>, ls: Seq<String>|
        {
            &&& top_by_count(s@.by_ip, TOP_N as nat, text_entry_views(es))
            &&& ls.len() == es.len()
            &&& forall|i: int|
                0 <= i < es.len() ==> call_ensures(
                    top_line_text,
                    (&es[i].0, &es[i].1),
                    #[trigger] ls[i],
                )
            &&& top_ips@ == join_lines(string_views(ls))
        };
    let ghost path_w = choose|es: Seq<(String, u64)>, ls: Seq<String>|
        {
            &&& top_by_count(s@.by_path, TOP_N as nat, text_entry_views(es))
            &&& ls.len() == es.len()
            &&& forall|i: int|
                0 <= i < es.len() ==> call_ensures(
                    top_line_text,
                    (&es[i].0, &es[i].1),
                    #[trigger] ls[i],
                )
            &&& top_paths@ == join_lines(string_views(ls))
        };
    proof {
        assert(string_views(st_w.1) =~= st_w.0.map_values(
            |e: (u16, u64)| status_line(e.0, e.1),
        ));
        assert(string_views(ip_w.1) =~= text_entry_views(ip_w.0).map_values(
            |e: (Seq<char>, nat)| top_line(e.0, e.1),
        ));
        assert(string_views(path_w.1) =~= text_entry_views(path_w.0).map_values(
            |e: (Seq<char>, nat)| top_line(e.0, e.1),
        ));
    }
    let mut out = String::new();
    push_str(
        &mut out,
        "Aggregate stats from a web-server log file (NCSA Common Log Format):\n\nLines read:        ",
    );
    push_decimal(&mut out, s.total_lines);
    push_str(&mut out, "\nLines parsed:      ");
    push_decimal(&mut out, s.parsed_lines);
    push_str(&mut out, "  (");
    push_str(&mut out, parse_rate);
    push_str(&mut out, "% parse rate)\nTotal requests:    ");
    push_decimal(&mut out, s.requests);
    push_str(&mut out, "\nBytes served:      ");
    push_decimal(&mut out, s.bytes);
    push_str(&mut out, "\nUnique IPs:        ");
    push_decimal(&mut out, s.by_ip.len() as u64);
    push_str(&mut out, "\nDistinct paths:    ");
    push_decimal(&mut out, s.by_path.len() as u64);
    push_str(&mut out, "\nStatus classes:    ");
    push_decimal(&mut out, s.by_status.len() as u64);
    push_str(&mut out, "\n\nStatus code breakdown:\n");
    push_str(&mut out, by_status.as_str());
    push_str(&mut out, "\n\nTop ");
    push_decimal(&mut out, TOP_N as u64);
    push_str(&mut out, " IPs by request count:\n");
    push_str(&mut out, top_ips.as_str());
    push_str(&mut out, "\n\nTop ");
    push_decimal(&mut out, TOP_N as u64);
    push_str(&mut out, " paths by request count:\n");
    push_str(&mut out, top_paths.as_str());
    push_str(&mut out, "\n\nHourly request distribution (24h):\n");
    push_str(&mut out, hours.as_str());
    push_str(&mut out, "\n\nProduce both the technical and plain summaries now as a single JSON object.");
    proof {
        let want = prompt_text(
            s@,
            parse_rate@,
            join_lines(st_w.0.map_values(|e: (u16, u64)| status_line(e.0, e.1))),
            join_lines(
                text_entry_views(ip_w.0).map_values(|e: (Seq<char>, nat)| top_line(e.0, e.1)),
            ),
            join_lines(
                text_entry_views(path_w.0).map_values(|e: (Seq<char>, nat)| top_line(e.0, e.1)),
            ),
        );
        assert(out@ =~= want);
    }
    out
}

} // verus!
