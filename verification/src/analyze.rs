//! Rolling a whole log up into one [`Stats`].
use vstd::prelude::*;
use crate::parse::{parse_line, spec_parse_line};
use crate::stats::{
    empty_stats, lemma_merge_identity, lemma_record_into_merge, merge_stats,
    record_stats, Stats, StatsView,
};
use crate::counts::{count, counts_at_most};
use crate::stats::lemma_record_counts;
use crate::text::{
    char_end, chars_of, lemma_char_end_bounds, lemma_char_end_suffix, scan_to, string_from,
};

verus! {

/// The lines of a text as `str::lines` gives them: split at each `\n`, a
/// `\r` right before a `\n` dropped, and no empty last line after a final
/// `\n`.
pub open spec fn text_lines(s: Seq<char>) -> Seq<Seq<char>>
    decreases s.len(),
{
    if s.len() == 0 {
        Seq::empty()
    } else {
        let j = char_end(s, 0, '\n');
        proof {
            lemma_char_end_bounds(s, 0, '\n');
        }
        if j < s.len() {
            let line = if j > 0 && s[j - 1] == '\r' {
                s.subrange(0, j - 1)
            } else {
                s.subrange(0, j)
            };
            seq![line] + text_lines(s.subrange(j + 1, s.len() as int))
        } else {
            seq![s]
        }
    }
}

/// Looking for `c` in `x + y` finds the first `c` of `x` where `x` has one.
proof fn lemma_char_end_prefix(x: Seq<char>, y: Seq<char>, i: int, c: char)
    requires
        0 <= i <= x.len(),
        char_end(x, i, c) < x.len(),
    ensures
        char_end(x + y, i, c) == char_end(x, i, c),
    decreases x.len() - i,
{
    reveal(char_end);
    assert((x + y)[i] == x[i]);
    if x[i] != c {
        lemma_char_end_prefix(x, y, i + 1, c);
    }
}

/// The lines of two texts, the first empty or ending in `\n`, are the lines
/// of the first followed by those of the second.
pub proof fn lemma_text_lines_concat(x: Seq<char>, y: Seq<char>)
    requires
        x.len() == 0 || x.last() == '\n',
    ensures
        text_lines(x + y) == text_lines(x) + text_lines(y),
    decreases x.len(),
{
    if x.len() == 0 {
        assert(x + y =~= y);
        assert(text_lines(x) =~= Seq::<Seq<char>>::empty());
        assert(text_lines(x) + text_lines(y) =~= text_lines(y));
    } else {
        lemma_char_end_bounds(x, 0, '\n');
        let j = char_end(x, 0, '\n');
        if j >= x.len() {
            assert(x[x.len() - 1] == '\n');
            assert(false);
        }
        lemma_char_end_prefix(x, y, 0, '\n');
        let xy = x + y;
        assert(xy.subrange(0, j) =~= x.subrange(0, j));
        assert(j > 0 ==> xy[j - 1] == x[j - 1]);
        let x2 = x.subrange(j + 1, x.len() as int);
        assert(xy.subrange(j + 1, xy.len() as int) =~= x2 + y);
        if x2.len() > 0 {
            assert(x2.last() == x.last());
        }
        lemma_text_lines_concat(x2, y);
        let line = if j > 0 && x[j - 1] == '\r' {
            x.subrange(0, j - 1)
        } else {
            x.subrange(0, j)
        };
        assert(xy.len() > 0);
        if j > 0 {
            assert(xy.subrange(0, j - 1) =~= x.subrange(0, j - 1));
        }
        let line_xy = if j > 0 && xy[j - 1] == '\r' {
            xy.subrange(0, j - 1)
        } else {
            xy.subrange(0, j)
        };
        assert(line_xy == line);
        assert(text_lines(xy) == seq![line_xy] + text_lines(xy.subrange(j + 1, xy.len() as int)));
        assert(text_lines(xy) == seq![line] + text_lines(x2 + y));
        assert(text_lines(x) == seq![line] + text_lines(x2));
        assert(seq![line] + (text_lines(x2) + text_lines(y)) =~= (seq![line] + text_lines(x2))
            + text_lines(y));
    }
}

/// A line without `\n` that does not end in `\r`, followed by `\n`, is
/// that one line.
pub proof fn lemma_text_lines_one(body: Seq<char>)
    requires
        forall|k: int| 0 <= k < body.len() ==> #[trigger] body[k] != '\n',
        body.len() == 0 || body.last() != '\r',
    ensures
        text_lines(body.push('\n')) == seq![body],
{
    let t = body.push('\n');
    lemma_char_end_bounds(t, 0, '\n');
    let j = char_end(t, 0, '\n');
    assert(t[body.len() as int] == '\n');
    if j < body.len() {
        assert(t[j] == body[j]);
    }
    assert(j == body.len());
    assert(t.subrange(0, j) =~= body);
    assert(j > 0 ==> t[j - 1] == body.last());
    assert(t.subrange(j + 1, t.len() as int) =~= Seq::<char>::empty());
    assert(text_lines(Seq::<char>::empty()) =~= Seq::<Seq<char>>::empty());
    assert(seq![body] + Seq::<Seq<char>>::empty() =~= seq![body]);
}

/// Splits a text into its lines as `str::lines` does.
pub fn split_lines(input: &str) -> (r: Vec<String>)
    ensures
        r@.map_values(|l: String| l@) == text_lines(input@),
{
    let v = chars_of(input);
    let n = v.len();
    let mut out: Vec<String> = Vec::new();
    let mut pos: usize = 0;
    proof {
        assert(v@.subrange(0, n as int) =~= v@);
        assert(out@.map_values(|l: String| l@) + text_lines(v@) =~= text_lines(v@));
    }
    while pos < n
        invariant
            n == v.len(),
            v@ == input@,
            pos <= n,
            out@.map_values(|l: String| l@) + text_lines(v@.subrange(pos as int, n as int))
                == text_lines(v@),
        decreases n - pos,
    {
        let ghost rest = v@.subrange(pos as int, n as int);
        let j = scan_to(&v, pos, '\n');
        proof {
            lemma_char_end_suffix(v@, pos as int, 0, '\n');
            lemma_char_end_bounds(v@, pos as int, '\n');
        }
        let ghost old_out = out@.map_values(|l: String| l@);
        if j < n {
            let end = if j > pos && v[j - 1] == '\r' {
                j - 1
            } else {
                j
            };
            let line = string_from(&v, pos, end);
            out.push(line);
            proof {
                let jr = j - pos;
                assert(char_end(rest, 0, '\n') == jr);
                assert(rest.subrange(jr + 1, rest.len() as int) =~= v@.subrange(
                    j + 1,
                    n as int,
                ));
                if j > pos && v@[j - 1] == '\r' {
                    assert(rest.subrange(0, jr - 1) =~= v@.subrange(pos as int, end as int));
                } else {
                    assert(rest.subrange(0, jr) =~= v@.subrange(pos as int, end as int));
                }
                assert(out@.map_values(|l: String| l@) =~= old_out.push(line@));
                assert(text_lines(rest) == seq![line@] + text_lines(
                    v@.subrange(j + 1, n as int),
                ));
                assert(old_out + text_lines(rest) =~= out@.map_values(|l: String| l@)
                    + text_lines(v@.subrange(j + 1, n as int)));
            }
            pos = j + 1;
        } else {
            let line = string_from(&v, pos, n);
            out.push(line);
            proof {
                assert(text_lines(rest) == seq![rest]);
                assert(out@.map_values(|l: String| l@) =~= old_out.push(line@));
                assert(v@.subrange(n as int, n as int) =~= Seq::<char>::empty());
                assert(old_out + text_lines(rest) =~= out@.map_values(|l: String| l@)
                    + text_lines(v@.subrange(n as int, n as int)));
            }
            pos = n;
        }
    }
    proof {
        assert(v@.subrange(n as int, n as int) =~= Seq::<char>::empty());
        assert(out@.map_values(|l: String| l@) + Seq::<Seq<char>>::empty() =~= out@.map_values(
            |l: String| l@,
        ));
    }
    out
}

/// The statistics of the requests that the lines yield, in line order; the
/// line counts stay 0.
pub open spec fn tally(lines: Seq<Seq<char>>) -> StatsView
    decreases lines.len(),
{
    if lines.len() == 0 {
        empty_stats()
    } else {
        let s = tally(lines.drop_last());
        match spec_parse_line(lines.last()) {
            Some(r) => record_stats(s, r),
            None => s,
        }
    }
}

/// The statistics of a log: the tally of its lines, how many lines it has,
/// and how many of them parsed.
pub open spec fn analysis(lines: Seq<Seq<char>>) -> StatsView {
    let t = tally(lines);
    StatsView { total_lines: lines.len(), parsed_lines: t.requests, ..t }
}

/// The totals of a log fit in `u64`.
pub open spec fn analysis_fits(lines: Seq<Seq<char>>) -> bool {
    lines.len() <= u64::MAX && tally(lines).bytes <= u64::MAX
}

pub open spec fn line_views(lines: Seq<String>) -> Seq<Seq<char>> {
    lines.map_values(|l: String| l@)
}

/// Requests never outnumber lines, no key outnumbers requests, and the bytes
/// only grow from a prefix.
pub proof fn lemma_tally_bounds(lines: Seq<Seq<char>>, i: int)
    requires
        0 <= i <= lines.len(),
    ensures
        tally(lines).requests <= lines.len(),
        counts_at_most(tally(lines).by_ip, tally(lines).requests),
        counts_at_most(tally(lines).by_status, tally(lines).requests),
        counts_at_most(tally(lines).by_path, tally(lines).requests),
        counts_at_most(tally(lines).by_hour, tally(lines).requests),
        tally(lines.take(i)).bytes <= tally(lines).bytes,
    decreases lines.len(),
{
    if lines.len() > 0 {
        let p = lines.drop_last();
        if i < lines.len() {
            assert(lines.take(i) =~= p.take(i));
            lemma_tally_bounds(p, i);
        } else {
            assert(lines.take(i) =~= lines);
            lemma_tally_bounds(p, 0);
        }
    }
}

/// Tallying a longer log is merging the tallies of its two parts.
pub proof fn lemma_tally_concat(a: Seq<Seq<char>>, b: Seq<Seq<char>>)
    ensures
        tally(a + b) == merge_stats(tally(a), tally(b)),
    decreases b.len(),
{
    if b.len() == 0 {
        assert(a + b =~= a);
        lemma_merge_identity(tally(a));
    } else {
        assert((a + b).drop_last() =~= a + b.drop_last());
        assert((a + b).last() == b.last());
        lemma_tally_concat(a, b.drop_last());
        match spec_parse_line(b.last()) {
            Some(r) => {
                lemma_record_into_merge(tally(a), tally(b.drop_last()), r);
            },
            None => {},
        }
    }
}

/// The statistics of a log split in two are the merge of the statistics of
/// its parts: the rollup may run over any split of the lines.
pub proof fn lemma_analysis_concat(a: Seq<Seq<char>>, b: Seq<Seq<char>>)
    ensures
        analysis(a + b) == merge_stats(analysis(a), analysis(b)),
{
    lemma_tally_concat(a, b);
}

/// The statistics of a log do not depend on the order of its parts.
pub proof fn lemma_analysis_order_free(a: Seq<Seq<char>>, b: Seq<Seq<char>>)
    ensures
        analysis(a + b) == analysis(b + a),
{
    lemma_analysis_concat(a, b);
    lemma_analysis_concat(b, a);
    crate::stats::lemma_merge_commutative(analysis(a), analysis(b));
}

/// The lines of the chunks, chunk after chunk.
pub open spec fn joined(chunks: Seq<Seq<Seq<char>>>) -> Seq<Seq<char>>
    decreases chunks.len(),
{
    if chunks.len() == 0 {
        Seq::empty()
    } else {
        joined(chunks.drop_last()) + chunks.last()
    }
}

/// Statistics merged one after the other, starting from the empty ones.
pub open spec fn merged(parts: Seq<StatsView>) -> StatsView
    decreases parts.len(),
{
    if parts.len() == 0 {
        empty_stats()
    } else {
        merge_stats(merged(parts.drop_last()), parts.last())
    }
}

/// Analysing a log chunk by chunk and merging the chunks' statistics gives
/// the statistics of the whole log; with merging commutative and
/// associative, the chunks may be merged in any grouping and order.
pub proof fn lemma_analysis_chunks(chunks: Seq<Seq<Seq<char>>>)
    ensures
        analysis(joined(chunks)) == merged(chunks.map_values(|c: Seq<Seq<char>>| analysis(c))),
    decreases chunks.len(),
{
    let parts = chunks.map_values(|c: Seq<Seq<char>>| analysis(c));
    if chunks.len() == 0 {
        assert(analysis(Seq::<Seq<char>>::empty()) =~= empty_stats());
    } else {
        let front = chunks.drop_last();
        lemma_analysis_chunks(front);
        assert(parts.drop_last() =~= front.map_values(|c: Seq<Seq<char>>| analysis(c)));
        lemma_analysis_concat(joined(front), chunks.last());
    }
}

proof fn lemma_tally_permutation(a: Seq<Seq<char>>, b: Seq<Seq<char>>)
    requires
        a.to_multiset() == b.to_multiset(),
    ensures
        tally(a) == tally(b),
    decreases a.len(),
{
    broadcast use vstd::seq_lib::group_to_multiset_ensures;

    assert(a.to_multiset().len() == a.len() && b.to_multiset().len() == b.len());
    if a.len() == 0 {
        assert(b.len() == 0);
        assert(a =~= b);
    } else {
        let x = a.last();
        let front = a.drop_last();
        assert(front.push(x) =~= a);
        assert(a.to_multiset().count(x) > 0);
        assert(b.contains(x));
        let i = choose|i: int| 0 <= i < b.len() && b[i] == x;
        let rest = b.remove(i);
        assert(rest.to_multiset() =~= front.to_multiset());
        lemma_tally_permutation(front, rest);
        let l = b.take(i);
        let r = b.skip(i + 1);
        assert(b =~= l + (seq![x] + r));
        assert(rest =~= l + r);
        lemma_tally_concat(l, seq![x] + r);
        lemma_tally_concat(seq![x], r);
        lemma_tally_concat(l, r);
        lemma_tally_concat(front, seq![x]);
        assert(front + seq![x] =~= a);
        crate::stats::lemma_merge_commutative(tally(seq![x]), tally(r));
        crate::stats::lemma_merge_associative(tally(l), tally(r), tally(seq![x]));
    }
}

/// The statistics of a log do not depend on the order of its lines: any
/// rearrangement of the same lines gives the same statistics.
pub proof fn lemma_analysis_permutation(a: Seq<Seq<char>>, b: Seq<Seq<char>>)
    requires
        a.to_multiset() == b.to_multiset(),
    ensures
        analysis(a) == analysis(b),
{
    broadcast use vstd::seq_lib::group_to_multiset_ensures;

    lemma_tally_permutation(a, b);
    assert(a.to_multiset().len() == a.len() && b.to_multiset().len() == b.len());
}

/// Where every line parses, every line is a request.
pub proof fn lemma_all_lines_parse(lines: Seq<Seq<char>>)
    requires
        forall|i: int| 0 <= i < lines.len() ==> spec_parse_line(#[trigger] lines[i]) is Some,
    ensures
        analysis(lines).parsed_lines == lines.len(),
        analysis(lines).total_lines == lines.len(),
    decreases lines.len(),
{
    if lines.len() > 0 {
        let front = lines.drop_last();
        assert forall|i: int| 0 <= i < front.len() implies spec_parse_line(#[trigger] front[i]) is Some by {
            assert(front[i] == lines[i]);
        }
        lemma_all_lines_parse(front);
        assert(spec_parse_line(lines[lines.len() - 1]) is Some);
    }
}

/// The line parses as a request.
pub open spec fn is_request(l: Seq<char>) -> bool {
    spec_parse_line(l) is Some
}

/// The line parses as a request from address `ip`.
pub open spec fn request_from(l: Seq<char>, ip: Seq<char>) -> bool {
    spec_parse_line(l) matches Some(r) && r.0 == ip
}

/// The line parses as a request answered with `status`.
pub open spec fn request_with_status(l: Seq<char>, status: u16) -> bool {
    spec_parse_line(l) matches Some(r) && r.3 == status
}

/// The line parses as a request for `path`.
pub open spec fn request_for(l: Seq<char>, path: Seq<char>) -> bool {
    spec_parse_line(l) matches Some(r) && r.2 == path
}

/// The line parses as a request made in hour `hour`.
pub open spec fn request_at(l: Seq<char>, hour: u8) -> bool {
    spec_parse_line(l) matches Some(r) && r.1 == hour
}

/// Each tally counts lines: the requests are the lines that parse, and the
/// count of an address, status, path or hour is the number of lines that
/// parse with that address, status, path or hour.
pub proof fn lemma_analysis_counts(
    lines: Seq<Seq<char>>,
    ip: Seq<char>,
    status: u16,
    path: Seq<char>,
    hour: u8,
)
    ensures
        analysis(lines).requests == lines.filter(|l: Seq<char>| is_request(l)).len(),
        count(analysis(lines).by_ip, ip) == lines.filter(|l: Seq<char>| request_from(l, ip)).len(),
        count(analysis(lines).by_status, status) == lines.filter(
            |l: Seq<char>| request_with_status(l, status),
        ).len(),
        count(analysis(lines).by_path, path) == lines.filter(|l: Seq<char>| request_for(l, path)).len(),
        count(analysis(lines).by_hour, hour) == lines.filter(|l: Seq<char>| request_at(l, hour)).len(),
    decreases lines.len(),
{
    reveal(Seq::filter);
    if lines.len() == 0 {
    } else {
        let front = lines.drop_last();
        lemma_analysis_counts(front, ip, status, path, hour);
        match spec_parse_line(lines.last()) {
            Some(r) => {
                lemma_record_counts(tally(front), r);
            },
            None => {},
        }
    }
}

/// A log of one line that parses to `(ip, hour, path, status, bytes)` has
/// one line, one request, `bytes` bytes, and each tally holds that one key
/// counted once.
pub proof fn lemma_one_line_analysis(line: Seq<char>)
    requires
        spec_parse_line(line) is Some,
    ensures
        ({
            let r = spec_parse_line(line)->0;
            let a = analysis(seq![line]);
            &&& a.total_lines == 1
            &&& a.parsed_lines == 1
            &&& a.requests == 1
            &&& a.bytes == r.4
            &&& a.by_ip == Map::<Seq<char>, nat>::empty().insert(r.0, 1)
            &&& a.by_status == Map::<u16, nat>::empty().insert(r.3, 1)
            &&& a.by_path == Map::<Seq<char>, nat>::empty().insert(r.2, 1)
            &&& a.by_hour == Map::<u8, nat>::empty().insert(r.1, 1)
        }),
{
    let lines = seq![line];
    assert(lines.drop_last() =~= Seq::<Seq<char>>::empty());
    let r = spec_parse_line(line)->0;
    assert(tally(Seq::<Seq<char>>::empty()) == empty_stats());
    assert(lines.last() == line);
    assert(tally(lines) == record_stats(empty_stats(), r));
    assert(count(Map::<Seq<char>, nat>::empty(), r.0) == 0);
    assert(count(Map::<u16, nat>::empty(), r.3) == 0);
    assert(count(Map::<Seq<char>, nat>::empty(), r.2) == 0);
    assert(count(Map::<u8, nat>::empty(), r.1) == 0);
    let a = analysis(lines);
    assert(a.by_ip =~= Map::<Seq<char>, nat>::empty().insert(r.0, 1));
    assert(a.by_status =~= Map::<u16, nat>::empty().insert(r.3, 1));
    assert(a.by_path =~= Map::<Seq<char>, nat>::empty().insert(r.2, 1));
    assert(a.by_hour =~= Map::<u8, nat>::empty().insert(r.1, 1));
}

/// A line that does not parse changes no statistic but the line count.
pub proof fn lemma_malformed_line_dropped(lines: Seq<Seq<char>>, bad: Seq<char>)
    requires
        spec_parse_line(bad) is None,
    ensures
        tally(lines.push(bad)) == tally(lines),
        analysis(lines.push(bad)) == (StatsView { total_lines: lines.len() + 1, ..analysis(lines) }),
{
    assert(lines.push(bad).drop_last() =~= lines);
}

/// Every line that parses is counted: parsed lines equal requests.
pub proof fn lemma_parsed_lines_are_requests(lines: Seq<Seq<char>>)
    ensures
        analysis(lines).parsed_lines == analysis(lines).requests,
        analysis(lines).total_lines == lines.len(),
        analysis(lines).requests <= analysis(lines).total_lines,
{
    lemma_tally_bounds(lines, 0);
}

/// [`analyze`] where the byte total fits in `u64`, and `None` where it would
/// not.
pub fn try_analyze(lines: &[String]) -> (r: Option<Stats>)
    ensures
        r is None <==> !analysis_fits(line_views(lines@)),
        r matches Some(s) ==> s.wf() && s@ == analysis(line_views(lines@)),
{
    let ghost all = line_views(lines@);
    let mut s = Stats::default();
    let n = lines.len();
    let mut i: usize = 0;
    while i < n
        invariant
            n == lines@.len(),
            all == line_views(lines@),
            i <= n,
            s.wf(),
            s@ == tally(all.take(i as int)),
        decreases n - i,
    {
        let ghost before = all.take(i as int);
        proof {
            assert(all.take(i + 1).drop_last() =~= before);
            assert(all.take(i + 1).last() == lines@[i as int]@);
            lemma_tally_bounds(before, 0);
        }
        match parse_line(lines[i].as_str()) {
            Some((ip, hour, path, status, bytes)) => {
                if s.bytes > u64::MAX - bytes {
                    proof {
                        lemma_tally_bounds(all, i + 1);
                    }
                    return None;
                }
                proof {
                    assert(s@.by_ip.contains_key(ip@) ==> s@.by_ip[ip@] <= s@.requests);
                    assert(s@.by_status.contains_key(status) ==> s@.by_status[status]
                        <= s@.requests);
                    assert(s@.by_path.contains_key(path@) ==> s@.by_path[path@] <= s@.requests);
                    assert(s@.by_hour.contains_key(hour) ==> s@.by_hour[hour] <= s@.requests);
                }
                s.record(ip, hour, path, status, bytes);
            },
            None => {},
        }
        i = i + 1;
    }
    proof {
        assert(all.take(n as int) =~= all);
        lemma_tally_bounds(all, 0);
    }
    s.total_lines = n as u64;
    s.parsed_lines = s.requests;
    Some(s)
}

/// The statistics of a log given as lines: every line is parsed at most
/// once, and `parsed_lines` equals the requests recorded.
pub fn analyze(lines: &[String]) -> (r: Stats)
    requires
        analysis_fits(line_views(lines@)),
    ensures
        r.wf(),
        r@ == analysis(line_views(lines@)),
{
    match try_analyze(lines) {
        Some(s) => s,
        None => {
            proof {
                assert(false);
            }
            Stats::default()
        },
    }
}

/// The statistics of a log given as one text of newline-separated lines.
pub fn analyze_str(input: &str) -> (r: Stats)
    requires
        analysis_fits(text_lines(input@)),
    ensures
        r.wf(),
        r@ == analysis(text_lines(input@)),
{
    let lines = split_lines(input);
    analyze(lines.as_slice())
}

} // verus!
