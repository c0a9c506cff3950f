use analyzer_core::{analyze_str, parse_line};

#[test]
fn parses_a_basic_line() {
    let line = r#"10.0.0.1 - - [03/May/2026:14:22:10 -0700] "GET /index.html HTTP/1.1" 200 4567"#;
    let (ip, hour, path, status, bytes) = parse_line(line).unwrap();
    assert_eq!(ip, "10.0.0.1");
    assert_eq!(hour, 14);
    assert_eq!(path, "/index.html");
    assert_eq!(status, 200);
    assert_eq!(bytes, 4567);
}

#[test]
fn analyze_rolls_up() {
    let log = r#"10.0.0.1 - - [03/May/2026:14:00:00 -0700] "GET /a HTTP/1.1" 200 100
10.0.0.2 - - [03/May/2026:14:00:01 -0700] "GET /a HTTP/1.1" 404 50
10.0.0.1 - - [03/May/2026:15:00:02 -0700] "GET /b HTTP/1.1" 200 200"#;
    let s = analyze_str(log);
    assert_eq!(s.total_lines, 3);
    assert_eq!(s.parsed_lines, 3);
    assert_eq!(s.requests, 3);
    assert_eq!(s.bytes, 350);
    assert_eq!(s.by_ip.get("10.0.0.1"), Some(&2));
    assert_eq!(s.by_status.get(&200), Some(&2));
    assert_eq!(s.by_status.get(&404), Some(&1));
    assert_eq!(s.by_path.get("/a"), Some(&2));
    assert_eq!(s.by_hour.get(&14), Some(&2));
}

use analyzer_core::{split_lines, try_analyze, Stats};

fn strings(v: &[&str]) -> Vec<String> {
    v.iter().map(|s| s.to_string()).collect()
}

#[test]
fn parse_line_reads_dash_size_as_zero() {
    let line = r#"1.2.3.4 - frank [10/Oct/2025:13:55:36 -0700] "GET /a.gif HTTP/1.0" 304 -"#;
    assert_eq!(
        parse_line(line),
        Some(("1.2.3.4".to_string(), 13, "/a.gif".to_string(), 304, 0))
    );
}

#[test]
fn parse_line_size_forms() {
    let base = r#"h - - [d:07:00] "GET / HTTP/1.1" 200 "#;
    assert_eq!(parse_line(&format!("{base}+12")).unwrap().4, 12);
    assert_eq!(parse_line(&format!("{base}18446744073709551615")).unwrap().4, u64::MAX);
    assert_eq!(parse_line(&format!("{base}18446744073709551616")).unwrap().4, 0);
    assert_eq!(parse_line(&format!("{base}12ab")).unwrap().4, 0);
    assert_eq!(parse_line(&format!("{base}12 trailing")).unwrap().4, 12);
}

#[test]
fn parse_line_hour_forms() {
    let tail = r#"] "GET / HTTP/1.1" 200 1"#;
    assert_eq!(parse_line(&format!("h - - [d:+7:00{tail}")).unwrap().1, 7);
    assert_eq!(parse_line(&format!("h - - [d:255{tail}")).unwrap().1, 255);
    assert_eq!(parse_line(&format!("h - - [d:256:00{tail}")), None);
    assert_eq!(parse_line(&format!("h - - [no colon{tail}")), None);
    assert_eq!(parse_line(&format!("h - - [d::00{tail}")), None);
}

#[test]
fn parse_line_rejects_malformed() {
    assert_eq!(parse_line(""), None);
    assert_eq!(parse_line("garbage"), None);
    // status must be three ASCII digits
    assert_eq!(parse_line(r#"h - - [d:01:00] "GET / HTTP/1.1" 20 1"#), None);
    assert_eq!(parse_line(r#"h - - [d:01:00] "GET / HTTP/1.1" 2000 1"#), None);
    assert_eq!(parse_line("h - - [d:01:00] \"GET / HTTP/1.1\" 2\u{0663}0 1"), None);
    // fields are separated by single spaces
    assert_eq!(parse_line(r#"h  - - [d:01:00] "GET / HTTP/1.1" 200 1"#), None);
    // a size field is required
    assert_eq!(parse_line(r#"h - - [d:01:00] "GET / HTTP/1.1" 200 "#), None);
    // tab is whitespace, so it ends a field
    assert_eq!(parse_line("h\t- - [d:01:00] \"GET / HTTP/1.1\" 200 1"), None);
}

#[test]
fn parse_line_accepts_odd_but_valid_fields() {
    // the request may carry no protocol, and the timestamp may hold spaces
    let r = parse_line(r#"::1 id user [01/Jan/2026:09:00:00 +0000] "DELETE /x/y?z=1 " 500 7"#);
    assert_eq!(r, Some(("::1".to_string(), 9, "/x/y?z=1".to_string(), 500, 7)));
}

#[test]
fn analyze_counts_lines_and_skips_malformed() {
    let log = "bad line\r\n1.1.1.1 - - [d:05:00] \"GET /p HTTP/1.1\" 200 10\r\n\n";
    let s = analyze_str(log);
    assert_eq!(s.total_lines, 3);
    assert_eq!(s.parsed_lines, 1);
    assert_eq!(s.requests, 1);
    assert_eq!(s.bytes, 10);
    assert_eq!(s.by_hour.get(&5), Some(&1));
    assert_eq!(s.by_ip.get("1.1.1.1"), Some(&1));
    assert_eq!(s.by_ip.get("2.2.2.2"), None);
}

#[test]
fn analyze_empty_input() {
    let s = analyze_str("");
    assert_eq!(s.total_lines, 0);
    assert_eq!(s.requests, 0);
    assert_eq!(s.by_ip.len(), 0);
}

#[test]
fn split_lines_follows_str_lines() {
    for text in ["", "a", "a\n", "a\nb", "a\r\nb\r\n", "\n\n", "a\r", "a\rb\n", "x\r\r\n"] {
        let expected: Vec<String> = text.lines().map(|s| s.to_string()).collect();
        assert_eq!(split_lines(text), expected, "text {:?}", text);
    }
}

#[test]
fn try_analyze_reports_byte_overflow() {
    let big = "h - - [d:01:00] \"GET / HTTP/1.1\" 200 18446744073709551615";
    let one = "h - - [d:01:00] \"GET / HTTP/1.1\" 200 1";
    assert!(try_analyze(&strings(&[big])).is_some());
    assert!(try_analyze(&strings(&[big, one])).is_none());
    assert!(try_analyze(&strings(&[big, "junk"])).is_some());
}

fn sample_stats(order: &[usize]) -> Stats {
    let recs = [
        ("1.1.1.1", 12u8, "/a", 200u16, 100u64),
        ("2.2.2.2", 13, "/b", 404, 50),
        ("1.1.1.1", 13, "/a", 200, 7),
    ];
    let mut s = Stats::default();
    for &i in order {
        let r = recs[i];
        s.record(r.0.to_string(), r.1, r.2.to_string(), r.3, r.4);
    }
    s
}

fn same(a: &Stats, b: &Stats) -> bool {
    let mut ia = a.by_ip.entries();
    let mut ib = b.by_ip.entries();
    ia.sort();
    ib.sort();
    let mut pa = a.by_path.entries();
    let mut pb = b.by_path.entries();
    pa.sort();
    pb.sort();
    a.total_lines == b.total_lines
        && a.parsed_lines == b.parsed_lines
        && a.requests == b.requests
        && a.bytes == b.bytes
        && ia == ib
        && pa == pb
        && analyzer_core::sorted(&a.by_status) == analyzer_core::sorted(&b.by_status)
        && analyzer_core::sorted(&a.by_hour) == analyzer_core::sorted(&b.by_hour)
}

#[test]
fn record_order_does_not_matter() {
    assert!(same(&sample_stats(&[0, 1, 2]), &sample_stats(&[2, 1, 0])));
    assert!(same(&sample_stats(&[0, 1, 2]), &sample_stats(&[1, 0, 2])));
}

#[test]
fn merge_is_commutative_and_matches_recording() {
    let ab = sample_stats(&[0]).merge(sample_stats(&[1, 2]));
    let ba = sample_stats(&[1, 2]).merge(sample_stats(&[0]));
    let all = sample_stats(&[0, 1, 2]);
    assert!(same(&ab, &ba));
    assert!(same(&ab, &all));
    assert_eq!(ab.by_ip.get("1.1.1.1"), Some(&2));
    assert_eq!(ab.bytes, 157);
    let with_empty = all.merge(Stats::default());
    assert!(same(&with_empty, &sample_stats(&[0, 1, 2])));
}

#[test]
fn merge_of_split_log_equals_whole() {
    let lines = strings(&[
        "1.1.1.1 - - [d:01:00] \"GET /a HTTP/1.1\" 200 1",
        "junk",
        "2.2.2.2 - - [d:02:00] \"GET /b HTTP/1.1\" 404 2",
        "1.1.1.1 - - [d:02:00] \"GET /a HTTP/1.1\" 200 3",
    ]);
    let whole = try_analyze(&lines).unwrap();
    for cut in 0..=lines.len() {
        let left = try_analyze(&lines[..cut]).unwrap();
        let right = try_analyze(&lines[cut..]).unwrap();
        let merged = left.try_merge(right).unwrap();
        assert!(same(&merged, &whole), "cut at {cut}");
    }
    assert_eq!(whole.total_lines, 4);
    assert_eq!(whole.parsed_lines, 3);
}

#[test]
fn try_merge_refuses_overflow() {
    let mut a = Stats::default();
    a.bytes = u64::MAX;
    let mut b = Stats::default();
    b.bytes = 1;
    assert!(a.try_merge(b).is_none());
    let mut c = Stats::default();
    c.by_ip.add("x".to_string(), u64::MAX);
    let mut d = Stats::default();
    d.by_ip.add("x".to_string(), 1);
    assert!(!c.can_merge(&d));
    let mut e = Stats::default();
    e.by_ip.add("y".to_string(), 1);
    assert!(c.can_merge(&e));
}

#[test]
fn chunked_analysis_merges_to_whole_in_any_order() {
    let lines = strings(&[
        "1.1.1.1 - - [d:01:00] \"GET /a HTTP/1.1\" 200 1",
        "junk",
        "2.2.2.2 - - [d:02:00] \"GET /b HTTP/1.1\" 404 2",
        "1.1.1.1 - - [d:02:00] \"GET /a HTTP/1.1\" 200 3",
        "3.3.3.3 - - [d:23:59] \"POST /c HTTP/1.1\" 500 -",
    ]);
    let whole = try_analyze(&lines).unwrap();
    for size in 1..=lines.len() {
        let mut forward = Stats::default();
        for c in lines.chunks(size) {
            forward = forward.try_merge(try_analyze(c).unwrap()).unwrap();
        }
        let mut backward = Stats::default();
        for c in lines.chunks(size).rev() {
            backward = backward.try_merge(try_analyze(c).unwrap()).unwrap();
        }
        assert!(same(&forward, &whole), "chunks of {size}");
        assert!(same(&backward, &whole), "chunks of {size}, reversed");
    }
}

#[test]
fn duplicate_copies_the_statistics() {
    let a = sample_stats(&[0, 1, 2]);
    let b = a.duplicate();
    assert!(same(&a, &b));
    assert_eq!(b.by_ip.get("1.1.1.1"), Some(&2));
    assert_eq!(b.bytes, 157);
}

#[test]
fn analysis_ignores_line_order() {
    let lines = strings(&[
        "1.1.1.1 - - [d:01:00] \"GET /a HTTP/1.1\" 200 1",
        "junk",
        "2.2.2.2 - - [d:02:00] \"GET /b HTTP/1.1\" 404 2",
        "1.1.1.1 - - [d:02:00] \"GET /a HTTP/1.1\" 200 3",
    ]);
    let whole = try_analyze(&lines).unwrap();
    let shuffled = vec![lines[2].clone(), lines[0].clone(), lines[3].clone(), lines[1].clone()];
    assert!(same(&try_analyze(&shuffled).unwrap(), &whole));
    let reversed: Vec<String> = lines.iter().rev().cloned().collect();
    assert!(same(&try_analyze(&reversed).unwrap(), &whole));
}

#[test]
fn try_add_refuses_overflow_and_leaves_counter() {
    let mut s = Stats::default();
    assert!(s.by_ip.try_add("x".to_string(), u64::MAX));
    assert!(!s.by_ip.try_add("x".to_string(), 1));
    assert_eq!(s.by_ip.get("x"), Some(&u64::MAX));
    assert!(s.by_status.try_add(200, 3));
    assert!(s.by_status.try_add(200, 4));
    assert_eq!(s.by_status.get(&200), Some(&7));
    assert!(!s.by_status.try_add(200, u64::MAX));
}
