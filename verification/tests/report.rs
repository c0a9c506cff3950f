use analyzer_core::prompt::{build_prompt, TOP_N};
use analyzer_core::report::top_n;
use analyzer_core::{analyze_str, format_kv_sorted, format_top_n, hex_lower, sorted, KeyCounts, TextCounts};

#[test]
fn sorted_orders_by_key() {
    let mut m: KeyCounts<u16> = KeyCounts::new();
    m.add(404, 2);
    m.add(200, 5);
    m.add(301, 1);
    m.add(200, 1);
    assert_eq!(sorted(&m), vec![(200, 6), (301, 1), (404, 2)]);
    let empty: KeyCounts<u8> = KeyCounts::new();
    assert_eq!(sorted(&empty), vec![]);
}

#[test]
fn top_n_picks_largest_counts_first() {
    let mut m = TextCounts::new();
    for (k, n) in [("a", 1u64), ("b", 5), ("c", 3), ("d", 5), ("e", 2)] {
        m.add(k.to_string(), n);
    }
    let top: Vec<(String, u64)> = top_n(&m, 3);
    assert_eq!(
        top,
        vec![("b".to_string(), 5), ("d".to_string(), 5), ("c".to_string(), 3)]
    );
    assert_eq!(top_n(&m, 0), vec![]);
    assert_eq!(top_n(&m, 10).len(), 5);
    assert_eq!(top_n(&m, 10)[4], ("a".to_string(), 1));
}

#[test]
fn format_kv_sorted_joins_lines_in_key_order() {
    let mut m: KeyCounts<u16> = KeyCounts::new();
    m.add(500, 1);
    m.add(200, 9);
    let text = format_kv_sorted(&m, |k: &u16, v: &u64| format!("{k}={v}"));
    assert_eq!(text, "200=9\n500=1");
    let empty: KeyCounts<u16> = KeyCounts::new();
    assert_eq!(format_kv_sorted(&empty, |k: &u16, v: &u64| format!("{k}={v}")), "");
}

#[test]
fn format_top_n_lists_most_counted() {
    let mut m = TextCounts::new();
    m.add("/x".to_string(), 1);
    m.add("/y".to_string(), 4);
    m.add("/z".to_string(), 2);
    let text = format_top_n(&m, 2, |k: &String, v: &u64| format!("{v} {k}"));
    assert_eq!(text, "4 /y\n2 /z");
}

#[test]
fn hex_lower_writes_two_digits_per_byte() {
    assert_eq!(hex_lower(&[0x00, 0x0f, 0xa0, 0xff, 0x12]), "000fa0ff12");
    assert_eq!(hex_lower(&[]), "");
}

#[test]
fn build_prompt_lays_out_the_stats() {
    let log = "10.0.0.1 - - [03/May/2026:14:00:00 -0700] \"GET /a HTTP/1.1\" 200 100\n\
10.0.0.2 - - [03/May/2026:14:00:01 -0700] \"GET /a HTTP/1.1\" 404 50\n\
10.0.0.1 - - [03/May/2026:05:00:02 -0700] \"GET /b\n\"ignored HTTP/1.1\" 200 200";
    let s = analyze_str(log);
    let p = build_prompt(&s, "66.67");
    let mut expected = String::new();
    expected.push_str("Aggregate stats from a web-server log file (NCSA Common Log Format):\n\n");
    expected.push_str("Lines read:        4\n");
    expected.push_str("Lines parsed:      2  (66.67% parse rate)\n");
    expected.push_str("Total requests:    2\n");
    expected.push_str("Bytes served:      150\n");
    expected.push_str("Unique IPs:        2\n");
    expected.push_str("Distinct paths:    1\n");
    expected.push_str("Status classes:    2\n\n");
    expected.push_str("Status code breakdown:\n  200 \u{2192} 1 requests\n  404 \u{2192} 1 requests\n\n");
    expected.push_str("Top 20 IPs by request count:\n  10.0.0.1 \u{2192} 1\n  10.0.0.2 \u{2192} 1\n\n");
    expected.push_str("Top 20 paths by request count:\n  /a \u{2192} 2\n\n");
    expected.push_str("Hourly request distribution (24h):\n");
    for h in 0..24 {
        let c = if h == 14 { 2 } else { 0 };
        expected.push_str(&format!("  {:02}:00 \u{2192} {}", h, c));
        if h < 23 {
            expected.push('\n');
        }
    }
    expected.push_str("\n\nProduce both the technical and plain summaries now as a single JSON object.");
    assert_eq!(p, expected);
    assert_eq!(TOP_N, 20);
}

#[test]
fn build_prompt_sanitizes_keys() {
    let log = "10.0.0.1 - - [d:01:00] \"GET /\u{7}bell HTTP/1.1\" 200 1";
    let s = analyze_str(log);
    let p = build_prompt(&s, "100.00");
    assert!(p.contains("  /bell\u{2026} \u{2192} 1"));
}

#[test]
fn hex_lower_decodes_back_to_the_bytes() {
    let bytes: Vec<u8> = (0..=255u8).collect();
    let text = hex_lower(&bytes);
    assert_eq!(text.len(), 512);
    assert!(text.chars().all(|c| c.is_ascii_digit() || ('a'..='f').contains(&c)));
    for (i, b) in bytes.iter().enumerate() {
        assert_eq!(u8::from_str_radix(&text[2 * i..2 * i + 2], 16), Ok(*b));
    }
}
