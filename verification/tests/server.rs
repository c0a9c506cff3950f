use analyzer_core::cache::{after_disk, after_lookup, after_memory, after_upstream, MemoryRead, SummaryStep};
use analyzer_core::AiError;
use analyzer_core::cache::{cache_file_name, cache_temp_name, MemoryCache, MEM_CACHE_CAP};
use analyzer_core::digest::key_from_canonical;
use analyzer_core::server::{
    choose_sample, client_address, cors_origins, first_forwarded, parse_rate, trim, usable_origins, CorsOrigins, Sample,
};
use analyzer_core::synth::LogGenerator;
use analyzer_core::{analyze_str, parse_line, AiSummary};

#[test]
fn parse_rate_falls_back_to_default() {
    assert_eq!(parse_rate(None, 5), 5);
    assert_eq!(parse_rate(Some("12"), 5), 12);
    assert_eq!(parse_rate(Some("+12"), 5), 12);
    assert_eq!(parse_rate(Some("0"), 5), 5);
    assert_eq!(parse_rate(Some("-3"), 5), 5);
    assert_eq!(parse_rate(Some(" 3"), 5), 5);
    assert_eq!(parse_rate(Some("4294967295"), 5), 4294967295);
    assert_eq!(parse_rate(Some("4294967296"), 5), 5);
    assert_eq!(parse_rate(Some(""), 5), 5);
}

#[test]
fn cors_origins_reads_the_allow_list() {
    assert!(matches!(cors_origins("*"), CorsOrigins::Any));
    assert!(matches!(cors_origins("  * "), CorsOrigins::Any));
    match cors_origins("http://a.test, http://b.test,, ,") {
        CorsOrigins::List(v) => assert_eq!(v, vec!["http://a.test", "http://b.test"]),
        CorsOrigins::Any => panic!(),
    }
    match cors_origins("") {
        CorsOrigins::List(v) => assert!(v.is_empty()),
        CorsOrigins::Any => panic!(),
    }
    match cors_origins("*,x") {
        CorsOrigins::List(v) => assert_eq!(v, vec!["*", "x"]),
        CorsOrigins::Any => panic!(),
    }
}

#[test]
fn first_forwarded_takes_the_leftmost_entry() {
    assert_eq!(first_forwarded("9.9.9.9, 10.0.0.1"), "9.9.9.9");
    assert_eq!(first_forwarded("  9.9.9.9 "), "9.9.9.9");
    assert_eq!(first_forwarded(""), "");
    assert_eq!(first_forwarded(",1.1.1.1"), "");
}

#[test]
fn trim_matches_str_trim() {
    for s in ["", "  ", " a b ", "\u{3000}x\u{85}", "\t\ny"] {
        assert_eq!(trim(s), s.trim());
    }
}

#[test]
fn samples_by_name() {
    assert!(matches!(choose_sample(None), Sample::Default));
    assert!(matches!(choose_sample(Some("heavy")), Sample::Heavy));
    assert!(matches!(choose_sample(Some("attack")), Sample::Attack));
    assert!(matches!(choose_sample(Some("sparse")), Sample::Sparse));
    assert!(matches!(choose_sample(Some("Heavy")), Sample::Default));
    assert_eq!(Sample::Heavy.source(), "heavy.log \u{b7} 5,000 lines \u{b7} varied traffic");
    assert_eq!(Sample::Default.file_name(), "sample.log");
}

#[test]
fn cache_keys_are_sha256_prefixes() {
    assert_eq!(key_from_canonical(b"abc"), "ba7816bf8f01cfea414140de5dae2223");
    assert_eq!(key_from_canonical(b""), "e3b0c44298fc1c149afbf4c8996fb924");
    assert_ne!(key_from_canonical(b"model-a"), key_from_canonical(b"model-b"));
    assert_eq!(key_from_canonical(b"same"), key_from_canonical(b"same"));
}

fn summary(tag: &str) -> AiSummary {
    AiSummary {
        technical: tag.to_string(),
        plain: String::new(),
        input_tokens: 1,
        output_tokens: 2,
        provider: "groq".to_string(),
        model: "m".to_string(),
        cached: false,
    }
}

#[test]
fn memory_cache_returns_what_was_stored() {
    let mut c = MemoryCache::new();
    assert!(c.lookup("k").is_none());
    c.store("k".to_string(), summary("one"));
    assert_eq!(c.lookup("k").unwrap().technical, "one");
    c.store("k".to_string(), summary("two"));
    assert_eq!(c.lookup("k").unwrap().technical, "two");
}

#[test]
fn memory_cache_evicts_least_recently_used() {
    let mut c = MemoryCache::new();
    for i in 0..MEM_CACHE_CAP {
        c.store(format!("k{i}"), summary("x"));
    }
    assert!(c.lookup("k0").is_some());
    c.store("new".to_string(), summary("y"));
    assert!(c.lookup("k0").is_some());
    assert!(c.lookup("k1").is_none());
    assert!(c.lookup("new").is_some());
}

#[test]
fn cache_file_names() {
    assert_eq!(cache_file_name("ab12"), "ab12.json");
    assert_eq!(cache_temp_name("ab12"), ".ab12.tmp");
}

#[test]
fn generator_is_deterministic_and_parses() {
    let mut g = LogGenerator::new();
    let first = g.next_line();
    assert_eq!(
        first,
        "214.32.239.82 - - [18/Jan/2026:12:55:02 -0700] \"POST /checkout HTTP/1.1\" 404 47614 \"-\" \"Mozilla/5.0 (Macintosh; Intel Mac OS X 10_15_7) AppleWebKit/537.36\"\n"
    );
    let second = g.next_line();
    assert_eq!(
        second,
        "29.155.142.69 - - [13/Jan/2026:23:46:21 -0700] \"HEAD /api/users HTTP/1.1\" 301 32833 \"-\" \"Googlebot/2.1 (+http://www.google.com/bot.html)\"\n"
    );
    let mut again = LogGenerator::new();
    assert_eq!(again.next_line(), first);
    for _ in 0..200 {
        let line = g.next_line();
        assert!(parse_line(line.trim_end_matches('\n')).is_some(), "{line}");
    }
    assert_eq!(
        parse_line(first.trim_end_matches('\n')),
        Some(("214.32.239.82".to_string(), 12, "/checkout".to_string(), 404, 47614))
    );
}

#[test]
fn generator_output_for_fewer_lines_is_a_prefix() {
    let mut long = String::new();
    let mut g = LogGenerator::new();
    for _ in 0..50 {
        long.push_str(&g.next_line());
    }
    let mut short = String::new();
    let mut h = LogGenerator::new();
    for _ in 0..20 {
        short.push_str(&h.next_line());
    }
    assert!(long.starts_with(&short));
    assert!(long.len() > short.len());
}

fn cache_after_others(others: usize) -> MemoryCache {
    let mut c = MemoryCache::new();
    for i in 0..MEM_CACHE_CAP {
        c.store(format!("old{i}"), summary("x"));
    }
    c.store("k".to_string(), summary("kept"));
    for i in 0..others {
        c.store(format!("new{i}"), summary("y"));
    }
    c
}

#[test]
fn memory_cache_keeps_a_summary_while_fewer_than_capacity_others_arrive() {
    let mut c = cache_after_others(MEM_CACHE_CAP - 1);
    assert_eq!(c.lookup("k").unwrap().technical, "kept");
    let mut d = cache_after_others(MEM_CACHE_CAP);
    assert!(d.lookup("k").is_none());
}

#[test]
fn usable_origins_drops_invalid_header_values() {
    let list = vec![
        "http://a.test".to_string(),
        "bad\u{7f}".to_string(),
        "tab\there".to_string(),
        "ctl\u{1}".to_string(),
        "http://\u{e9}.test".to_string(),
    ];
    assert_eq!(
        usable_origins(&list),
        vec!["http://a.test".to_string(), "tab\there".to_string(), "http://\u{e9}.test".to_string()]
    );
}

#[test]
fn client_address_prefers_forwarded_only_when_trusted() {
    assert_eq!(client_address(false, Some("9.9.9.9"), "1.2.3.4"), "1.2.3.4");
    assert_eq!(client_address(true, Some("9.9.9.9"), "10.0.0.1"), "9.9.9.9");
    assert_eq!(client_address(true, None, "10.0.0.1"), "10.0.0.1");
    assert_eq!(client_address(true, Some(first_forwarded("9.9.9.9, 10.0.0.1")), "10.0.0.1".to_string()), "9.9.9.9");
}

#[test]
fn summary_steps_answer_hits_and_ask_on_misses() {
    match after_lookup(Some(summary("hit"))) {
        SummaryStep::Reply(s) => {
            assert!(s.cached);
            assert_eq!(s.technical, "hit");
        }
        SummaryStep::AskUpstream => panic!("a hit must be answered"),
    }
    assert!(matches!(after_lookup(None), SummaryStep::AskUpstream));

    let (stored, answer) = after_upstream(Ok(summary("fresh")));
    assert_eq!(stored.unwrap().technical, "fresh");
    let answer = answer.ok().unwrap();
    assert_eq!(answer.technical, "fresh");
    assert!(!answer.cached);
    let (stored, answer) = after_upstream(Err(AiError::NoApiKey));
    assert!(stored.is_none());
    assert_eq!(answer.err().unwrap().0, 503);
    let (_, answer) = after_upstream(Err(AiError::Api { status: 429, body: "slow".to_string() }));
    assert_eq!(answer.err().unwrap(), (502, "Groq API 429: slow".to_string()));

    assert!(matches!(after_memory(None), MemoryRead::ReadDisk));
    assert!(matches!(after_memory(Some(summary("m"))), MemoryRead::Found(s) if s.technical == "m"));
    let (to_memory, found) = after_disk(Some(summary("d")));
    assert_eq!(to_memory.unwrap().technical, "d");
    assert_eq!(found.unwrap().technical, "d");
    let (to_memory, found) = after_disk(None);
    assert!(to_memory.is_none() && found.is_none());
}

#[test]
fn generated_log_reads_back_with_every_line_parsed() {
    let mut g = LogGenerator::new();
    let mut log = String::new();
    for _ in 0..300 {
        log.push_str(&g.next_line());
    }
    let stats = analyze_str(&log);
    assert_eq!(stats.total_lines, 300);
    assert_eq!(stats.parsed_lines, 300);
    assert_eq!(stats.requests, 300);
}
