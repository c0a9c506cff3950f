//! Cache keys: a SHA-256 digest of a canonical encoding, in lower-case hex.
use vstd::prelude::*;
use serde_json::Value;
use sha2::Digest;
use crate::analyze::{analysis, lemma_analysis_order_free};
use crate::counts::{CountKey, KeyCounts, TextCounts};
use crate::json::{
    json_entries, json_map_insert, json_map_new, json_number, json_object, json_string, json_text,
    json_to_vec, json_value, Json,
};
use crate::parse::RecordView;
use crate::stats::{lemma_record_commutes, record_stats, Stats, StatsView};
use crate::text::{decimal, decimal_of, lemma_decimal_injective, push_char, push_str};

verus! {

/// How many digest bytes a cache key keeps.
pub const KEY_PREFIX_LEN: usize = 16;

/// The SHA-256 digest of `data` (FIPS 180-4), as `sha2::Sha256` computes it.
pub uninterp spec fn sha256(data: Seq<u8>) -> Seq<u8>;

/// `sha2::Sha256::digest`: trusted to return the SHA-256 digest of its
/// input, which is 32 bytes long. Which bytes those are is only named
/// (`sha256`), not spelled out.
#[verifier::external_body]
fn sha256_digest(data: &[u8]) -> (r: Vec<u8>)
    ensures
        r@ == sha256(data@),
        r@.len() == 32,
{
    sha2::Sha256::digest(data).to_vec()
}

/// The lower-case hex digit of a value below 16.
pub open spec fn hex_digit(d: nat) -> char {
    if d < 10 {
        ((d + 48) as u8) as char
    } else {
        ((d + 87) as u8) as char
    }
}

/// Each byte as two lower-case hex digits, high nibble first.
pub open spec fn hex_of(bytes: Seq<u8>) -> Seq<char>
    decreases bytes.len(),
{
    if bytes.len() == 0 {
        Seq::empty()
    } else {
        hex_of(bytes.drop_last()).push(hex_digit(bytes.last() as nat / 16)).push(
            hex_digit(bytes.last() as nat % 16),
        )
    }
}

fn hex_char(d: u8) -> (c: char)
    requires
        d < 16,
    ensures
        c == hex_digit(d as nat),
{
    if d < 10 {
        (d + 48u8) as char
    } else {
        (d + 87u8) as char
    }
}

/// A lower-case hex digit.
pub open spec fn is_hex_digit(c: char) -> bool {
    ('0' <= c && c <= '9') || ('a' <= c && c <= 'f')
}

/// The value of a lower-case hex digit.
pub open spec fn hex_value(c: char) -> nat {
    if c <= '9' {
        ((c as int) - ('0' as int)) as nat
    } else {
        ((c as int) - ('a' as int) + 10) as nat
    }
}

/// Every character of `s` is a lower-case hex digit.
pub open spec fn all_hex_digits(s: Seq<char>) -> bool {
    forall|j: int| 0 <= j < s.len() ==> is_hex_digit(#[trigger] s[j])
}

/// A value below 16 is written as one lower-case hex digit that reads back
/// as it.
pub proof fn lemma_hex_digit(d: nat)
    requires
        d < 16,
    ensures
        is_hex_digit(hex_digit(d)),
        hex_value(hex_digit(d)) == d,
{
    if d < 10 {
        let x: u8 = (d + 48) as u8;
        assert(x as int == d + 48);
        assert(hex_digit(d) as int == x as int);
    } else {
        let x: u8 = (d + 87) as u8;
        assert(x as int == d + 87);
        assert(hex_digit(d) as int == x as int);
    }
}

/// The hex text of bytes has two digits per byte, the high nibble first,
/// and reads back as the bytes.
pub proof fn lemma_hex_of(bytes: Seq<u8>)
    ensures
        hex_of(bytes).len() == 2 * bytes.len(),
        all_hex_digits(hex_of(bytes)),
        forall|i: int|
            0 <= i < bytes.len() ==> #[trigger] hex_of(bytes)[2 * i] == hex_digit(bytes[i] as nat / 16)
                && hex_of(bytes)[2 * i + 1] == hex_digit(bytes[i] as nat % 16),
        forall|i: int|
            0 <= i < bytes.len() ==> hex_value(#[trigger] hex_of(bytes)[2 * i]) * 16 + hex_value(
                hex_of(bytes)[2 * i + 1],
            ) == bytes[i],
    decreases bytes.len(),
{
    if bytes.len() > 0 {
        let front = bytes.drop_last();
        lemma_hex_of(front);
        let b = bytes.last();
        lemma_hex_digit(b as nat / 16);
        lemma_hex_digit(b as nat % 16);
        let h = hex_of(bytes);
        let hf = hex_of(front);
        assert(h == hf.push(hex_digit(b as nat / 16)).push(hex_digit(b as nat % 16)));
        assert forall|i: int| 0 <= i < bytes.len() implies #[trigger] h[2 * i] == hex_digit(
            bytes[i] as nat / 16,
        ) && h[2 * i + 1] == hex_digit(bytes[i] as nat % 16) by {
            if i < front.len() {
                assert(front[i] == bytes[i]);
                assert(h[2 * i] == hf[2 * i]);
                assert(h[2 * i + 1] == hf[2 * i + 1]);
            }
        }
        assert forall|i: int| 0 <= i < bytes.len() implies hex_value(#[trigger] h[2 * i]) * 16
            + hex_value(h[2 * i + 1]) == bytes[i] by {
            assert(h[2 * i] == hex_digit(bytes[i] as nat / 16));
            lemma_hex_digit(bytes[i] as nat / 16);
            lemma_hex_digit(bytes[i] as nat % 16);
        }
        assert forall|j: int| 0 <= j < h.len() implies is_hex_digit(#[trigger] h[j]) by {
            if j < hf.len() {
                assert(h[j] == hf[j]);
            }
        }
    }
}

/// Encodes bytes as lower-case hex, two digits per byte, the high nibble
/// first; decoding each pair of digits gives the byte back.
pub fn hex_lower(bytes: &[u8]) -> (r: String)
    ensures
        r@ == hex_of(bytes@),
        r@.len() == 2 * bytes@.len(),
        all_hex_digits(r@),
        forall|i: int|
            0 <= i < bytes@.len() ==> hex_value(#[trigger] r@[2 * i]) * 16 + hex_value(r@[2 * i + 1])
                == bytes@[i],
{
    proof {
        lemma_hex_of(bytes@);
    }
    let mut out = String::new();
    let mut i: usize = 0;
    while i < bytes.len()
        invariant
            i <= bytes@.len(),
            out@ == hex_of(bytes@.take(i as int)),
            out@.len() == 2 * i,
        decreases bytes.len() - i,
    {
        let b = bytes[i];
        push_char(&mut out, hex_char(b / 16));
        push_char(&mut out, hex_char(b % 16));
        proof {
            assert(bytes@.take(i + 1).drop_last() =~= bytes@.take(i as int));
            assert(bytes@.take(i + 1).last() == b);
        }
        i = i + 1;
    }
    assert(bytes@.take(bytes@.len() as int) =~= bytes@);
    out
}

/// The cache key of a canonical encoding: the first [`KEY_PREFIX_LEN`]
/// bytes of its SHA-256 digest in lower-case hex (32 characters). Equal
/// encodings give equal keys.
pub fn key_from_canonical(canonical: &[u8]) -> (r: String)
    ensures
        r@ == hex_of(sha256(canonical@).take(KEY_PREFIX_LEN as int)),
        r@.len() == 2 * KEY_PREFIX_LEN,
        all_hex_digits(r@),
{
    let digest = sha256_digest(canonical);
    let mut prefix: Vec<u8> = Vec::new();
    let mut i: usize = 0;
    while i < KEY_PREFIX_LEN
        invariant
            digest@.len() == 32,
            i <= KEY_PREFIX_LEN,
            prefix@ == digest@.take(i as int),
        decreases KEY_PREFIX_LEN - i,
    {
        prefix.push(digest[i]);
        assert(digest@.take(i + 1) =~= digest@.take(i as int).push(digest@[i as int]));
        i = i + 1;
    }
    hex_lower(prefix.as_slice())
}

/// A tally by text as a JSON object: each key mapped to its count.
pub open spec fn text_counts_json(m: Map<Seq<char>, nat>) -> Json {
    Json::Obj(m.map_values(|c: nat| Json::Num(c)))
}

/// The text of a numeric key in a JSON object: its decimal digits (object
/// keys are strings).
pub open spec fn key_text<K: CountKey>(k: K) -> Seq<char> {
    decimal_of(k.rank() as nat)
}

/// The key of `m` written as `t`, if there is one.
pub open spec fn key_written<K: CountKey>(m: Map<K, nat>, t: Seq<char>) -> K {
    choose|k: K| m.contains_key(k) && key_text(k) == t
}

/// A tally by number as a JSON object: each key, in decimal, mapped to its
/// count.
pub open spec fn keyed_counts_json<K: CountKey>(m: Map<K, nat>) -> Json {
    Json::Obj(
        Map::new(
            |t: Seq<char>| exists|k: K| m.contains_key(k) && key_text(k) == t,
            |t: Seq<char>| Json::Num(m[key_written(m, t)]),
        ),
    )
}

/// The canonical document of statistics and a model name: one object with
/// the model, the four totals and the four tallies.
pub open spec fn stats_json(s: StatsView, model: Seq<char>) -> Json {
    Json::Obj(
        Map::empty().insert("model"@, Json::Str(model)).insert(
            "total_lines"@,
            Json::Num(s.total_lines),
        ).insert("parsed_lines"@, Json::Num(s.parsed_lines)).insert(
            "requests"@,
            Json::Num(s.requests),
        ).insert("bytes"@, Json::Num(s.bytes)).insert(
            "by_status"@,
            keyed_counts_json(s.by_status),
        ).insert("by_ip"@, text_counts_json(s.by_ip)).insert(
            "by_path"@,
            text_counts_json(s.by_path),
        ).insert("by_hour"@, keyed_counts_json(s.by_hour)),
    )
}

/// The cache key of statistics and a model: the first [`KEY_PREFIX_LEN`]
/// bytes of the SHA-256 digest of the canonical document's JSON text, in
/// lower-case hex.
pub open spec fn stats_key(s: StatsView, model: Seq<char>) -> Seq<char> {
    hex_of(sha256(json_text(stats_json(s, model))).take(KEY_PREFIX_LEN as int))
}

fn owned(s: &str) -> (r: String)
    ensures
        r@ == s@,
{
    let mut r = String::new();
    push_str(&mut r, s);
    assert(r@ =~= s@);
    r
}

fn text_counts_value(c: &TextCounts) -> (r: Value)
    requires
        c.wf(),
    ensures
        json_value(r) == text_counts_json(c@),
{
    let entries = c.entries();
    proof {
        c.lemma_key_order();
    }
    let mut m = json_map_new();
    let mut i: usize = 0;
    while i < entries.len()
        invariant
            i <= entries@.len(),
            forall|j: int|
                0 <= j < entries@.len() ==> c@.contains_key(#[trigger] entries@[j].0@)
                    && c@[entries@[j].0@] == entries@[j].1 as nat,
            forall|t: Seq<char>|
                #[trigger] json_entries(m).contains_key(t) <==> exists|j: int|
                    0 <= j < i && entries@[j].0@ == t,
            forall|t: Seq<char>|
                #[trigger] json_entries(m).contains_key(t) ==> json_entries(m)[t] == Json::Num(
                    c@[t],
                ),
        decreases entries@.len() - i,
    {
        let k = entries[i].0.clone();
        let n = entries[i].1;
        proof {
            assert(c@.contains_key(entries@[i as int].0@));
        }
        json_map_insert(&mut m, k, json_number(n));
        proof {
            assert forall|t: Seq<char>|
                #[trigger] json_entries(m).contains_key(t) implies exists|j: int|
                    0 <= j < i + 1 && entries@[j].0@ == t by {
                if t != entries@[i as int].0@ {
                    let j = choose|j: int| 0 <= j < i && entries@[j].0@ == t;
                }
            }
        }
        i = i + 1;
    }
    proof {
        assert forall|t: Seq<char>| c@.contains_key(t) implies json_entries(m).contains_key(t) by {
            assert(c.key_order().contains(t));
            let x = choose|x: int| 0 <= x < c.key_order().len() && c.key_order()[x] == t;
            assert(entries@.map_values(|e: (String, u64)| e.0@)[x] == t);
        }
        assert(json_entries(m) =~= c@.map_values(|n: nat| Json::Num(n)));
    }
    json_object(m)
}

fn keyed_counts_value<K: CountKey>(c: &KeyCounts<K>) -> (r: Value)
    requires
        c.wf(),
    ensures
        json_value(r) == keyed_counts_json(c@),
{
    let entries = c.entries();
    proof {
        c.lemma_key_order();
    }
    let mut m = json_map_new();
    let mut i: usize = 0;
    while i < entries.len()
        invariant
            i <= entries@.len(),
            forall|j: int|
                0 <= j < entries@.len() ==> c@.contains_key(#[trigger] entries@[j].0)
                    && c@[entries@[j].0] == entries@[j].1 as nat,
            forall|t: Seq<char>|
                #[trigger] json_entries(m).contains_key(t) ==> exists|j: int|
                    0 <= j < i && key_text(entries@[j].0) == t && json_entries(m)[t] == Json::Num(
                        c@[entries@[j].0],
                    ),
            forall|j: int| 0 <= j < i ==> json_entries(m).contains_key(key_text(#[trigger] entries@[j].0)),
        decreases entries@.len() - i,
    {
        let k = entries[i].0;
        let n = entries[i].1;
        let kr = k.key_rank();
        let text = decimal(kr as u64);
        json_map_insert(&mut m, text, json_number(n));
        proof {
            assert(key_text(k) == text@);
            assert forall|t: Seq<char>|
                #[trigger] json_entries(m).contains_key(t) implies exists|j: int|
                    0 <= j < i + 1 && key_text(entries@[j].0) == t && json_entries(m)[t]
                        == Json::Num(c@[entries@[j].0]) by {
                if t == text@ {
                    assert(key_text(entries@[i as int].0) == t);
                }
            }
        }
        i = i + 1;
    }
    proof {
        let spec_map = Map::new(
            |t: Seq<char>| exists|k: K| c@.contains_key(k) && key_text(k) == t,
            |t: Seq<char>| Json::Num(c@[key_written(c@, t)]),
        );
        assert forall|t: Seq<char>| json_entries(m).contains_key(t) <==> spec_map.contains_key(t) by {
            if json_entries(m).contains_key(t) {
                let j = choose|j: int|
                    0 <= j < i && key_text(entries@[j].0) == t && json_entries(m)[t] == Json::Num(
                        c@[entries@[j].0],
                    );
                assert(c@.contains_key(entries@[j].0));
            }
            if spec_map.contains_key(t) {
                let k = choose|k: K| c@.contains_key(k) && key_text(k) == t;
                assert(c.key_order().contains(k));
                let x = choose|x: int| 0 <= x < c.key_order().len() && c.key_order()[x] == k;
                assert(entries@.map_values(|e: (K, u64)| e.0)[x] == k);
                assert(json_entries(m).contains_key(key_text(entries@[x].0)));
            }
        }
        assert forall|t: Seq<char>| #[trigger] json_entries(m).contains_key(t) implies json_entries(
            m,
        )[t] == spec_map[t] by {
            let j = choose|j: int|
                0 <= j < i && key_text(entries@[j].0) == t && json_entries(m)[t] == Json::Num(
                    c@[entries@[j].0],
                );
            let e = entries@[j].0;
            assert(c@.contains_key(e));
            let w = key_written(c@, t);
            assert(c@.contains_key(w) && key_text(w) == t);
            K::lemma_rank_nonnegative(e);
            K::lemma_rank_nonnegative(w);
            lemma_decimal_injective(e.rank() as nat, w.rank() as nat);
            K::lemma_rank_injective(e, w);
        }
        assert(json_entries(m) =~= spec_map);
    }
    json_object(m)
}

/// The cache key of statistics and a model name: the same statistics and
/// model give the same key, in every process.
pub fn key_for(stats: &Stats, model: &str) -> (r: String)
    requires
        stats.wf(),
    ensures
        r@ == stats_key(stats@, model@),
        r@.len() == 2 * KEY_PREFIX_LEN,
        all_hex_digits(r@),
{
    let mut m = json_map_new();
    proof {
        assert(json_entries(m) =~= Map::<Seq<char>, Json>::empty());
    }
    json_map_insert(&mut m, owned("model"), json_string(owned(model)));
    json_map_insert(&mut m, owned("total_lines"), json_number(stats.total_lines));
    json_map_insert(&mut m, owned("parsed_lines"), json_number(stats.parsed_lines));
    json_map_insert(&mut m, owned("requests"), json_number(stats.requests));
    json_map_insert(&mut m, owned("bytes"), json_number(stats.bytes));
    json_map_insert(&mut m, owned("by_status"), keyed_counts_value(&stats.by_status));
    json_map_insert(&mut m, owned("by_ip"), text_counts_value(&stats.by_ip));
    json_map_insert(&mut m, owned("by_path"), text_counts_value(&stats.by_path));
    json_map_insert(&mut m, owned("by_hour"), keyed_counts_value(&stats.by_hour));
    let doc = json_object(m);
    let bytes = json_to_vec(&doc);
    key_from_canonical(bytes.as_slice())
}

/// Recording the same two requests in either order gives the same key.
pub proof fn lemma_key_order_free(s: StatsView, r1: RecordView, r2: RecordView, model: Seq<char>)
    ensures
        stats_key(record_stats(record_stats(s, r1), r2), model) == stats_key(
            record_stats(record_stats(s, r2), r1),
            model,
        ),
{
    lemma_record_commutes(s, r1, r2);
}

/// A log gives the same key whichever of its two parts comes first, so an
/// upload of the same lines in another order hits the same cache entry.
pub proof fn lemma_log_key_order_free(a: Seq<Seq<char>>, b: Seq<Seq<char>>, model: Seq<char>)
    ensures
        stats_key(analysis(a + b), model) == stats_key(analysis(b + a), model),
{
    lemma_analysis_order_free(a, b);
}

} // verus!
