# analyzer_core

Analysis of web-server access logs in the NCSA Common Log Format, written in
Verus: the log-line grammar, the per-request tallies and their merge, and the
text and keys the command line and the HTTP server build from them, each with
a contract that Verus proves.

## Layout

- `src/` — the verified library.
  - `text.rs`: characters, digits, decimal numbers, scanning helpers.
  - `parse.rs`: the line grammar (`parse_line`) and the layout of a line
    (`format_log_line`), with the round trip between them.
  - `counts.rs`, `stats.rs`: tallies by key and the statistics of a log;
    merging is commutative, associative and has the empty statistics as its
    identity.
  - `analyze.rs`: splitting text into lines and analysing them; the
    statistics of a log are the merge of the statistics of its chunks.
  - `sanitize.rs`, `report.rs`, `prompt.rs`: cleaned fields, sorted and
    top-N listings, the prompt for the AI summary.
  - `json.rs`, `digest.rs`, `cache.rs`: the canonical JSON document of the
    statistics, its SHA-256 cache key, and the bounded in-memory cache.
  - `ai.rs`, `server.rs`: what an AI reply means, how each failure is
    answered, and the server's settings (rates, CORS, forwarded addresses,
    samples).
  - `synth.rs`: the deterministic generator of synthetic log lines, whose
    every line parses back to the fields it was written from.
- `tests/` — tests of the library on concrete values.
- `app/` — the command line and the HTTP server: file and network I/O,
  threads, serde types, the floating-point rate limiter and report figures.

Verify with `verus` on `src/lib.rs`. The library calls `sha2`, `lru`,
`serde_json` and `String::push` only through the
`#[verifier::external_body]` functions and the type declarations in
`digest.rs`, `cache.rs`, `json.rs` and `text.rs`; their contracts
are believed, not proved, and each says in its doc comment what it claims.
