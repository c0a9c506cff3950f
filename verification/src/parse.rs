//! The access-log line grammar: NCSA Common Log Format, as the pattern
//! `^(\S+) \S+ \S+ \[([^\]]+)\] "(\S+) (\S+) [^"]*" (\d{3}) (\S+)` reads it.
use vstd::prelude::*;
use vstd::seq_lib::lemma_concat_associative;
use crate::text::{
    is_whitespace, lemma_char_end_bounds, lemma_char_end_suffix, lemma_token_end_bounds, ascii_digit, char_end, chars_of, digit_value, is_ascii_digit, parse_decimal,
    parse_unsigned, push_str, scan_to, scan_token, string_from, sub_chars, token_end,
};

verus! {

/// What one parsed line yields: client address, hour, request path, status
/// code and response size.
pub type RecordView = (Seq<char>, u8, Seq<char>, u16, u64);

/// The hour of a timestamp such as `03/May/2026:14:22:10 -0700`: the text
/// between its first and second `:` (or its end), read as a `u8`.
pub open spec fn hour_of(ts: Seq<char>) -> Option<nat> {
    let c1 = char_end(ts, 0, ':');
    if c1 < ts.len() {
        let c2 = char_end(ts, c1 + 1, ':');
        parse_unsigned(ts.subrange(c1 + 1, c2), 255)
    } else {
        None
    }
}

/// The response size: the last field read as a `u64`, or 0 when it is not
/// one (such as `-`).
pub open spec fn size_of(t: Seq<char>) -> u64 {
    match parse_unsigned(t, u64::MAX as nat) {
        Some(n) => n as u64,
        None => 0,
    }
}

/// The meaning of a log line. The fields are separated by single spaces;
/// `\S+` is a maximal run of characters outside `White_Space`, `[^\]]+` and
/// `[^"]*` are maximal runs free of `]` and `"`. The status must be three
/// ASCII digits and the hour must read as a `u8`; otherwise the line yields
/// nothing.
pub open spec fn spec_parse_line(s: Seq<char>) -> Option<RecordView> {
    let e1 = token_end(s, 0);
    let e2 = token_end(s, e1 + 1);
    let e3 = token_end(s, e2 + 1);
    let ts_start = e3 + 2;
    let ts_end = char_end(s, ts_start, ']');
    let m_start = ts_end + 3;
    let m_end = token_end(s, m_start);
    let p_start = m_end + 1;
    let p_end = token_end(s, p_start);
    let q = char_end(s, p_end + 1, '"');
    let b_start = q + 6;
    let b_end = token_end(s, b_start);
    let shape = {
        &&& 0 < e1 && e1 < s.len() && s[e1] == ' '
        &&& e1 + 1 < e2 && e2 < s.len() && s[e2] == ' '
        &&& e2 + 1 < e3 && e3 + 1 < s.len() && s[e3] == ' ' && s[e3 + 1] == '['
        &&& ts_start < ts_end && ts_end + 2 < s.len() && s[ts_end + 1] == ' ' && s[ts_end + 2]
            == '"'
        &&& m_start < m_end && m_end < s.len() && s[m_end] == ' '
        &&& p_start < p_end && p_end < s.len() && s[p_end] == ' '
        &&& q + 5 < s.len() && s[q + 1] == ' ' && s[q + 5] == ' '
        &&& is_ascii_digit(s[q + 2]) && is_ascii_digit(s[q + 3]) && is_ascii_digit(s[q + 4])
        &&& b_start < b_end
    };
    let hour = hour_of(s.subrange(ts_start, ts_end));
    if shape && hour is Some {
        let status = digit_value(s[q + 2]) * 100 + digit_value(s[q + 3]) * 10 + digit_value(
            s[q + 4],
        );
        Some(
            (
                s.subrange(0, e1),
                hour->0 as u8,
                s.subrange(p_start, p_end),
                status as u16,
                size_of(s.subrange(b_start, b_end)),
            ),
        )
    } else {
        None
    }
}

/// Reads one access-log line into (client address, hour, path, status, size).
pub fn parse_line(line: &str) -> (r: Option<(String, u8, String, u16, u64)>)
    ensures
        match r {
            Some((ip, hour, path, status, bytes)) => spec_parse_line(line@) == Some(
                (ip@, hour, path@, status, bytes),
            ),
            None => spec_parse_line(line@) is None,
        },
{
    let v = chars_of(line);
    let ghost s = v@;
    let n = v.len();
    let e1 = scan_token(&v, 0);
    if e1 == 0 || e1 >= n || v[e1] != ' ' {
        return None;
    }
    let e2 = scan_token(&v, e1 + 1);
    if e2 <= e1 + 1 || e2 >= n || v[e2] != ' ' {
        return None;
    }
    let e3 = scan_token(&v, e2 + 1);
    if e3 <= e2 + 1 || e3 >= n || e3 + 1 >= n || v[e3] != ' ' || v[e3 + 1] != '[' {
        return None;
    }
    let ts_start = e3 + 2;
    let ts_end = scan_to(&v, ts_start, ']');
    if ts_end <= ts_start || ts_end >= n || n - ts_end <= 2 || v[ts_end + 1] != ' ' || v[ts_end
        + 2] != '"' {
        return None;
    }
    let m_start = ts_end + 3;
    let m_end = scan_token(&v, m_start);
    if m_end <= m_start || m_end >= n || v[m_end] != ' ' {
        return None;
    }
    let p_start = m_end + 1;
    let p_end = scan_token(&v, p_start);
    if p_end <= p_start || p_end >= n || v[p_end] != ' ' {
        return None;
    }
    let q = scan_to(&v, p_end + 1, '"');
    if q >= n || n - q <= 5 || v[q + 1] != ' ' || v[q + 5] != ' ' {
        return None;
    }
    if !ascii_digit(v[q + 2]) || !ascii_digit(v[q + 3]) || !ascii_digit(v[q + 4]) {
        return None;
    }
    let b_start = q + 6;
    let b_end = scan_token(&v, b_start);
    if b_end <= b_start {
        return None;
    }
    let ts = sub_chars(&v, ts_start, ts_end);
    let c1 = scan_to(&ts, 0, ':');
    if c1 >= ts.len() {
        return None;
    }
    let c2 = scan_to(&ts, c1 + 1, ':');
    let hour = match parse_decimal(&ts, c1 + 1, c2, 255) {
        Some(h) => h as u8,
        None => {
            return None;
        },
    };
    let status = ((v[q + 2] as u32 - '0' as u32) * 100 + (v[q + 3] as u32 - '0' as u32) * 10 + (
    v[q + 4] as u32 - '0' as u32)) as u16;
    let bytes = match parse_decimal(&v, b_start, b_end, u64::MAX) {
        Some(b) => b,
        None => 0,
    };
    let ip = string_from(&v, 0, e1);
    let path = string_from(&v, p_start, p_end);
    Some((ip, hour, path, status, bytes))
}

/// A log line laid out from its fields: address, identity, user,
/// `[timestamp]`, `"method path protocol"`, status and size, then any tail.
pub open spec fn log_line(
    ip: Seq<char>,
    ident: Seq<char>,
    user: Seq<char>,
    ts: Seq<char>,
    method: Seq<char>,
    path: Seq<char>,
    protocol: Seq<char>,
    status: Seq<char>,
    size: Seq<char>,
    tail: Seq<char>,
) -> Seq<char> {
    ip + (" "@ + (ident + (" "@ + (user + (" ["@ + (ts + ("] \""@ + (method + (" "@ + (path + (" "@
        + (protocol + ("\" "@ + (status + (" "@ + (size + tail))))))))))))))))
}

/// Writes a log line from its fields, in the layout of [`log_line`].
pub fn format_log_line(
    ip: &str,
    ident: &str,
    user: &str,
    ts: &str,
    method: &str,
    path: &str,
    protocol: &str,
    status: &str,
    size: &str,
    tail: &str,
) -> (r: String)
    ensures
        r@ == log_line(ip@, ident@, user@, ts@, method@, path@, protocol@, status@, size@, tail@),
{
    let ghost line = log_line(
        ip@,
        ident@,
        user@,
        ts@,
        method@,
        path@,
        protocol@,
        status@,
        size@,
        tail@,
    );
    let ghost r15 = size@ + tail@;
    let ghost r14 = " "@ + r15;
    let ghost r13 = status@ + r14;
    let ghost r12 = "\" "@ + r13;
    let ghost r11 = protocol@ + r12;
    let ghost r10 = " "@ + r11;
    let ghost r9 = path@ + r10;
    let ghost r8 = " "@ + r9;
    let ghost r7 = method@ + r8;
    let ghost r6 = "] \""@ + r7;
    let ghost r5 = ts@ + r6;
    let ghost r4 = " ["@ + r5;
    let ghost r3 = user@ + r4;
    let ghost r2 = " "@ + r3;
    let ghost r1 = ident@ + r2;
    let ghost r0 = " "@ + r1;
    let mut out = String::new();
    push_str(&mut out, ip);
    assert(out@ + r0 == line);
    push_str(&mut out, " ");
    proof { lemma_concat_associative(out@.subrange(0, ip@.len() as int), " "@, r1); }
    assert(out@ =~= ip@ + " "@);
    assert(out@ + r1 == line);
    let ghost prev = out@;
    push_str(&mut out, ident);
    proof { lemma_concat_associative(prev, ident@, r2); }
    let ghost prev = out@;
    push_str(&mut out, " ");
    proof { lemma_concat_associative(prev, " "@, r3); }
    let ghost prev = out@;
    push_str(&mut out, user);
    proof { lemma_concat_associative(prev, user@, r4); }
    let ghost prev = out@;
    push_str(&mut out, " [");
    proof { lemma_concat_associative(prev, " ["@, r5); }
    let ghost prev = out@;
    push_str(&mut out, ts);
    proof { lemma_concat_associative(prev, ts@, r6); }
    let ghost prev = out@;
    push_str(&mut out, "] \"");
    proof { lemma_concat_associative(prev, "] \""@, r7); }
    let ghost prev = out@;
    push_str(&mut out, method);
    proof { lemma_concat_associative(prev, method@, r8); }
    let ghost prev = out@;
    push_str(&mut out, " ");
    proof { lemma_concat_associative(prev, " "@, r9); }
    let ghost prev = out@;
    push_str(&mut out, path);
    proof { lemma_concat_associative(prev, path@, r10); }
    let ghost prev = out@;
    push_str(&mut out, " ");
    proof { lemma_concat_associative(prev, " "@, r11); }
    let ghost prev = out@;
    push_str(&mut out, protocol);
    proof { lemma_concat_associative(prev, protocol@, r12); }
    let ghost prev = out@;
    push_str(&mut out, "\" ");
    proof { lemma_concat_associative(prev, "\" "@, r13); }
    let ghost prev = out@;
    push_str(&mut out, status);
    proof { lemma_concat_associative(prev, status@, r14); }
    let ghost prev = out@;
    push_str(&mut out, " ");
    proof { lemma_concat_associative(prev, " "@, r15); }
    let ghost prev = out@;
    push_str(&mut out, size);
    proof { lemma_concat_associative(prev, size@, tail@); }
    push_str(&mut out, tail);
    out
}

/// `a` followed by `b`, kept folded in proofs that lay out long lines.
#[verifier::opaque]
pub open spec fn cat(a: Seq<char>, b: Seq<char>) -> Seq<char> {
    a + b
}

proof fn lemma_log_line_layout(
    ip: Seq<char>,
    ident: Seq<char>,
    user: Seq<char>,
    ts: Seq<char>,
    method: Seq<char>,
    path: Seq<char>,
    protocol: Seq<char>,
    status: Seq<char>,
    size: Seq<char>,
    tail: Seq<char>,
)
    ensures
        log_line(ip, ident, user, ts, method, path, protocol, status, size, tail) == cat(
            ip,
            cat(
                " "@,
                cat(
                    ident,
                    cat(
                        " "@,
                        cat(
                            user,
                            cat(
                                " ["@,
                                cat(
                                    ts,
                                    cat(
                                        "] \""@,
                                        cat(
                                            method,
                                            cat(
                                                " "@,
                                                cat(
                                                    path,
                                                    cat(
                                                        " "@,
                                                        cat(
                                                            protocol,
                                                            cat(
                                                                "\" "@,
                                                                cat(
                                                                    status,
                                                                    cat(" "@, cat(size, tail)),
                                                                ),
                                                            ),
                                                        ),
                                                    ),
                                                ),
                                            ),
                                        ),
                                    ),
                                ),
                            ),
                        ),
                    ),
                ),
            ),
        ),
{
    reveal(cat);
}

/// A field that `\S+` reads whole: not empty, no whitespace.
pub open spec fn is_token(t: Seq<char>) -> bool {
    t.len() > 0 && forall|k: int| 0 <= k < t.len() ==> !is_whitespace(#[trigger] t[k])
}

/// Text free of the character `c`.
pub open spec fn lacks(t: Seq<char>, c: char) -> bool {
    forall|k: int| 0 <= k < t.len() ==> #[trigger] t[k] != c
}

proof fn lemma_token_end_piece(p: Seq<char>, rest: Seq<char>, i: int)
    requires
        0 <= i <= p.len(),
        forall|k: int| 0 <= k < p.len() ==> !is_whitespace(#[trigger] p[k]),
        rest.len() == 0 || is_whitespace(rest[0]),
    ensures
        token_end(p + rest, i) == p.len(),
    decreases p.len() - i,
{
    reveal(token_end);
    if i < p.len() {
        assert((p + rest)[i] == p[i]);
        lemma_token_end_piece(p, rest, i + 1);
    } else if rest.len() > 0 {
        assert((p + rest)[i] == rest[0]);
    }
}

/// A run free of `c`, followed by `c`: the scan from inside the run stops
/// at its end.
pub proof fn lemma_char_end_piece(p: Seq<char>, rest: Seq<char>, i: int, c: char)
    requires
        0 <= i <= p.len(),
        lacks(p, c),
        rest.len() > 0 && rest[0] == c,
    ensures
        char_end(p + rest, i, c) == p.len(),
    decreases p.len() - i,
{
    reveal(char_end);
    if i < p.len() {
        assert((p + rest)[i] == p[i]);
        lemma_char_end_piece(p, rest, i + 1, c);
    } else {
        assert((p + rest)[i] == rest[0]);
    }
}

/// Scanning a suffix of `s` is scanning `s` from where the suffix starts.
proof fn lemma_token_end_suffix(s: Seq<char>, a: int, i: int)
    requires
        0 <= a <= s.len(),
        0 <= i,
    ensures
        token_end(s.subrange(a, s.len() as int), i) == token_end(s, a + i) - a,
    decreases s.len() - (a + i),
{
    reveal(token_end);
    if a + i < s.len() && !is_whitespace(s[a + i]) {
        lemma_token_end_suffix(s, a, i + 1);
    }
}

/// What the line holds from `o` on is `piece` then `rest`: the piece stands
/// at `o..`, and `rest` is what follows it.
proof fn lemma_suffix_step(line: Seq<char>, o: int, piece: Seq<char>, rest: Seq<char>)
    requires
        0 <= o <= line.len(),
        line.subrange(o, line.len() as int) == cat(piece, rest),
    ensures
        o + piece.len() <= line.len(),
        line.subrange(o + piece.len(), line.len() as int) == rest,
        line.subrange(o, o + piece.len()) == piece,
        rest.len() > 0 ==> line[o + piece.len()] == rest[0],
{
    reveal(cat);
    let t = line.subrange(o, line.len() as int);
    assert(t.len() == piece.len() + rest.len());
    assert(line.subrange(o + piece.len(), line.len() as int) =~= rest) by {
        assert forall|k: int| 0 <= k < rest.len() implies line[o + piece.len() + k] == rest[k] by {
            assert(t[piece.len() + k] == line[o + piece.len() + k]);
            assert((piece + rest)[piece.len() + k] == rest[k]);
        }
    }
    assert(line.subrange(o, o + piece.len()) =~= piece) by {
        assert forall|k: int| 0 <= k < piece.len() implies line[o + k] == piece[k] by {
            assert(t[k] == line[o + k]);
            assert((piece + rest)[k] == piece[k]);
        }
    }
    if rest.len() > 0 {
        assert(t[piece.len() as int] == line[o + piece.len()]);
        assert((piece + rest)[piece.len() as int] == rest[0]);
    }
}

proof fn proof_cat_first(a: Seq<char>, b: Seq<char>)
    requires
        a.len() > 0,
    ensures
        cat(a, b).len() == a.len() + b.len(),
        cat(a, b)[0] == a[0],
{
    reveal(cat);
}

proof fn lemma_whole_subrange(s: Seq<char>)
    ensures
        s.subrange(0, s.len() as int) == s,
{
    assert(s.subrange(0, s.len() as int) =~= s);
}

/// A field read with `\S+` at `o`: it ends where the piece ends.
proof fn lemma_field_at(line: Seq<char>, o: int, piece: Seq<char>, rest: Seq<char>)
    requires
        0 <= o <= line.len(),
        line.subrange(o, line.len() as int) == cat(piece, rest),
        forall|k: int| 0 <= k < piece.len() ==> !is_whitespace(#[trigger] piece[k]),
        rest.len() == 0 || is_whitespace(rest[0]),
    ensures
        token_end(line, o) == o + piece.len(),
{
    reveal(cat);
    lemma_token_end_suffix(line, o, 0);
    lemma_token_end_piece(piece, rest, 0);
}

/// A run free of `c` at `o`, followed by `c`: the scan stops at the `c`.
proof fn lemma_run_at(line: Seq<char>, o: int, piece: Seq<char>, rest: Seq<char>, c: char)
    requires
        0 <= o <= line.len(),
        line.subrange(o, line.len() as int) == cat(piece, rest),
        lacks(piece, c),
        rest.len() > 0 && rest[0] == c,
    ensures
        char_end(line, o, c) == o + piece.len(),
{
    reveal(cat);
    lemma_char_end_suffix(line, o, 0, c);
    lemma_char_end_piece(piece, rest, 0, c);
}

/// A line laid out from well-formed fields parses back to those fields:
/// the address, the hour of the timestamp, the path, the status and the
/// size (0 where the size field is not a number).
#[verifier::rlimit(100)]
#[verifier::spinoff_prover]
pub proof fn lemma_format_then_parse(
    ip: Seq<char>,
    ident: Seq<char>,
    user: Seq<char>,
    ts: Seq<char>,
    method: Seq<char>,
    path: Seq<char>,
    protocol: Seq<char>,
    status: Seq<char>,
    size: Seq<char>,
    tail: Seq<char>,
)
    requires
        is_token(ip),
        is_token(ident),
        is_token(user),
        ts.len() > 0,
        lacks(ts, ']'),
        hour_of(ts) is Some,
        is_token(method),
        is_token(path),
        lacks(protocol, '"'),
        status.len() == 3,
        is_ascii_digit(status[0]) && is_ascii_digit(status[1]) && is_ascii_digit(status[2]),
        is_token(size),
        tail.len() == 0 || is_whitespace(tail[0]),
    ensures
        spec_parse_line(log_line(ip, ident, user, ts, method, path, protocol, status, size, tail))
            == Some(
            (
                ip,
                hour_of(ts)->0 as u8,
                path,
                (digit_value(status[0]) * 100 + digit_value(status[1]) * 10 + digit_value(
                    status[2],
                )) as u16,
                size_of(size),
            ),
        ),
{
    reveal_strlit(" ");
    reveal_strlit(" [");
    reveal_strlit("] \"");
    reveal_strlit("\" ");
    let sp = " "@;
    let r15 = cat(size, tail);
    let r14 = cat(sp, r15);
    let r13 = cat(status, r14);
    let r12 = cat("\" "@, r13);
    let r11 = cat(protocol, r12);
    let r10 = cat(sp, r11);
    let r9 = cat(path, r10);
    let r8 = cat(sp, r9);
    let r7 = cat(method, r8);
    let r6 = cat("] \""@, r7);
    let r5 = cat(ts, r6);
    let r4 = cat(" ["@, r5);
    let r3 = cat(user, r4);
    let r2 = cat(sp, r3);
    let r1 = cat(ident, r2);
    let r0 = cat(sp, r1);
    let line = cat(ip, r0);
    lemma_log_line_layout(ip, ident, user, ts, method, path, protocol, status, size, tail);
    proof_cat_first(sp, r15);
    proof_cat_first(sp, r11);
    proof_cat_first(sp, r9);
    proof_cat_first(sp, r3);
    proof_cat_first(sp, r1);
    proof_cat_first("] \""@, r7);
    proof_cat_first("\" "@, r13);
    proof_cat_first(" ["@, r5);
    lemma_whole_subrange(line);
    lemma_suffix_step(line, 0, ip, r0);
    let o1 = ip.len() as int;
    lemma_suffix_step(line, o1, sp, r1);
    let o2 = o1 + 1;
    lemma_suffix_step(line, o2, ident, r2);
    let o3 = o2 + ident.len();
    lemma_suffix_step(line, o3, sp, r3);
    let o4 = o3 + 1;
    lemma_suffix_step(line, o4, user, r4);
    let o5 = o4 + user.len();
    lemma_suffix_step(line, o5, " ["@, r5);
    let o6 = o5 + 2;
    lemma_suffix_step(line, o6, ts, r6);
    let o7 = o6 + ts.len();
    lemma_suffix_step(line, o7, "] \""@, r7);
    let o8 = o7 + 3;
    lemma_suffix_step(line, o8, method, r8);
    let o9 = o8 + method.len();
    lemma_suffix_step(line, o9, sp, r9);
    let o10 = o9 + 1;
    lemma_suffix_step(line, o10, path, r10);
    let o11 = o10 + path.len();
    lemma_suffix_step(line, o11, sp, r11);
    let o12 = o11 + 1;
    lemma_suffix_step(line, o12, protocol, r12);
    let o13 = o12 + protocol.len();
    lemma_suffix_step(line, o13, "\" "@, r13);
    let o14 = o13 + 2;
    lemma_suffix_step(line, o14, status, r14);
    let o15 = o14 + 3;
    lemma_suffix_step(line, o15, sp, r15);
    let o16 = o15 + 1;
    lemma_suffix_step(line, o16, size, tail);
    lemma_field_at(line, 0, ip, r0);
    lemma_field_at(line, o2, ident, r2);
    lemma_field_at(line, o4, user, r4);
    lemma_run_at(line, o6, ts, r6, ']');
    lemma_field_at(line, o8, method, r8);
    lemma_field_at(line, o10, path, r10);
    lemma_run_at(line, o12, protocol, r12, '"');
    lemma_field_at(line, o16, size, tail);
    assert(line[o5 + 1] == '[') by {
        assert(line.subrange(o5, o5 + 2)[1] == line[o5 + 1]);
    }
    assert(line[o7 + 1] == ' ' && line[o7 + 2] == '"') by {
        assert(line.subrange(o7, o7 + 3)[1] == line[o7 + 1]);
        assert(line.subrange(o7, o7 + 3)[2] == line[o7 + 2]);
    }
    assert(line[o13 + 1] == ' ') by {
        assert(line.subrange(o13, o13 + 2)[1] == line[o13 + 1]);
    }
    assert(line[o14] == status[0] && line[o14 + 1] == status[1] && line[o14 + 2] == status[2]) by {
        assert(line.subrange(o14, o14 + 3)[0] == line[o14]);
        assert(line.subrange(o14, o14 + 3)[1] == line[o14 + 1]);
        assert(line.subrange(o14, o14 + 3)[2] == line[o14 + 2]);
    }
}

} // verus!
