//! The decisions of the HTTP server that do not touch the network: rate
//! settings, the CORS allow-list, the client address behind a proxy, and
//! which bundled sample a request names.
use vstd::prelude::*;
use crate::text::{
    char_end, chars_of, is_whitespace, lemma_char_end_bounds, parse_decimal, parse_unsigned,
    push_str, scan_to, string_from, whitespace,
};

verus! {

/// `s` without its leading whitespace.
pub open spec fn trim_start(s: Seq<char>) -> Seq<char>
    decreases s.len(),
{
    if s.len() > 0 && is_whitespace(s[0]) {
        trim_start(s.drop_first())
    } else {
        s
    }
}

/// `s` without its trailing whitespace.
pub open spec fn trim_end(s: Seq<char>) -> Seq<char>
    decreases s.len(),
{
    if s.len() > 0 && is_whitespace(s.last()) {
        trim_end(s.drop_last())
    } else {
        s
    }
}

/// `str::trim`: leading and trailing whitespace removed.
pub open spec fn trimmed(s: Seq<char>) -> Seq<char> {
    trim_end(trim_start(s))
}

/// `str::split`: the pieces between the occurrences of `c`, empty pieces
/// included.
pub open spec fn split_on(s: Seq<char>, c: char) -> Seq<Seq<char>>
    decreases s.len(),
{
    let j = char_end(s, 0, c);
    proof {
        lemma_char_end_bounds(s, 0, c);
    }
    if j < s.len() {
        seq![s.subrange(0, j)] + split_on(s.subrange(j + 1, s.len() as int), c)
    } else {
        seq![s]
    }
}

/// Keeps the pieces that are not empty.
pub open spec fn non_empty(ps: Seq<Seq<char>>) -> Seq<Seq<char>>
    decreases ps.len(),
{
    if ps.len() == 0 {
        Seq::empty()
    } else {
        let r = non_empty(ps.drop_last());
        if ps.last().len() > 0 {
            r.push(ps.last())
        } else {
            r
        }
    }
}

proof fn lemma_trim_start_from(s: Seq<char>, a: int)
    requires
        0 <= a <= s.len(),
        forall|k: int| 0 <= k < a ==> is_whitespace(#[trigger] s[k]),
        a == s.len() || !is_whitespace(s[a]),
    ensures
        trim_start(s) == s.subrange(a, s.len() as int),
    decreases a,
{
    if a == 0 {
        assert(s.subrange(0, s.len() as int) =~= s);
    } else {
        let t = s.drop_first();
        assert forall|k: int| 0 <= k < a - 1 implies is_whitespace(#[trigger] t[k]) by {
            assert(t[k] == s[k + 1]);
        }
        lemma_trim_start_from(t, a - 1);
        assert(t.subrange(a - 1, t.len() as int) =~= s.subrange(a, s.len() as int));
    }
}

proof fn lemma_trim_end_to(s: Seq<char>, b: int)
    requires
        0 <= b <= s.len(),
        forall|k: int| b <= k < s.len() ==> is_whitespace(#[trigger] s[k]),
        b == 0 || !is_whitespace(s[b - 1]),
    ensures
        trim_end(s) == s.subrange(0, b),
    decreases s.len() - b,
{
    if b == s.len() {
        assert(s.subrange(0, b) =~= s);
    } else {
        let t = s.drop_last();
        lemma_trim_end_to(t, b);
        assert(t.subrange(0, b) =~= s.subrange(0, b));
    }
}

/// What `trim_start` leaves is empty or starts with a character that is
/// not whitespace.
proof fn lemma_trim_start_shape(s: Seq<char>)
    ensures
        trim_start(s).len() == 0 || !is_whitespace(trim_start(s)[0]),
    decreases s.len(),
{
    if s.len() > 0 && is_whitespace(s[0]) {
        lemma_trim_start_shape(s.drop_first());
    }
}

/// What `trim_end` leaves is a prefix of `s`, empty or ending with a
/// character that is not whitespace.
proof fn lemma_trim_end_shape(s: Seq<char>)
    ensures
        trim_end(s).len() <= s.len(),
        forall|k: int| 0 <= k < trim_end(s).len() ==> #[trigger] trim_end(s)[k] == s[k],
        trim_end(s).len() == 0 || !is_whitespace(trim_end(s).last()),
    decreases s.len(),
{
    if s.len() > 0 && is_whitespace(s.last()) {
        lemma_trim_end_shape(s.drop_last());
    }
}

/// A trimmed text has no leading or trailing whitespace, and trimming it
/// again changes nothing.
pub proof fn lemma_trimmed_clean(s: Seq<char>)
    ensures
        trimmed(s).len() == 0 || (!is_whitespace(trimmed(s)[0]) && !is_whitespace(
            trimmed(s).last(),
        )),
        trimmed(trimmed(s)) == trimmed(s),
{
    let u = trim_start(s);
    lemma_trim_start_shape(s);
    lemma_trim_end_shape(u);
    let t = trimmed(s);
    if t.len() > 0 {
        assert(t[0] == u[0]);
    }
    assert(trim_start(t) == t);
    assert(trim_end(t) == t);
}

/// Trims `v[start..end]`: the bounds of what is left.
fn trim_bounds(v: &Vec<char>, start: usize, end: usize) -> (r: (usize, usize))
    requires
        start <= end <= v.len(),
    ensures
        start <= r.0 <= r.1 <= end,
        v@.subrange(r.0 as int, r.1 as int) == trimmed(v@.subrange(start as int, end as int)),
{
    let ghost s = v@.subrange(start as int, end as int);
    let mut a = start;
    while a < end && whitespace(v[a])
        invariant
            start <= a <= end <= v.len(),
            forall|k: int| start <= k < a ==> is_whitespace(#[trigger] v@[k]),
        decreases end - a,
    {
        a = a + 1;
    }
    proof {
        assert forall|k: int| 0 <= k < a - start implies is_whitespace(#[trigger] s[k]) by {
            assert(s[k] == v@[start + k]);
        }
        lemma_trim_start_from(s, a - start);
    }
    let mut b = end;
    while b > a && whitespace(v[b - 1])
        invariant
            start <= a <= b <= end <= v.len(),
            forall|k: int| b <= k < end ==> is_whitespace(#[trigger] v@[k]),
        decreases b - a,
    {
        b = b - 1;
    }
    proof {
        let t = s.subrange(a - start, s.len() as int);
        assert forall|k: int| b - a <= k < t.len() implies is_whitespace(#[trigger] t[k]) by {
            assert(t[k] == v@[a + k]);
        }
        if b > a {
            assert(t[b - a - 1] == v@[b - 1]);
        }
        lemma_trim_end_to(t, b - a);
        assert(t.subrange(0, b - a) =~= v@.subrange(a as int, b as int));
    }
    (a, b)
}

/// `str::trim`.
pub fn trim(s: &str) -> (r: String)
    ensures
        r@ == trimmed(s@),
{
    let v = chars_of(s);
    let (a, b) = trim_bounds(&v, 0, v.len());
    assert(v@.subrange(0, v.len() as int) =~= s@);
    string_from(&v, a, b)
}

/// The value of a rate setting: a positive `u32` where the setting reads as
/// one, `default` where it is missing, zero or not a number.
pub open spec fn rate_setting(value: Option<Seq<char>>, default: u32) -> u32 {
    match value {
        Some(v) => match parse_unsigned(v, u32::MAX as nat) {
            Some(n) => if n > 0 {
                n as u32
            } else {
                default
            },
            None => default,
        },
        None => default,
    }
}

/// Reads a per-minute rate setting.
pub fn parse_rate(value: Option<&str>, default: u32) -> (r: u32)
    ensures
        r == rate_setting(
            match value {
                Some(v) => Some(v@),
                None => None,
            },
            default,
        ),
{
    match value {
        Some(v) => {
            let chars = chars_of(v);
            assert(chars@.subrange(0, chars@.len() as int) =~= v@);
            match parse_decimal(&chars, 0, chars.len(), u32::MAX as u64) {
                Some(n) => if n > 0 {
                    n as u32
                } else {
                    default
                },
                None => default,
            }
        },
        None => default,
    }
}

/// Which origins the server lets a browser call it from.
pub enum CorsOrigins {
    /// Any origin (the setting is `*`).
    Any,
    /// Exactly these origins.
    List(Vec<String>),
}

/// The allow-list a setting names: any origin for `*`, otherwise its
/// comma-separated entries, trimmed, empty ones left out.
pub open spec fn origins_of(raw: Seq<char>) -> Option<Seq<Seq<char>>> {
    if trimmed(raw) == "*"@ {
        None
    } else {
        Some(non_empty(split_on(raw, ',').map_values(|p: Seq<char>| trimmed(p))))
    }
}

proof fn lemma_non_empty_members(ps: Seq<Seq<char>>)
    ensures
        forall|i: int|
            0 <= i < non_empty(ps).len() ==> (#[trigger] non_empty(ps)[i]).len() > 0 && ps.contains(
                non_empty(ps)[i],
            ),
        forall|j: int| 0 <= j < ps.len() && (#[trigger] ps[j]).len() > 0 ==> non_empty(ps).contains(ps[j]),
    decreases ps.len(),
{
    if ps.len() > 0 {
        let front = ps.drop_last();
        lemma_non_empty_members(front);
        let r = non_empty(front);
        let q = non_empty(ps);
        assert forall|i: int| 0 <= i < q.len() implies (#[trigger] q[i]).len() > 0 && ps.contains(
            q[i],
        ) by {
            if i < r.len() {
                assert(q[i] == r[i]);
                let j = choose|j: int| 0 <= j < front.len() && front[j] == r[i];
                assert(ps[j] == front[j]);
            } else {
                assert(q[i] == ps.last());
                assert(ps[ps.len() - 1] == ps.last());
            }
        }
        assert forall|j: int| 0 <= j < ps.len() && (#[trigger] ps[j]).len() > 0 implies q.contains(
            ps[j],
        ) by {
            if j < front.len() {
                assert(front[j] == ps[j]);
                assert(r.contains(ps[j]));
                let x = choose|x: int| 0 <= x < r.len() && r[x] == ps[j];
                assert(q[x] == r[x]);
            } else {
                assert(q[q.len() - 1] == ps.last());
            }
        }
    }
}

/// Every origin of an allow-list is trimmed and not empty, and every
/// comma-separated entry that is not blank is in the list, trimmed.
pub proof fn lemma_origins_trimmed(raw: Seq<char>)
    ensures
        origins_of(raw) matches Some(list) ==> (forall|i: int|
            0 <= i < list.len() ==> (#[trigger] list[i]).len() > 0 && trimmed(list[i]) == list[i])
            && (forall|j: int|
            0 <= j < split_on(raw, ',').len() && trimmed(#[trigger] split_on(raw, ',')[j]).len() > 0
                ==> list.contains(trimmed(split_on(raw, ',')[j]))),
{
    if trimmed(raw) != "*"@ {
        let parts = split_on(raw, ',');
        let ps = parts.map_values(|p: Seq<char>| trimmed(p));
        let list = non_empty(ps);
        lemma_non_empty_members(ps);
        assert forall|i: int| 0 <= i < list.len() implies (#[trigger] list[i]).len() > 0 && trimmed(
            list[i],
        ) == list[i] by {
            let j = choose|j: int| 0 <= j < ps.len() && ps[j] == list[i];
            assert(ps[j] == trimmed(parts[j]));
            lemma_trimmed_clean(parts[j]);
        }
        assert forall|j: int|
            0 <= j < parts.len() && trimmed(#[trigger] parts[j]).len() > 0 implies list.contains(
            trimmed(parts[j]),
        ) by {
            assert(ps[j] == trimmed(parts[j]));
        }
    }
}

/// Reads the CORS allow-list setting.
pub fn cors_origins(raw: &str) -> (r: CorsOrigins)
    ensures
        match origins_of(raw@) {
            None => r is Any,
            Some(list) => r matches CorsOrigins::List(v) && v@.map_values(|s: String| s@) == list,
        },
        r matches CorsOrigins::List(v) ==> forall|i: int|
            0 <= i < v@.len() ==> (#[trigger] v@[i])@.len() > 0 && trimmed(v@[i]@) == v@[i]@,
{
    proof {
        lemma_origins_trimmed(raw@);
    }
    let v = chars_of(raw);
    let n = v.len();
    let (a, b) = trim_bounds(&v, 0, n);
    assert(v@.subrange(0, n as int) =~= raw@);
    proof {
        reveal_strlit("*");
    }
    if b > a && b - a == 1 && v[a] == '*' {
        assert(v@.subrange(a as int, b as int) =~= "*"@);
        return CorsOrigins::Any;
    }
    assert(v@.subrange(a as int, b as int) != "*"@ ) by {
        if v@.subrange(a as int, b as int) == "*"@ {
            assert(v@.subrange(a as int, b as int).len() == 1);
            assert(v@.subrange(a as int, b as int)[0] == v@[a as int]);
        }
    }
    let mut out: Vec<String> = Vec::new();
    let mut pos: usize = 0;
    let mut done = false;
    let ghost all = v@;
    proof {
        assert(split_on(all.subrange(0, n as int), ',') == split_on(all, ','));
    }
    while !done
        invariant
            v@ == all,
            n == v.len(),
            pos <= n,
            !done ==> non_empty(split_on(all, ',').map_values(|p: Seq<char>| trimmed(p)))
                == non_empty(
                out@.map_values(|s: String| s@) + split_on(
                    all.subrange(pos as int, n as int),
                    ',',
                ).map_values(|p: Seq<char>| trimmed(p)),
            ),
            done ==> non_empty(split_on(all, ',').map_values(|p: Seq<char>| trimmed(p)))
                == non_empty(out@.map_values(|s: String| s@)),
            forall|i: int| 0 <= i < out@.len() ==> (#[trigger] out@[i])@.len() > 0,
        decreases n - pos + (if done { 0int } else { 1int }),
    {
        let j = scan_to(&v, pos, ',');
        let (pa, pb) = trim_bounds(&v, pos, j);
        let ghost rest = all.subrange(pos as int, n as int);
        let ghost old_out = out@.map_values(|s: String| s@);
        proof {
            crate::text::lemma_char_end_suffix(all, pos as int, 0, ',');
            lemma_char_end_bounds(all, pos as int, ',');
        }
        if pb > pa {
            let piece = string_from(&v, pa, pb);
            out.push(piece);
        }
        proof {
            let jr = j - pos;
            assert(rest.subrange(0, jr) =~= all.subrange(pos as int, j as int));
            let head = trimmed(all.subrange(pos as int, j as int));
            assert(all.subrange(pa as int, pb as int) == head);
            if j < n {
                assert(rest.subrange(jr + 1, rest.len() as int) =~= all.subrange(
                    j + 1,
                    n as int,
                ));
                assert(split_on(rest, ',') == seq![rest.subrange(0, jr)] + split_on(
                    all.subrange(j + 1, n as int),
                    ',',
                ));
            } else {
                assert(split_on(rest, ',') == seq![rest]);
                assert(rest =~= all.subrange(pos as int, j as int));
            }
            lemma_non_empty_step(
                old_out,
                head,
                if j < n {
                    split_on(all.subrange(j + 1, n as int), ',').map_values(
                        |p: Seq<char>| trimmed(p),
                    )
                } else {
                    Seq::empty()
                },
            );
            if pb > pa {
                assert(out@.map_values(|s: String| s@) =~= old_out.push(head));
            } else {
                assert(out@.map_values(|s: String| s@) =~= old_out);
            }
            if j < n {
                assert(split_on(rest, ',').map_values(|p: Seq<char>| trimmed(p)) =~= seq![head]
                    + split_on(all.subrange(j + 1, n as int), ',').map_values(
                    |p: Seq<char>| trimmed(p),
                ));
            } else {
                assert(split_on(rest, ',').map_values(|p: Seq<char>| trimmed(p)) =~= seq![head]);
            }
        }
        if j < n {
            pos = j + 1;
        } else {
            done = true;
        }
    }
    proof {
        lemma_non_empty_all_kept(out@.map_values(|s: String| s@));
        let views = out@.map_values(|s: String| s@);
        assert(views == origins_of(raw@)->0);
        assert forall|i: int| 0 <= i < out@.len() implies (#[trigger] out@[i])@.len() > 0 && trimmed(
            out@[i]@,
        ) == out@[i]@ by {
            assert(views[i] == out@[i]@);
        }
    }
    CorsOrigins::List(out)
}

proof fn lemma_non_empty_all_kept(ps: Seq<Seq<char>>)
    requires
        forall|i: int| 0 <= i < ps.len() ==> (#[trigger] ps[i]).len() > 0,
    ensures
        non_empty(ps) == ps,
    decreases ps.len(),
{
    if ps.len() > 0 {
        lemma_non_empty_all_kept(ps.drop_last());
        assert(ps.drop_last().push(ps.last()) =~= ps);
    }
}

proof fn lemma_non_empty_concat(a: Seq<Seq<char>>, b: Seq<Seq<char>>)
    ensures
        non_empty(a + b) == non_empty(a) + non_empty(b),
    decreases b.len(),
{
    if b.len() == 0 {
        assert(a + b =~= a);
        assert(non_empty(a) + non_empty(b) =~= non_empty(a));
    } else {
        assert((a + b).drop_last() =~= a + b.drop_last());
        lemma_non_empty_concat(a, b.drop_last());
        if b.last().len() > 0 {
            assert(non_empty(a) + non_empty(b.drop_last()).push(b.last()) =~= (non_empty(a)
                + non_empty(b.drop_last())).push(b.last()));
        }
    }
}

proof fn lemma_non_empty_step(kept: Seq<Seq<char>>, head: Seq<char>, tail: Seq<Seq<char>>)
    ensures
        non_empty(kept + (seq![head] + tail)) == non_empty(
            (if head.len() > 0 {
                kept.push(head)
            } else {
                kept
            }) + tail,
        ),
{
    lemma_non_empty_concat(kept, seq![head] + tail);
    lemma_non_empty_concat(seq![head], tail);
    assert(seq![head].drop_last() =~= Seq::<Seq<char>>::empty());
    assert(non_empty(Seq::<Seq<char>>::empty()) =~= Seq::<Seq<char>>::empty());
    if head.len() > 0 {
        lemma_non_empty_concat(kept.push(head), tail);
        assert(kept.push(head).drop_last() =~= kept);
        assert(non_empty(seq![head]) =~= seq![head]);
        assert(non_empty(kept) + (seq![head] + non_empty(tail)) =~= non_empty(kept).push(head)
            + non_empty(tail));
    } else {
        lemma_non_empty_concat(kept, tail);
        assert(non_empty(seq![head]) =~= Seq::<Seq<char>>::empty());
        assert(Seq::<Seq<char>>::empty() + non_empty(tail) =~= non_empty(tail));
    }
}

/// The client address a proxy reports: the first entry of an
/// `X-Forwarded-For` value, trimmed.
pub open spec fn forwarded_client(header: Seq<char>) -> Seq<char> {
    trimmed(split_on(header, ',')[0])
}

/// A character that may stand in an HTTP header value: a tab, or anything
/// from a space up but DEL (every non-ASCII character is written in bytes
/// of 0x80 and above, which are allowed).
pub open spec fn header_value_char(c: char) -> bool {
    c == '\t' || (' ' <= c && c != '\u{7f}')
}

/// Text that may be sent as an HTTP header value.
pub open spec fn valid_header_value(s: Seq<char>) -> bool {
    forall|k: int| 0 <= k < s.len() ==> header_value_char(#[trigger] s[k])
}

/// `http::HeaderValue::from_str` (through `axum::http`): trusted to accept
/// exactly the text whose UTF-8 bytes are all tab, or 32 and above but 127.
#[verifier::external_body]
fn header_value_ok(s: &str) -> (r: bool)
    ensures
        r == valid_header_value(s@),
{
    axum::http::HeaderValue::from_str(s).is_ok()
}

/// The entries of `list` that may be sent as header values, in order.
pub open spec fn header_values(list: Seq<Seq<char>>) -> Seq<Seq<char>>
    decreases list.len(),
{
    if list.len() == 0 {
        Seq::empty()
    } else {
        let r = header_values(list.drop_last());
        if valid_header_value(list.last()) {
            r.push(list.last())
        } else {
            r
        }
    }
}

/// The origins of an allow-list that can be sent as header values; the
/// others are left out.
pub fn usable_origins(list: &Vec<String>) -> (r: Vec<String>)
    ensures
        r@.map_values(|s: String| s@) == header_values(list@.map_values(|s: String| s@)),
{
    let mut out: Vec<String> = Vec::new();
    let mut i: usize = 0;
    while i < list.len()
        invariant
            i <= list@.len(),
            out@.map_values(|s: String| s@) == header_values(
                list@.map_values(|s: String| s@).take(i as int),
            ),
        decreases list@.len() - i,
    {
        let ghost before = out@.map_values(|s: String| s@);
        let ok = header_value_ok(list[i].as_str());
        if ok {
            out.push(list[i].clone());
        }
        proof {
            let views = list@.map_values(|s: String| s@);
            assert(views.take(i + 1).drop_last() =~= views.take(i as int));
            assert(views.take(i + 1).last() == list@[i as int]@);
            if ok {
                assert(out@.map_values(|s: String| s@) =~= before.push(list@[i as int]@));
            } else {
                assert(out@.map_values(|s: String| s@) =~= before);
            }
        }
        i = i + 1;
    }
    proof {
        let views = list@.map_values(|s: String| s@);
        assert(views.take(list@.len() as int) =~= views);
    }
    out
}

/// The address a request is counted against: the forwarded client address
/// where proxies are trusted and the `X-Forwarded-For` entry reads as an
/// address, the TCP peer otherwise.
pub fn client_address<A>(trust_proxy: bool, forwarded: Option<A>, peer: A) -> (r: A)
    ensures
        r == (if trust_proxy && forwarded is Some {
            forwarded->0
        } else {
            peer
        }),
{
    if trust_proxy {
        match forwarded {
            Some(a) => a,
            None => peer,
        }
    } else {
        peer
    }
}

/// Reads the client address from an `X-Forwarded-For` value.
pub fn first_forwarded(header: &str) -> (r: String)
    ensures
        r@ == forwarded_client(header@),
{
    let v = chars_of(header);
    let j = scan_to(&v, 0, ',');
    let (a, b) = trim_bounds(&v, 0, j);
    proof {
        lemma_char_end_bounds(v@, 0, ',');
        if j < v.len() {
            assert(split_on(v@, ',')[0] == v@.subrange(0, j as int));
        } else {
            assert(v@.subrange(0, j as int) =~= v@);
        }
    }
    string_from(&v, a, b)
}

/// The bundled demo logs.
pub enum Sample {
    Default,
    Heavy,
    Attack,
    Sparse,
}

/// The sample a request names: `heavy`, `attack` or `sparse`, and the
/// default one for any other name or none.
pub open spec fn sample_named(name: Option<Seq<char>>) -> Sample {
    match name {
        Some(n) => if n == "heavy"@ {
            Sample::Heavy
        } else if n == "attack"@ {
            Sample::Attack
        } else if n == "sparse"@ {
            Sample::Sparse
        } else {
            Sample::Default
        },
        None => Sample::Default,
    }
}

fn same_text(a: &str, b: &str) -> (r: bool)
    ensures
        r == (a@ == b@),
{
    let x = chars_of(a);
    let y = chars_of(b);
    if x.len() != y.len() {
        return false;
    }
    let mut i: usize = 0;
    while i < x.len()
        invariant
            x@ == a@,
            y@ == b@,
            x@.len() == y@.len(),
            i <= x.len(),
            forall|k: int| 0 <= k < i ==> x@[k] == y@[k],
        decreases x.len() - i,
    {
        if x[i] != y[i] {
            return false;
        }
        i = i + 1;
    }
    assert(x@ =~= y@);
    true
}

/// Picks the sample a request names.
pub fn choose_sample(name: Option<&str>) -> (r: Sample)
    ensures
        r == sample_named(
            match name {
                Some(n) => Some(n@),
                None => None,
            },
        ),
{
    match name {
        Some(n) => {
            if same_text(n, "heavy") {
                Sample::Heavy
            } else if same_text(n, "attack") {
                Sample::Attack
            } else if same_text(n, "sparse") {
                Sample::Sparse
            } else {
                Sample::Default
            }
        },
        None => Sample::Default,
    }
}

impl Sample {
    /// The file the sample is read from.
    pub fn file_name(&self) -> (r: &'static str)
        ensures
            r@ == match *self {
                Sample::Default => "sample.log"@,
                Sample::Heavy => "samples/heavy.log"@,
                Sample::Attack => "samples/attack.log"@,
                Sample::Sparse => "samples/sparse.log"@,
            },
    {
        match self {
            Sample::Default => "sample.log",
            Sample::Heavy => "samples/heavy.log",
            Sample::Attack => "samples/attack.log",
            Sample::Sparse => "samples/sparse.log",
        }
    }

    /// How the sample describes itself in a response.
    pub fn source(&self) -> (r: String)
        ensures
            r@ == match *self {
                Sample::Default => "sample.log \u{b7} 500 lines \u{b7} balanced demo"@,
                Sample::Heavy => "heavy.log \u{b7} 5,000 lines \u{b7} varied traffic"@,
                Sample::Attack => "attack.log \u{b7} suspicious activity pattern"@,
                Sample::Sparse => "sparse.log \u{b7} low-traffic profile"@,
            },
    {
        let mut s = String::new();
        match self {
            Sample::Default => push_str(&mut s, "sample.log \u{b7} 500 lines \u{b7} balanced demo"),
            Sample::Heavy => push_str(&mut s, "heavy.log \u{b7} 5,000 lines \u{b7} varied traffic"),
            Sample::Attack => push_str(&mut s, "attack.log \u{b7} suspicious activity pattern"),
            Sample::Sparse => push_str(&mut s, "sparse.log \u{b7} low-traffic profile"),
        }
        s
    }
}

} // verus!
