//! Character classes, decimal numbers and string building blocks shared by
//! the log grammar, the sanitizers and the report formatting.
use vstd::prelude::*;

verus! {

/// The Unicode `White_Space` property: what `char::is_whitespace` and the
/// `\s` class of a Unicode regular expression accept.
pub open spec fn is_whitespace(c: char) -> bool {
    ||| ('\t' <= c && c <= '\r')
    ||| c == ' '
    ||| c == '\u{85}'
    ||| c == '\u{a0}'
    ||| c == '\u{1680}'
    ||| ('\u{2000}' <= c && c <= '\u{200a}')
    ||| c == '\u{2028}'
    ||| c == '\u{2029}'
    ||| c == '\u{202f}'
    ||| c == '\u{205f}'
    ||| c == '\u{3000}'
}

/// The general category `Cc`: what `char::is_control` accepts.
pub open spec fn is_control(c: char) -> bool {
    c <= '\u{1f}' || ('\u{7f}' <= c && c <= '\u{9f}')
}

pub open spec fn is_ascii_digit(c: char) -> bool {
    '0' <= c && c <= '9'
}

pub fn whitespace(c: char) -> (r: bool)
    ensures
        r == is_whitespace(c),
{
    ('\t' <= c && c <= '\r') || c == ' ' || c == '\u{85}' || c == '\u{a0}' || c == '\u{1680}' || (
    '\u{2000}' <= c && c <= '\u{200a}') || c == '\u{2028}' || c == '\u{2029}' || c == '\u{202f}'
        || c == '\u{205f}' || c == '\u{3000}'
}

pub fn control(c: char) -> (r: bool)
    ensures
        r == is_control(c),
{
    c <= '\u{1f}' || ('\u{7f}' <= c && c <= '\u{9f}')
}

pub fn ascii_digit(c: char) -> (r: bool)
    ensures
        r == is_ascii_digit(c),
{
    '0' <= c && c <= '9'
}

/// Value of one ASCII digit.
pub open spec fn digit_value(c: char) -> nat {
    ((c as int) - ('0' as int)) as nat
}

/// Value of a run of ASCII digits, most significant first.
pub open spec fn digits_value(t: Seq<char>) -> nat
    decreases t.len(),
{
    if t.len() == 0 {
        0
    } else {
        digits_value(t.drop_last()) * 10 + digit_value(t.last())
    }
}

pub open spec fn all_ascii_digits(t: Seq<char>) -> bool {
    forall|i: int| 0 <= i < t.len() ==> #[trigger] is_ascii_digit(t[i])
}

/// The digits that `str::parse` reads for an unsigned integer type: one
/// leading `+` is allowed and dropped.
pub open spec fn unsigned_digits(t: Seq<char>) -> Seq<char> {
    if t.len() > 0 && t[0] == '+' {
        t.drop_first()
    } else {
        t
    }
}

/// What `str::parse` gives for an unsigned integer type whose largest value
/// is `max`: an optional `+`, then at least one ASCII digit, and a value that
/// fits; anything else is an error.
pub open spec fn parse_unsigned(t: Seq<char>, max: nat) -> Option<nat> {
    let d = unsigned_digits(t);
    if d.len() > 0 && all_ascii_digits(d) && digits_value(d) <= max {
        Some(digits_value(d))
    } else {
        None
    }
}

/// A longer run of digits never has a smaller value.
pub proof fn lemma_digits_value_grows(t: Seq<char>, i: int, j: int)
    requires
        0 <= i <= j <= t.len(),
    ensures
        digits_value(t.subrange(0, i)) <= digits_value(t.subrange(0, j)),
    decreases j - i,
{
    if i < j {
        lemma_digits_value_grows(t, i, j - 1);
        assert(t.subrange(0, j).drop_last() =~= t.subrange(0, j - 1));
    }
}

/// Parses `v[start..end]` as `str::parse` parses an unsigned integer whose
/// largest value is `max`.
pub fn parse_decimal(v: &Vec<char>, start: usize, end: usize, max: u64) -> (r: Option<u64>)
    requires
        start <= end <= v.len(),
    ensures
        match r {
            Some(n) => parse_unsigned(v@.subrange(start as int, end as int), max as nat) == Some(
                n as nat,
            ),
            None => parse_unsigned(v@.subrange(start as int, end as int), max as nat) is None,
        },
{
    let ghost t = v@.subrange(start as int, end as int);
    let mut ds = start;
    if start < end && v[start] == '+' {
        ds = start + 1;
    }
    let ghost d = v@.subrange(ds as int, end as int);
    assert(unsigned_digits(t) =~= d);
    if ds == end {
        return None;
    }
    let mut i = ds;
    while i < end
        invariant
            start <= ds <= i <= end <= v.len(),
            d == v@.subrange(ds as int, end as int),
            unsigned_digits(v@.subrange(start as int, end as int)) == d,
            forall|k: int| 0 <= k < i - ds ==> #[trigger] is_ascii_digit(d[k]),
        decreases end - i,
    {
        if !ascii_digit(v[i]) {
            assert(d[i - ds] == v@[i as int]);
            assert(!is_ascii_digit(d[i - ds]));
            assert(!all_ascii_digits(d));
            return None;
        }
        i = i + 1;
    }
    assert(all_ascii_digits(d));
    let mut acc: u64 = 0;
    let mut i = ds;
    while i < end
        invariant
            start <= ds <= i <= end <= v.len(),
            d == v@.subrange(ds as int, end as int),
            unsigned_digits(v@.subrange(start as int, end as int)) == d,
            all_ascii_digits(d),
            acc as nat == digits_value(d.subrange(0, i - ds)),
            acc <= max,
        decreases end - i,
    {
        let c = v[i];
        assert(c == d[i - ds]);
        assert(is_ascii_digit(d[i - ds]));
        let dig = (c as u32 - '0' as u32) as u64;
        let next: u128 = acc as u128 * 10 + dig as u128;
        proof {
            assert(d.subrange(0, i - ds + 1).drop_last() =~= d.subrange(0, i - ds));
            assert(d.subrange(0, i - ds + 1).last() == c);
            assert(dig as nat == digit_value(c));
            assert(digits_value(d.subrange(0, i - ds + 1)) == next);
        }
        if next > max as u128 {
            proof {
                lemma_digits_value_grows(d, i - ds + 1, d.len() as int);
                assert(d.subrange(0, d.len() as int) =~= d);
                assert(digits_value(d) > max);
            }
            return None;
        }
        acc = next as u64;
        i = i + 1;
    }
    assert(d.subrange(0, end - ds) =~= d);
    Some(acc)
}

/// Appends one character; `String::push`.
#[verifier::external_body]
pub(crate) fn push_char(s: &mut String, c: char)
    ensures
        final(s)@ == old(s)@.push(c),
{
    s.push(c);
}

/// Appends a string slice.
pub fn push_str(s: &mut String, t: &str)
    ensures
        final(s)@ == old(s)@ + t@,
{
    s.append(t);
}

/// The characters of a string slice, in order.
pub fn chars_of(s: &str) -> (v: Vec<char>)
    ensures
        v@ == s@,
{
    let mut v: Vec<char> = Vec::new();
    let ghost all = s@;
    for c in it: s.chars()
        invariant
            it.seq() == all,
            v@ == all.take(it.index() as int),
    {
        assert(all.take(it.index() + 1) =~= all.take(it.index() as int).push(c));
        v.push(c);
    }
    assert(all.take(all.len() as int) =~= all);
    v
}

/// A new string holding `v[start..end]`.
pub fn string_from(v: &Vec<char>, start: usize, end: usize) -> (s: String)
    requires
        start <= end <= v.len(),
    ensures
        s@ == v@.subrange(start as int, end as int),
{
    let mut s = String::new();
    let mut i = start;
    while i < end
        invariant
            start <= i <= end <= v.len(),
            s@ == v@.subrange(start as int, i as int),
        decreases end - i,
    {
        push_char(&mut s, v[i]);
        assert(v@.subrange(start as int, i + 1) =~= v@.subrange(start as int, i as int).push(
            v@[i as int],
        ));
        i = i + 1;
    }
    s
}

/// A new vector holding `v[start..end]`.
pub fn sub_chars(v: &Vec<char>, start: usize, end: usize) -> (r: Vec<char>)
    requires
        start <= end <= v.len(),
    ensures
        r@ == v@.subrange(start as int, end as int),
{
    let mut r: Vec<char> = Vec::new();
    let mut i = start;
    while i < end
        invariant
            start <= i <= end <= v.len(),
            r@ == v@.subrange(start as int, i as int),
        decreases end - i,
    {
        r.push(v[i]);
        assert(v@.subrange(start as int, i + 1) =~= v@.subrange(start as int, i as int).push(
            v@[i as int],
        ));
        i = i + 1;
    }
    r
}

/// The first index at or after `i` that holds a whitespace character, or the
/// end of `s`.
#[verifier::opaque]
pub open spec fn token_end(s: Seq<char>, i: int) -> int
    decreases s.len() - i,
{
    if i < 0 || i >= s.len() || is_whitespace(s[i]) {
        i
    } else {
        token_end(s, i + 1)
    }
}

/// The first index at or after `i` that holds `c`, or the end of `s`.
#[verifier::opaque]
pub open spec fn char_end(s: Seq<char>, i: int, c: char) -> int
    decreases s.len() - i,
{
    if i < 0 || i >= s.len() || s[i] == c {
        i
    } else {
        char_end(s, i + 1, c)
    }
}

/// Looking for `c` in a suffix of `s` is looking for it in `s` from there on.
pub proof fn lemma_char_end_suffix(s: Seq<char>, a: int, i: int, c: char)
    requires
        0 <= a <= s.len(),
        0 <= i,
    ensures
        char_end(s.subrange(a, s.len() as int), i, c) == char_end(s, a + i, c) - a,
    decreases s.len() - (a + i),
{
    reveal(char_end);
    if a + i < s.len() && s[a + i] != c {
        lemma_char_end_suffix(s, a, i + 1, c);
    }
}

pub proof fn lemma_token_end_bounds(s: Seq<char>, i: int)
    requires
        0 <= i,
    ensures
        i <= token_end(s, i),
        i <= s.len() ==> token_end(s, i) <= s.len(),
        forall|k: int| i <= k < token_end(s, i) ==> !is_whitespace(#[trigger] s[k]),
        token_end(s, i) < s.len() ==> is_whitespace(s[token_end(s, i)]),
    decreases s.len() - i,
{
    reveal(token_end);
    if i < s.len() && !is_whitespace(s[i]) {
        lemma_token_end_bounds(s, i + 1);
    }
}

pub proof fn lemma_char_end_bounds(s: Seq<char>, i: int, c: char)
    requires
        0 <= i,
    ensures
        i <= char_end(s, i, c),
        i <= s.len() ==> char_end(s, i, c) <= s.len(),
        forall|k: int| i <= k < char_end(s, i, c) ==> #[trigger] s[k] != c,
        char_end(s, i, c) < s.len() ==> s[char_end(s, i, c)] == c,
    decreases s.len() - i,
{
    reveal(char_end);
    if i < s.len() && s[i] != c {
        lemma_char_end_bounds(s, i + 1, c);
    }
}

/// Index of the end of the run of non-whitespace characters that starts at `i`.
pub fn scan_token(v: &Vec<char>, i: usize) -> (j: usize)
    requires
        i <= v.len(),
    ensures
        j == token_end(v@, i as int),
        i <= j <= v.len(),
{
    let mut j = i;
    proof {
        reveal(token_end);
    }
    while j < v.len() && !whitespace(v[j])
        invariant
            i <= j <= v.len(),
            token_end(v@, i as int) == token_end(v@, j as int),
        decreases v.len() - j,
    {
        proof {
            reveal(token_end);
        }
        j = j + 1;
    }
    proof {
        reveal(token_end);
    }
    j
}

/// Index of the first `c` at or after `i`, or the length of `v`.
pub fn scan_to(v: &Vec<char>, i: usize, c: char) -> (j: usize)
    requires
        i <= v.len(),
    ensures
        j == char_end(v@, i as int, c),
        i <= j <= v.len(),
{
    let mut j = i;
    while j < v.len() && v[j] != c
        invariant
            i <= j <= v.len(),
            char_end(v@, i as int, c) == char_end(v@, j as int, c),
        decreases v.len() - j,
    {
        proof {
            reveal(char_end);
        }
        j = j + 1;
    }
    proof {
        reveal(char_end);
    }
    j
}

/// The decimal digits of `n`, most significant first, without leading zeros.
pub open spec fn decimal_of(n: nat) -> Seq<char>
    decreases n,
{
    if n < 10 {
        seq![decimal_digit(n)]
    } else {
        decimal_of(n / 10).push(decimal_digit(n % 10))
    }
}

/// The ASCII digit of a value below 10.
pub open spec fn decimal_digit(d: nat) -> char {
    ((d + 48) as u8) as char
}

fn digit_char(d: u64) -> (c: char)
    requires
        d < 10,
    ensures
        c == decimal_digit(d as nat),
{
    (d as u8 + 48u8) as char
}

/// A value below ten is written as one ASCII digit that reads back as it.
pub proof fn lemma_decimal_digit(d: nat)
    requires
        d < 10,
    ensures
        is_ascii_digit(decimal_digit(d)),
        digit_value(decimal_digit(d)) == d,
{
    let x: u8 = (d + 48) as u8;
    assert(x as int == d + 48);
    assert(decimal_digit(d) as int == x as int);
}

/// The decimal digits of a number are ASCII digits that read back as the
/// number.
pub proof fn lemma_decimal_reads_back(n: nat)
    ensures
        decimal_of(n).len() >= 1,
        all_ascii_digits(decimal_of(n)),
        digits_value(decimal_of(n)) == n,
    decreases n,
{
    if n < 10 {
        lemma_decimal_digit(n);
        assert(decimal_of(n).drop_last() =~= Seq::<char>::empty());
        assert(digits_value(Seq::<char>::empty()) == 0);
        assert(decimal_of(n).last() == decimal_digit(n));
    } else {
        lemma_decimal_digit(n % 10);
        lemma_decimal_reads_back(n / 10);
        assert(decimal_of(n).drop_last() =~= decimal_of(n / 10));
        assert(decimal_of(n).last() == decimal_digit(n % 10));
        assert(digits_value(decimal_of(n)) == digits_value(decimal_of(n / 10)) * 10 + digit_value(
            decimal_digit(n % 10),
        ));
        assert((n / 10) * 10 + n % 10 == n);
    }
}

/// Different numbers are written differently.
pub proof fn lemma_decimal_injective(a: nat, b: nat)
    ensures
        decimal_of(a) == decimal_of(b) ==> a == b,
{
    lemma_decimal_reads_back(a);
    lemma_decimal_reads_back(b);
}

/// Writes `n` in decimal, as `{}` formats an unsigned integer.
pub fn decimal(n: u64) -> (r: String)
    ensures
        r@ == decimal_of(n as nat),
    decreases n,
{
    if n < 10 {
        let mut s = String::new();
        push_char(&mut s, digit_char(n));
        assert(s@ =~= seq![decimal_digit(n as nat)]);
        s
    } else {
        let mut s = decimal(n / 10);
        push_char(&mut s, digit_char(n % 10));
        s
    }
}

/// Appends `n` in decimal.
pub fn push_decimal(s: &mut String, n: u64)
    ensures
        final(s)@ == old(s)@ + decimal_of(n as nat),
{
    let d = decimal(n);
    push_str(s, d.as_str());
}

/// Whether every character is whitespace (so `str::trim` leaves nothing).
pub open spec fn is_blank(s: Seq<char>) -> bool {
    forall|i: int| 0 <= i < s.len() ==> is_whitespace(#[trigger] s[i])
}

/// Whether `s.trim()` is empty.
pub fn blank(s: &str) -> (r: bool)
    ensures
        r == is_blank(s@),
{
    let v = chars_of(s);
    let mut i: usize = 0;
    while i < v.len()
        invariant
            v@ == s@,
            i <= v.len(),
            forall|j: int| 0 <= j < i ==> is_whitespace(#[trigger] v@[j]),
        decreases v.len() - i,
    {
        if !whitespace(v[i]) {
            return false;
        }
        i = i + 1;
    }
    true
}

} // verus!
