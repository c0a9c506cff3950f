//! Cleaning text that comes from outside (log fields, upload file names)
//! before it is echoed into a prompt or a response.
use vstd::prelude::*;
use crate::text::{chars_of, control, is_control, push_char};

verus! {

/// Longest log field (in characters) that enters a prompt.
pub const MAX_FIELD_LEN: usize = 200;

/// Longest file name (in characters) that is echoed back.
pub const MAX_FILENAME_LEN: usize = 128;

/// The characters of `s` that `keep` accepts, in order.
pub open spec fn keep_chars(s: Seq<char>, keep: spec_fn(char) -> bool) -> Seq<char>
    decreases s.len(),
{
    if s.len() == 0 {
        Seq::empty()
    } else {
        let r = keep_chars(s.drop_last(), keep);
        if keep(s.last()) {
            r.push(s.last())
        } else {
            r
        }
    }
}

/// At most the first `n` elements of `s`.
pub open spec fn take_at_most<A>(s: Seq<A>, n: nat) -> Seq<A> {
    if s.len() <= n {
        s
    } else {
        s.take(n as int)
    }
}

pub open spec fn not_control(c: char) -> bool {
    !is_control(c)
}

pub open spec fn filename_char(c: char) -> bool {
    !is_control(c) && c != '/' && c != '\\'
}

/// A log field as it may enter a prompt: control characters removed, at
/// most [`MAX_FIELD_LEN`] characters kept, and `…` appended when anything
/// was removed or cut. (The kept characters are a subsequence of the input,
/// so "fewer characters" and "fewer UTF-8 bytes" say the same here.)
pub open spec fn sanitized(s: Seq<char>) -> Seq<char> {
    let cleaned = take_at_most(keep_chars(s, |c: char| not_control(c)), MAX_FIELD_LEN as nat);
    if cleaned.len() < s.len() {
        cleaned.push('\u{2026}')
    } else {
        cleaned
    }
}

/// A file name as it may be echoed: control characters and path separators
/// removed, at most [`MAX_FILENAME_LEN`] characters kept, and `uploaded`
/// in place of a name that is left empty.
pub open spec fn sanitized_filename(s: Seq<char>) -> Seq<char> {
    let cleaned = take_at_most(
        keep_chars(s, |c: char| filename_char(c)),
        MAX_FILENAME_LEN as nat,
    );
    if cleaned.len() == 0 {
        seq!['u', 'p', 'l', 'o', 'a', 'd', 'e', 'd']
    } else {
        cleaned
    }
}

pub proof fn lemma_keep_chars_len(s: Seq<char>, keep: spec_fn(char) -> bool)
    ensures
        keep_chars(s, keep).len() <= s.len(),
        forall|i: int|
            0 <= i < keep_chars(s, keep).len() ==> keep(#[trigger] keep_chars(s, keep)[i]),
    decreases s.len(),
{
    if s.len() > 0 {
        lemma_keep_chars_len(s.drop_last(), keep);
    }
}

/// Characters of `s` that `keep` accepts, at most `limit` of them, and
/// whether the full filtered text was longer than `limit`.
fn filter_limited(s: &str, keep_filename: bool, limit: usize) -> (r: (String, usize, usize))
    ensures
        r.0@ == take_at_most(
            keep_chars(
                s@,
                if keep_filename {
                    |c: char| filename_char(c)
                } else {
                    |c: char| not_control(c)
                },
            ),
            limit as nat,
        ),
        r.1 == r.0@.len(),
        r.2 == s@.len(),
{
    let ghost keep: spec_fn(char) -> bool = if keep_filename {
        |c: char| filename_char(c)
    } else {
        |c: char| not_control(c)
    };
    let v = chars_of(s);
    let mut out = String::new();
    let mut kept: usize = 0;
    let mut out_len: usize = 0;
    let mut i: usize = 0;
    while i < v.len()
        invariant
            v@ == s@,
            i <= v.len(),
            forall|c: char|
                #[trigger] keep(c) == (if keep_filename {
                    filename_char(c)
                } else {
                    not_control(c)
                }),
            kept == keep_chars(v@.take(i as int), keep).len(),
            kept <= i,
            out_len == out@.len(),
            out@ == take_at_most(keep_chars(v@.take(i as int), keep), limit as nat),
        decreases v.len() - i,
    {
        let c = v[i];
        let ok = if keep_filename {
            !control(c) && c != '/' && c != '\\'
        } else {
            !control(c)
        };
        proof {
            assert(v@.take(i + 1).drop_last() =~= v@.take(i as int));
            assert(v@.take(i + 1).last() == c);
            assert(ok == keep(c));
        }
        if ok {
            if kept < limit {
                push_char(&mut out, c);
                out_len = out_len + 1;
                proof {
                    let before = keep_chars(v@.take(i as int), keep);
                    assert(take_at_most(before.push(c), limit as nat) =~= before.push(c));
                }
            } else {
                proof {
                    let before = keep_chars(v@.take(i as int), keep);
                    assert(take_at_most(before.push(c), limit as nat) =~= take_at_most(
                        before,
                        limit as nat,
                    ));
                }
            }
            kept = kept + 1;
        }
        i = i + 1;
    }
    assert(v@.take(v.len() as int) =~= v@);
    (out, out_len, v.len())
}

/// Strips control characters and truncates a log field before it enters a
/// prompt.
pub fn sanitize(s: &str) -> (r: String)
    ensures
        r@ == sanitized(s@),
        (s@.len() <= MAX_FIELD_LEN && forall|i: int| 0 <= i < s@.len() ==> !is_control(
            #[trigger] s@[i],
        )) ==> r@ == s@,
{
    proof {
        lemma_sanitized_clean(s@);
    }
    let (cleaned, kept, n) = filter_limited(s, false, MAX_FIELD_LEN);
    proof {
        let keep = |c: char| not_control(c);
        lemma_keep_chars_len(s@, keep);
    }
    if kept < n {
        let mut out = cleaned;
        push_char(&mut out, '\u{2026}');
        out
    } else {
        cleaned
    }
}

/// Strips path separators and control characters from a user-supplied file
/// name, so that it never escapes into a path or breaks terminal output.
pub fn sanitize_filename(name: &str) -> (r: String)
    ensures
        r@ == sanitized_filename(name@),
        (0 < name@.len() <= MAX_FILENAME_LEN && forall|i: int|
            0 <= i < name@.len() ==> !is_control(#[trigger] name@[i]) && name@[i] != '/' && name@[i]
                != '\\') ==> r@ == name@,
{
    proof {
        lemma_sanitized_filename_keeps_clean(name@);
    }
    let (cleaned, kept, _n) = filter_limited(name, true, MAX_FILENAME_LEN);
    if kept == 0 {
        let mut out = String::new();
        crate::text::push_str(&mut out, "uploaded");
        proof {
            reveal_strlit("uploaded");
        }
        assert(out@ =~= seq!['u', 'p', 'l', 'o', 'a', 'd', 'e', 'd']);
        out
    } else {
        cleaned
    }
}

/// A sanitized field holds no control character and at most
/// [`MAX_FIELD_LEN`] + 1 characters; text with no control character and at
/// most [`MAX_FIELD_LEN`] characters is left as it is.
pub proof fn lemma_sanitized_clean(s: Seq<char>)
    ensures
        forall|i: int| 0 <= i < sanitized(s).len() ==> !is_control(#[trigger] sanitized(s)[i]),
        sanitized(s).len() <= MAX_FIELD_LEN + 1,
        (s.len() <= MAX_FIELD_LEN && forall|i: int| 0 <= i < s.len() ==> !is_control(
            #[trigger] s[i],
        )) ==> sanitized(s) == s,
{
    let keep = |c: char| not_control(c);
    lemma_keep_chars_len(s, keep);
    if s.len() <= MAX_FIELD_LEN && forall|i: int| 0 <= i < s.len() ==> !is_control(#[trigger] s[i]) {
        lemma_keep_chars_all(s, keep);
    }
}

/// Filtering keeps everything when everything passes.
pub proof fn lemma_keep_chars_all(s: Seq<char>, keep: spec_fn(char) -> bool)
    requires
        forall|i: int| 0 <= i < s.len() ==> keep(#[trigger] s[i]),
    ensures
        keep_chars(s, keep) == s,
    decreases s.len(),
{
    if s.len() > 0 {
        lemma_keep_chars_all(s.drop_last(), keep);
        assert(s.drop_last().push(s.last()) =~= s);
    }
}

/// A sanitized file name is never empty, holds at most
/// [`MAX_FILENAME_LEN`] characters and no control character or path
/// separator.
pub proof fn lemma_sanitized_filename_clean(s: Seq<char>)
    ensures
        0 < sanitized_filename(s).len() <= MAX_FILENAME_LEN,
        forall|i: int|
            0 <= i < sanitized_filename(s).len() ==> filename_char(
                #[trigger] sanitized_filename(s)[i],
            ),
{
    let keep = |c: char| filename_char(c);
    lemma_keep_chars_len(s, keep);
}

/// Sanitizing a sanitized field changes nothing.
pub proof fn lemma_sanitized_idempotent(s: Seq<char>)
    ensures
        sanitized(sanitized(s)) == sanitized(s),
{
    let keep = |c: char| not_control(c);
    let t = sanitized(s);
    lemma_sanitized_clean(s);
    assert forall|i: int| 0 <= i < t.len() implies keep(#[trigger] t[i]) by {
        assert(!is_control(t[i]));
    }
    lemma_keep_chars_all(t, keep);
    lemma_keep_chars_len(s, keep);
    let cleaned = take_at_most(keep_chars(s, keep), MAX_FIELD_LEN as nat);
    if cleaned.len() < s.len() {
        assert(t == cleaned.push('\u{2026}'));
        if t.len() > MAX_FIELD_LEN {
            assert(cleaned.len() == MAX_FIELD_LEN);
            assert(t.take(MAX_FIELD_LEN as int) =~= cleaned);
            assert(sanitized(t) =~= cleaned.push('\u{2026}'));
        }
    }
}

/// Sanitizing a sanitized file name changes nothing.
pub proof fn lemma_sanitized_filename_idempotent(s: Seq<char>)
    ensures
        sanitized_filename(sanitized_filename(s)) == sanitized_filename(s),
{
    let keep = |c: char| filename_char(c);
    let t = sanitized_filename(s);
    lemma_sanitized_filename_clean(s);
    assert forall|i: int| 0 <= i < t.len() implies keep(#[trigger] t[i]) by {}
    lemma_keep_chars_all(t, keep);
}

/// A file name of at most [`MAX_FILENAME_LEN`] characters, none of them a
/// control character, `/` or `\\`, is echoed as it is (an empty name becomes
/// `uploaded`); every other character of a name, spaces included, is kept.
pub proof fn lemma_sanitized_filename_keeps_clean(s: Seq<char>)
    ensures
        (0 < s.len() <= MAX_FILENAME_LEN && forall|i: int|
            0 <= i < s.len() ==> !is_control(#[trigger] s[i]) && s[i] != '/' && s[i] != '\\')
            ==> sanitized_filename(s) == s,
        s.len() == 0 ==> sanitized_filename(s) == seq!['u', 'p', 'l', 'o', 'a', 'd', 'e', 'd'],
{
    let keep = |c: char| filename_char(c);
    if 0 < s.len() <= MAX_FILENAME_LEN && forall|i: int|
        0 <= i < s.len() ==> !is_control(#[trigger] s[i]) && s[i] != '/' && s[i] != '\\' {
        lemma_keep_chars_all(s, keep);
    }
}

} // verus!
