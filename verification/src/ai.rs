//! The decisions around an AI summary request: whether a key is usable,
//! how each failure reads and which HTTP status answers it, and how a reply
//! becomes a summary.
use vstd::prelude::*;
use crate::text::{blank, decimal_of, is_blank, push_char, push_decimal, push_str};

verus! {

/// The model that writes the summaries.
pub const MODEL: &'static str = "llama-3.3-70b-versatile";

/// The provider that serves the model.
pub const PROVIDER: &'static str = "groq";

/// A technical and a plain-language summary of a log's statistics.
#[derive(Clone)]
pub struct AiSummary {
    pub technical: String,
    pub plain: String,
    pub input_tokens: u64,
    pub output_tokens: u64,
    pub provider: String,
    pub model: String,
    pub cached: bool,
}

/// Why a summary could not be had.
pub enum AiError {
    NoApiKey,
    Network(String),
    Api { status: u16, body: String },
    Parse(String),
}

/// How an error reads.
pub open spec fn error_text(e: AiError) -> Seq<char> {
    match e {
        AiError::NoApiKey =>
            "GROQ_API_KEY not set on the server. Sign up free at console.groq.com to get a key."@,
        AiError::Network(d) => "network error contacting Groq API: "@ + d@,
        AiError::Api { status, body } => "Groq API returned "@ + decimal_of(status as nat) + ": "@
            + body@,
        AiError::Parse(d) => "could not parse Groq response: "@ + d@,
    }
}

/// The HTTP status and text with which the summary endpoint answers an
/// error: 503 where no key is configured, 502 for every upstream failure.
pub open spec fn error_reply(e: AiError) -> (u16, Seq<char>) {
    match e {
        AiError::NoApiKey => (503, error_text(e)),
        AiError::Network(_) => (502, error_text(e)),
        AiError::Api { status, body } => (502, "Groq API "@ + decimal_of(status as nat) + ": "@
            + body@),
        AiError::Parse(_) => (502, error_text(e)),
    }
}

impl AiError {
    /// The error as text (what `Display` shows).
    pub fn message(&self) -> (r: String)
        ensures
            r@ == error_text(*self),
    {
        let mut out = String::new();
        match self {
            AiError::NoApiKey => {
                push_str(
                    &mut out,
                    "GROQ_API_KEY not set on the server. Sign up free at console.groq.com to get a key.",
                );
            },
            AiError::Network(d) => {
                push_str(&mut out, "network error contacting Groq API: ");
                push_str(&mut out, d.as_str());
            },
            AiError::Api { status, body } => {
                push_str(&mut out, "Groq API returned ");
                push_decimal(&mut out, *status as u64);
                push_str(&mut out, ": ");
                push_str(&mut out, body.as_str());
            },
            AiError::Parse(d) => {
                push_str(&mut out, "could not parse Groq response: ");
                push_str(&mut out, d.as_str());
            },
        }
        assert(out@ =~= error_text(*self));
        out
    }

    /// The HTTP status code and body with which the summary endpoint
    /// answers this error.
    pub fn reply(&self) -> (r: (u16, String))
        ensures
            r.0 == error_reply(*self).0,
            r.1@ == error_reply(*self).1,
    {
        match self {
            AiError::NoApiKey => (503, self.message()),
            AiError::Network(_) => (502, self.message()),
            AiError::Api { status, body } => {
                let mut out = String::new();
                push_str(&mut out, "Groq API ");
                push_decimal(&mut out, *status as u64);
                push_str(&mut out, ": ");
                push_str(&mut out, body.as_str());
                assert(out@ =~= error_reply(*self).1);
                (502, out)
            },
            AiError::Parse(_) => (502, self.message()),
        }
    }
}

/// The configured key where it is set and not blank; `NoApiKey` otherwise.
pub fn api_key_from(raw: Option<String>) -> (r: Result<String, AiError>)
    ensures
        match raw {
            Some(k) => if is_blank(k@) {
                r matches Err(AiError::NoApiKey)
            } else {
                r matches Ok(key) && key@ == k@
            },
            None => r matches Err(AiError::NoApiKey),
        },
{
    match raw {
        Some(k) => {
            if blank(k.as_str()) {
                Err(AiError::NoApiKey)
            } else {
                Ok(k)
            }
        },
        None => Err(AiError::NoApiKey),
    }
}

/// Whether an HTTP status is a success (2xx).
pub open spec fn is_success(status: u16) -> bool {
    200 <= status <= 299
}

/// A reply with a status other than 2xx is an `Api` error carrying the
/// status and the body.
pub fn check_reply_status(status: u16, body: String) -> (r: Result<(), AiError>)
    ensures
        is_success(status) ==> r is Ok,
        !is_success(status) ==> (r matches Err(AiError::Api { status: s, body: b }) && s == status
            && b@ == body@),
{
    if 200 <= status && status <= 299 {
        Ok(())
    } else {
        Err(AiError::Api { status, body })
    }
}

/// The error for a reply body that is not the expected JSON.
pub fn body_parse_error(detail: &str) -> (r: AiError)
    ensures
        r matches AiError::Parse(m) && m@ == "response body: "@ + detail@,
{
    let mut m = String::new();
    push_str(&mut m, "response body: ");
    push_str(&mut m, detail);
    AiError::Parse(m)
}

/// The message content of the first choice, or a `Parse` error where the
/// reply has none.
pub fn require_content(content: Option<String>) -> (r: Result<String, AiError>)
    ensures
        match content {
            Some(c) => r matches Ok(x) && x@ == c@,
            None => r matches Err(AiError::Parse(m)) && m@ == "no message content in response"@,
        },
{
    match content {
        Some(c) => Ok(c),
        None => {
            let mut m = String::new();
            push_str(&mut m, "no message content in response");
            Err(AiError::Parse(m))
        },
    }
}

/// How many characters of a bad reply an error message quotes.
pub const QUOTED_REPLY_LEN: usize = 200;

/// The error for message content that is not the expected JSON object: the
/// parser's complaint and the first [`QUOTED_REPLY_LEN`] characters of the
/// content.
pub fn structured_output_error(detail: &str, content: &str) -> (r: AiError)
    ensures
        r matches AiError::Parse(m) && m@ == "structured-output JSON: "@ + detail@ + " -- raw: "@
            + crate::sanitize::take_at_most(content@, QUOTED_REPLY_LEN as nat),
{
    let mut m = String::new();
    push_str(&mut m, "structured-output JSON: ");
    push_str(&mut m, detail);
    push_str(&mut m, " -- raw: ");
    let ghost before = m@;
    let v = crate::text::chars_of(content);
    let mut i: usize = 0;
    while i < v.len() && i < QUOTED_REPLY_LEN
        invariant
            v@ == content@,
            i <= v.len(),
            i <= QUOTED_REPLY_LEN,
            m@ == before + v@.take(i as int),
        decreases v.len() - i,
    {
        push_char(&mut m, v[i]);
        assert(v@.take(i + 1) =~= v@.take(i as int).push(v@[i as int]));
        i = i + 1;
    }
    assert(v@.take(i as int) =~= crate::sanitize::take_at_most(content@, QUOTED_REPLY_LEN as nat));
    AiError::Parse(m)
}

/// The summary a successful reply yields: its two texts and token counts,
/// marked as not cached.
pub fn summary_from_reply(
    technical: String,
    plain: String,
    input_tokens: u64,
    output_tokens: u64,
) -> (r: AiSummary)
    ensures
        r.technical@ == technical@,
        r.plain@ == plain@,
        r.input_tokens == input_tokens,
        r.output_tokens == output_tokens,
        r.provider@ == PROVIDER@,
        r.model@ == MODEL@,
        !r.cached,
{
    let mut provider = String::new();
    push_str(&mut provider, PROVIDER);
    let mut model = String::new();
    push_str(&mut model, MODEL);
    AiSummary { technical, plain, input_tokens, output_tokens, provider, model, cached: false }
}

} // verus!
