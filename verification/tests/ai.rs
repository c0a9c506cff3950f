use analyzer_core::ai::{
    api_key_from, body_parse_error, check_reply_status, require_content, structured_output_error,
    summary_from_reply, MODEL,
};
use analyzer_core::AiError;

fn text(e: &AiError) -> String {
    e.message()
}

#[test]
fn error_messages() {
    assert_eq!(
        text(&AiError::NoApiKey),
        "GROQ_API_KEY not set on the server. Sign up free at console.groq.com to get a key."
    );
    assert_eq!(
        text(&AiError::Network("timed out".to_string())),
        "network error contacting Groq API: timed out"
    );
    assert_eq!(
        text(&AiError::Api { status: 429, body: "slow down".to_string() }),
        "Groq API returned 429: slow down"
    );
    assert_eq!(text(&AiError::Parse("x".to_string())), "could not parse Groq response: x");
}

#[test]
fn error_replies_use_503_and_502() {
    assert_eq!(AiError::NoApiKey.reply().0, 503);
    assert_eq!(AiError::Network("n".to_string()).reply().0, 502);
    let (code, body) = AiError::Api { status: 500, body: "oops".to_string() }.reply();
    assert_eq!(code, 502);
    assert_eq!(body, "Groq API 500: oops");
    let (code, body) = AiError::Parse("p".to_string()).reply();
    assert_eq!(code, 502);
    assert_eq!(body, "could not parse Groq response: p");
}

#[test]
fn api_key_must_be_set_and_not_blank() {
    assert!(matches!(api_key_from(None), Err(AiError::NoApiKey)));
    assert!(matches!(api_key_from(Some(String::new())), Err(AiError::NoApiKey)));
    assert!(matches!(api_key_from(Some(" \t\n".to_string())), Err(AiError::NoApiKey)));
    match api_key_from(Some(" key ".to_string())) {
        Ok(k) => assert_eq!(k, " key "),
        Err(_) => panic!("a key with text must be accepted"),
    }
}

#[test]
fn reply_status_outside_2xx_is_api_error() {
    assert!(check_reply_status(200, String::new()).is_ok());
    assert!(check_reply_status(299, String::new()).is_ok());
    match check_reply_status(401, "denied".to_string()) {
        Err(AiError::Api { status, body }) => {
            assert_eq!(status, 401);
            assert_eq!(body, "denied");
        }
        _ => panic!("expected an Api error"),
    }
    assert!(check_reply_status(300, String::new()).is_err());
    assert!(check_reply_status(199, String::new()).is_err());
}

#[test]
fn reply_parsing_errors() {
    match body_parse_error("EOF") {
        AiError::Parse(m) => assert_eq!(m, "response body: EOF"),
        _ => panic!(),
    }
    match require_content(None) {
        Err(AiError::Parse(m)) => assert_eq!(m, "no message content in response"),
        _ => panic!(),
    }
    assert_eq!(require_content(Some("c".to_string())).ok(), Some("c".to_string()));
    let long = "q".repeat(250);
    match structured_output_error("bad", &long) {
        AiError::Parse(m) => {
            assert_eq!(m, format!("structured-output JSON: bad -- raw: {}", "q".repeat(200)))
        }
        _ => panic!(),
    }
}

#[test]
fn summary_from_reply_fills_provider_and_model() {
    let s = summary_from_reply("t".to_string(), "p".to_string(), 3, 4);
    assert_eq!(s.technical, "t");
    assert_eq!(s.plain, "p");
    assert_eq!(s.input_tokens, 3);
    assert_eq!(s.output_tokens, 4);
    assert_eq!(s.provider, "groq");
    assert_eq!(s.model, MODEL);
    assert!(!s.cached);
}
