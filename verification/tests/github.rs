use passero::github::{access_token_url, device_code_url, poll_form, poll_result, refresh_form, refresh_result, PollResult, TokenOrError};
use passero::CoreError;

fn answer(error: Option<&str>, token: Option<&str>) -> TokenOrError {
    TokenOrError {
        error: error.map(|e| e.to_string()),
        access_token: token.map(|t| t.to_string()),
        refresh_token: Some("ghr_ref".into()),
        expires_in: Some(28800),
    }
}

#[test]
fn poll_pending_and_slow_down() {
    assert!(matches!(poll_result(answer(Some("authorization_pending"), None)).unwrap(), PollResult::Pending));
    assert!(matches!(poll_result(answer(Some("slow_down"), None)).unwrap(), PollResult::SlowDown));
}

#[test]
fn poll_denied_is_an_http_error() {
    match poll_result(answer(Some("access_denied"), None)) {
        Err(CoreError::Http(m)) => assert_eq!(m, "device flow: access_denied"),
        other => panic!("expected an error, got {other:?}"),
    }
}

#[test]
fn poll_gives_the_token() {
    match poll_result(answer(None, Some("ghu_tok"))).unwrap() {
        PollResult::Token(t) => {
            assert_eq!(t.access_token, "ghu_tok");
            assert_eq!(t.refresh_token.as_deref(), Some("ghr_ref"));
            assert_eq!(t.expires_in, Some(28800));
        }
        other => panic!("expected token, got {other:?}"),
    }
}

#[test]
fn missing_access_token_is_an_error() {
    let e = poll_result(answer(None, None)).unwrap_err();
    assert_eq!(e.message(), "http error: missing access_token");
    let e2 = refresh_result(answer(None, None)).unwrap_err();
    assert_eq!(e2.message(), "http error: missing access_token");
}

#[test]
fn refresh_gives_token_or_error() {
    assert_eq!(refresh_result(answer(None, Some("ghu_new"))).unwrap().access_token, "ghu_new");
    assert_eq!(refresh_result(answer(Some("bad_refresh_token"), Some("x"))).unwrap_err().message(), "http error: refresh: bad_refresh_token");
}

#[test]
fn request_addresses_and_forms() {
    assert_eq!(device_code_url("http://h"), "http://h/login/device/code");
    assert_eq!(access_token_url("http://h"), "http://h/login/oauth/access_token");
    let f = poll_form("client123", "dc123");
    assert_eq!(f[0], ("client_id".to_string(), "client123".to_string()));
    assert_eq!(f[1], ("device_code".to_string(), "dc123".to_string()));
    assert_eq!(f[2], ("grant_type".to_string(), "urn:ietf:params:oauth:grant-type:device_code".to_string()));
    let r = refresh_form("client123", "ghr_old");
    assert_eq!(r[1], ("grant_type".to_string(), "refresh_token".to_string()));
    assert_eq!(r[2], ("refresh_token".to_string(), "ghr_old".to_string()));
}
