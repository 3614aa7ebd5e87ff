use vstd::prelude::*;

use crate::config::opt_text;
use crate::text::{append_str, chars_of, same_chars, string_of};
use crate::CoreError;

verus! {

/// GitHub's answer to a device code request.
#[derive(Debug)]
pub struct DeviceCode {
    pub device_code: String,
    pub user_code: String,
    pub verification_uri: String,
    pub expires_in: u64,
    pub interval: u64,
}

/// An access token, with the token to refresh it.
#[derive(Debug)]
pub struct Token {
    pub access_token: String,
    pub refresh_token: Option<String>,
    pub expires_in: Option<u64>,
}

/// Where a device authorization stands.
#[derive(Debug)]
pub enum PollResult {
    Pending,
    SlowDown,
    Token(Token),
}

/// GitHub's answer to a token request: an error code, or a token.
#[derive(Debug)]
pub struct TokenOrError {
    pub error: Option<String>,
    pub access_token: Option<String>,
    pub refresh_token: Option<String>,
    pub expires_in: Option<u64>,
}

/// The token that an answer without error carries (when it has an access
/// token).
pub open spec fn token_of(resp: TokenOrError, t: Token) -> bool {
    &&& resp.access_token matches Some(a) && t.access_token@ == a@
    &&& opt_text(t.refresh_token) == opt_text(resp.refresh_token)
    &&& t.expires_in == resp.expires_in
}

fn take_token(resp: TokenOrError) -> (r: Result<Token, CoreError>)
    requires
        resp.error is None,
    ensures
        resp.access_token is None ==> (r matches Err(CoreError::Http(m)) && m@ == "missing access_token"@),
        resp.access_token is Some ==> (r matches Ok(t) && token_of(resp, t)),
{
    match resp.access_token {
        Some(a) => Ok(Token { access_token: a, refresh_token: resp.refresh_token, expires_in: resp.expires_in }),
        None => Err(CoreError::Http("missing access_token".to_owned())),
    }
}

/// What a poll of the device flow tells: still pending, slow down, or the
/// token; another error code is refused as `Http("device flow: <code>")`,
/// and an answer without error and without token as
/// `Http("missing access_token")`.
pub fn poll_result(resp: TokenOrError) -> (r: Result<PollResult, CoreError>)
    ensures
        match resp.error {
            Some(e) => if e@ == "authorization_pending"@ {
                r matches Ok(PollResult::Pending)
            } else if e@ == "slow_down"@ {
                r matches Ok(PollResult::SlowDown)
            } else {
                r matches Err(CoreError::Http(m)) && m@ == "device flow: "@ + e@
            },
            None => if resp.access_token is None {
                r matches Err(CoreError::Http(m)) && m@ == "missing access_token"@
            } else {
                r matches Ok(PollResult::Token(t)) && token_of(resp, t)
            },
        },
{
    match &resp.error {
        Some(e) => {
            let ec = chars_of(e.as_str());
            if same_chars(&ec, &chars_of("authorization_pending")) {
                Ok(PollResult::Pending)
            } else if same_chars(&ec, &chars_of("slow_down")) {
                Ok(PollResult::SlowDown)
            } else {
                let mut m = chars_of("device flow: ");
                append_str(&mut m, e.as_str());
                Err(CoreError::Http(string_of(&m)))
            }
        },
        None => match take_token(resp) {
            Ok(t) => Ok(PollResult::Token(t)),
            Err(err) => Err(err),
        },
    }
}

/// What a refresh of the token gives: the token; an error code is refused as
/// `Http("refresh: <code>")`, an answer without token as
/// `Http("missing access_token")`.
pub fn refresh_result(resp: TokenOrError) -> (r: Result<Token, CoreError>)
    ensures
        match resp.error {
            Some(e) => r matches Err(CoreError::Http(m)) && m@ == "refresh: "@ + e@,
            None => if resp.access_token is None {
                r matches Err(CoreError::Http(m)) && m@ == "missing access_token"@
            } else {
                r matches Ok(t) && token_of(resp, t)
            },
        },
{
    match &resp.error {
        Some(e) => {
            let mut m = chars_of("refresh: ");
            append_str(&mut m, e.as_str());
            Err(CoreError::Http(string_of(&m)))
        },
        None => take_token(resp),
    }
}

/// The address of the device code request below `base`.
pub fn device_code_url(base: &str) -> (url: String)
    ensures
        url@ == base@ + "/login/device/code"@,
{
    let mut m = chars_of(base);
    append_str(&mut m, "/login/device/code");
    string_of(&m)
}

/// The address of the token request below `base`.
pub fn access_token_url(base: &str) -> (url: String)
    ensures
        url@ == base@ + "/login/oauth/access_token"@,
{
    let mut m = chars_of(base);
    append_str(&mut m, "/login/oauth/access_token");
    string_of(&m)
}

/// A form field.
pub open spec fn field_is(f: (String, String), k: Seq<char>, v: Seq<char>) -> bool {
    f.0@ == k && f.1@ == v
}

/// The form that polls the device flow: the client, the device code and the
/// device-code grant type.
pub fn poll_form(client_id: &str, device_code: &str) -> (form: Vec<(String, String)>)
    ensures
        form.len() == 3,
        field_is(form@[0], "client_id"@, client_id@),
        field_is(form@[1], "device_code"@, device_code@),
        field_is(form@[2], "grant_type"@, "urn:ietf:params:oauth:grant-type:device_code"@),
{
    let mut form: Vec<(String, String)> = Vec::new();
    form.push(("client_id".to_owned(), client_id.to_owned()));
    form.push(("device_code".to_owned(), device_code.to_owned()));
    form.push(("grant_type".to_owned(), "urn:ietf:params:oauth:grant-type:device_code".to_owned()));
    form
}

/// The form that refreshes a token: the client, the refresh grant type and
/// the refresh token.
pub fn refresh_form(client_id: &str, refresh_token: &str) -> (form: Vec<(String, String)>)
    ensures
        form.len() == 3,
        field_is(form@[0], "client_id"@, client_id@),
        field_is(form@[1], "grant_type"@, "refresh_token"@),
        field_is(form@[2], "refresh_token"@, refresh_token@),
{
    let mut form: Vec<(String, String)> = Vec::new();
    form.push(("client_id".to_owned(), client_id.to_owned()));
    form.push(("grant_type".to_owned(), "refresh_token".to_owned()));
    form.push(("refresh_token".to_owned(), refresh_token.to_owned()));
    form
}

} // verus!
