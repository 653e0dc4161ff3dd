//! Decisions that keep a login usable: when an access token must be refreshed,
//! what the refresh request sends and how its answer becomes a new token set,
//! whether the user counts as logged in, and how the login window's pages and
//! token hand-over are read.

use vstd::prelude::*;

use crate::auth::{is_keyring_unreachable, keyring_unreachable};
use crate::models::AuthTokens;
use crate::text::{contains_seq, contains_text};

verus! {

/// Token endpoint of the identity provider.
pub const TOKEN_URL: &'static str =
    "https://accounts.edumoov.com/auth/realms/edumoov/protocol/openid-connect/token";

/// OAuth client of the web application.
pub const CLIENT_ID: &'static str = "educlasse";

/// Seconds before its expiry from which an access token is refreshed.
pub const REFRESH_MARGIN_SECS: i64 = 60;

/// An access token expiring at `expires_at` must be refreshed at time `now`: it has
/// expired or expires within [`REFRESH_MARGIN_SECS`] seconds.
pub open spec fn needs_refresh(expires_at: int, now: int) -> bool {
    expires_at <= now + 60
}

/// How to obtain a usable access token.
#[derive(Debug)]
pub enum AccessTokenPlan {
    /// The stored access token is still good.
    Use(String),
    /// Refresh first, with this refresh token.
    Refresh(String),
}

/// The message given when there are no tokens to use.
pub open spec fn not_authenticated_message() -> Seq<char> {
    "Not authenticated. Please log in first."@
}

/// Given the result of loading the stored tokens and the current Unix time: refuse
/// when nothing could be loaded, use the access token while it is valid for more
/// than [`REFRESH_MARGIN_SECS`] seconds, and refresh it otherwise.
pub fn plan_access_token<E>(loaded: Result<AuthTokens, E>, now: i64) -> (r: Result<
    AccessTokenPlan,
    String,
>)
    requires
        now <= i64::MAX - 60,
    ensures
        match loaded {
            Err(_) => r matches Err(m) && m@ == not_authenticated_message(),
            Ok(t) => if needs_refresh(t.expires_at as int, now as int) {
                r matches Ok(AccessTokenPlan::Refresh(rt)) && rt@ == t.refresh_token@
            } else {
                r matches Ok(AccessTokenPlan::Use(at)) && at@ == t.access_token@
            },
        },
{
    match loaded {
        Err(_) => Err(String::from_str("Not authenticated. Please log in first.")),
        Ok(t) => {
            if t.expires_at <= now + REFRESH_MARGIN_SECS {
                Ok(AccessTokenPlan::Refresh(t.refresh_token))
            } else {
                Ok(AccessTokenPlan::Use(t.access_token))
            }
        },
    }
}

/// Where a check of the login stands.
#[derive(Debug)]
pub enum AuthenticationCheck {
    /// Tokens are stored and the access token has not expired.
    Authenticated,
    /// Tokens are stored but the access token has expired: try this refresh token.
    RefreshNeeded(String),
    /// No tokens could be loaded.
    NotAuthenticated,
    /// The keyring could not be reached: the check fails with this message.
    Failed(String),
}

/// Given the result of loading the stored tokens and the current Unix time: logged in
/// while the access token has not expired, to be confirmed by a refresh once it has;
/// not logged in when the tokens are missing or damaged; and a failed check when the
/// keyring could not be reached at all.
pub fn check_authentication(loaded: Result<AuthTokens, String>, now: i64) -> (c:
    AuthenticationCheck)
    ensures
        match loaded {
            Err(m) => if keyring_unreachable(m@) {
                c matches AuthenticationCheck::Failed(e) && e@ == m@
            } else {
                c is NotAuthenticated
            },
            Ok(t) => if t.expires_at > now {
                c is Authenticated
            } else {
                c matches AuthenticationCheck::RefreshNeeded(rt) && rt@ == t.refresh_token@
            },
        },
{
    match loaded {
        Err(m) => {
            if is_keyring_unreachable(&m) {
                AuthenticationCheck::Failed(m)
            } else {
                AuthenticationCheck::NotAuthenticated
            }
        },
        Ok(t) => {
            if t.expires_at > now {
                AuthenticationCheck::Authenticated
            } else {
                AuthenticationCheck::RefreshNeeded(t.refresh_token)
            }
        },
    }
}

/// A login whose access token had expired counts as valid exactly when the refresh
/// succeeded.
pub fn authenticated_after_refresh<T, E>(refreshed: &Result<T, E>) -> (b: bool)
    ensures
        b == refreshed is Ok,
{
    refreshed.is_ok()
}

/// The form fields of a token refresh request.
pub open spec fn refresh_form_fields(refresh_token: Seq<char>) -> Seq<(Seq<char>, Seq<char>)> {
    seq![
        ("grant_type"@, "refresh_token"@),
        ("refresh_token"@, refresh_token),
        ("client_id"@, CLIENT_ID@),
    ]
}

/// The form sent to [`TOKEN_URL`] to refresh the tokens.
pub fn refresh_form(refresh_token: &str) -> (form: Vec<(String, String)>)
    ensures
        form@.map_values(|p: (String, String)| (p.0@, p.1@)) == refresh_form_fields(
            refresh_token@,
        ),
{
    let mut form: Vec<(String, String)> = Vec::new();
    form.push((String::from_str("grant_type"), String::from_str("refresh_token")));
    form.push((String::from_str("refresh_token"), String::from_str(refresh_token)));
    form.push((String::from_str("client_id"), String::from_str(CLIENT_ID)));
    assert(form@.map_values(|p: (String, String)| (p.0@, p.1@)) =~= refresh_form_fields(
        refresh_token@,
    ));
    form
}

/// The message given when the identity provider refuses a refresh.
pub open spec fn refresh_refused_message() -> Seq<char> {
    "Token refresh failed. Please log in again."@
}

/// The message given when the identity provider's answer cannot be read.
pub open spec fn refresh_unreadable_message() -> Seq<char> {
    "Invalid response from authentication server. Please log in again."@
}

/// A refresh request is refused unless its HTTP status is a success (2xx).
pub fn check_refresh_status(status: u16) -> (r: Result<(), String>)
    ensures
        match r {
            Ok(()) => 200 <= status < 300,
            Err(m) => !(200 <= status < 300) && m@ == refresh_refused_message(),
        },
{
    if status >= 200 && status < 300 {
        Ok(())
    } else {
        Err(String::from_str("Token refresh failed. Please log in again."))
    }
}

/// The fields of the identity provider's answer to a refresh.
#[derive(Debug)]
pub struct TokenRefreshResponse {
    pub access_token: String,
    pub refresh_token: String,
    pub id_token: String,
    /// Lifetime of the new access token, in seconds.
    pub expires_in: i64,
    pub session_state: String,
}

/// The token set given by a refresh answer received at Unix time `now`: the new
/// tokens, expiring `expires_in` seconds after `now`.
pub fn tokens_from_refresh(response: TokenRefreshResponse, now: i64) -> (t: AuthTokens)
    requires
        i64::MIN <= now + response.expires_in <= i64::MAX,
    ensures
        t.access_token == response.access_token,
        t.refresh_token == response.refresh_token,
        t.id_token == response.id_token,
        t.expires_at == now + response.expires_in,
        t.session_state == response.session_state,
{
    AuthTokens {
        access_token: response.access_token,
        refresh_token: response.refresh_token,
        id_token: response.id_token,
        expires_at: now + response.expires_in,
        session_state: response.session_state,
    }
}

/// A page address in the login window that shows the login has completed: it carries
/// an authorization `code=` and is the `/home` or `/activities` page.
pub open spec fn is_login_callback_spec(url: Seq<char>) -> bool {
    contains_seq(url, "code="@) && (contains_seq(url, "/home"@) || contains_seq(
        url,
        "/activities"@,
    ))
}

/// Whether a loaded page of the login window shows the login has completed.
pub fn is_login_callback(url: &str) -> (r: bool)
    ensures
        r == is_login_callback_spec(url@),
{
    contains_text(url, "code=") && (contains_text(url, "/home") || contains_text(
        url,
        "/activities",
    ))
}

/// The message given when the login window had no tokens to hand over.
pub open spec fn login_failed_message() -> Seq<char> {
    "Login failed. Please check your credentials and try again."@
}

/// What the login window handed over: the text `null` means it found no tokens.
pub fn received_tokens(payload: String) -> (r: Result<String, String>)
    ensures
        if payload@ == "null"@ {
            r matches Err(m) && m@ == login_failed_message()
        } else {
            r matches Ok(p) && p@ == payload@
        },
{
    let null = String::from_str("null");
    if payload == null {
        Err(String::from_str("Login failed. Please check your credentials and try again."))
    } else {
        Ok(payload)
    }
}

} // verus!
