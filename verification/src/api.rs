//! The HTTP side of the Educartable API: the addresses and headers of its
//! requests, and how its answers are judged before their bodies are read.

use vstd::prelude::*;
use vstd::utf8::{decode_utf8, valid_utf8};

use crate::text::{concat3, decimal, format_i64, format_u64, signed_decimal};

verus! {

/// `String::from_utf8`: the text of the bytes when they are valid UTF-8, the
/// error's message otherwise (that message is left unsaid here).
#[verifier::external_body]
fn decode_utf8_bytes(bytes: Vec<u8>) -> (r: Result<String, String>)
    ensures
        r is Ok <==> valid_utf8(bytes@),
        r matches Ok(s) ==> s@ == decode_utf8(bytes@),
{
    match String::from_utf8(bytes) {
        Ok(s) => Ok(s),
        Err(e) => Err(e.to_string()),
    }
}

/// An HTTP answer: status code, headers (name and value, as received) and body.
#[derive(Debug)]
pub struct HttpResponse {
    pub status: u16,
    pub headers: Vec<(String, String)>,
    pub body: Vec<u8>,
}

/// The value of the last header named exactly `name`: the one received last, which
/// is the one a map of headers by name keeps.
pub open spec fn last_header(headers: Seq<(Seq<char>, Seq<char>)>, name: Seq<char>) -> Option<
    Seq<char>,
>
    decreases headers.len(),
{
    if headers.len() == 0 {
        None
    } else if headers.last().0 == name {
        Some(headers.last().1)
    } else {
        last_header(headers.drop_last(), name)
    }
}

/// The (name, value) views of a list of headers.
pub open spec fn header_views(headers: Seq<(String, String)>) -> Seq<(Seq<char>, Seq<char>)> {
    headers.map_values(|h: (String, String)| (h.0@, h.1@))
}

/// A success status (2xx).
pub open spec fn is_success_status(status: u16) -> bool {
    200 <= status < 300
}

/// A redirection status (3xx).
pub open spec fn is_redirection_status(status: u16) -> bool {
    300 <= status < 400
}

impl HttpResponse {
    /// The body as UTF-8 text; an error when it is not valid UTF-8.
    pub fn text(&self) -> (r: Result<String, String>)
        ensures
            r is Ok <==> valid_utf8(self.body@),
            r matches Ok(s) ==> s@ == decode_utf8(self.body@),
    {
        decode_utf8_bytes(self.body.clone())
    }

    /// The status is a success (2xx).
    pub fn is_success(&self) -> (b: bool)
        ensures
            b == is_success_status(self.status),
    {
        self.status >= 200 && self.status < 300
    }

    /// The status is a redirection (3xx).
    pub fn is_redirection(&self) -> (b: bool)
        ensures
            b == is_redirection_status(self.status),
    {
        self.status >= 300 && self.status < 400
    }

    /// The value of the header named exactly `name`; when several have that name, the
    /// one received last.
    pub fn header(&self, name: &str) -> (r: Option<String>)
        ensures
            match r {
                Some(v) => last_header(header_views(self.headers@), name@) == Some(v@),
                None => last_header(header_views(self.headers@), name@) is None,
            },
    {
        let wanted = String::from_str(name);
        let mut i: usize = self.headers.len();
        let ghost hv = header_views(self.headers@);
        assert(hv.take(hv.len() as int) =~= hv);
        while i > 0
            invariant
                i <= self.headers@.len(),
                hv == header_views(self.headers@),
                wanted@ == name@,
                last_header(hv, name@) == last_header(hv.take(i as int), name@),
            decreases i,
        {
            proof {
                assert(hv.take(i as int).drop_last() =~= hv.take(i - 1));
                assert(hv.take(i as int).last() == hv[i - 1]);
            }
            if self.headers[i - 1].0 == wanted {
                return Some(String::from_str(self.headers[i - 1].1.as_str()));
            }
            i = i - 1;
        }
        proof {
            assert(hv.take(0) =~= Seq::<(Seq<char>, Seq<char>)>::empty());
        }
        None
    }
}

/// Two answers cannot be both successes and redirections.
pub proof fn lemma_success_excludes_redirection(status: u16)
    ensures
        !(is_success_status(status) && is_redirection_status(status)),
{
}

// ---------------------------------------------------------------------------
// Requests
// ---------------------------------------------------------------------------

/// Address of the current user's description.
pub const USER_INFO_URL: &'static str =
    "https://app.educartable.com/api/1.0/educore/users/me?light=1";

/// The address listing the activities of a parent, newest first.
pub open spec fn activities_url_spec(parent_id: int) -> Seq<char> {
    "https://app.educartable.com/api/1.0/educartable/parent/"@ + signed_decimal(parent_id)
        + "/messages?type=activity&sort=date&direction=desc"@
}

/// The address listing the activities of a parent, newest first.
pub fn activities_url(parent_id: i64) -> (url: String)
    ensures
        url@ == activities_url_spec(parent_id as int),
{
    let id = format_i64(parent_id);
    concat3(
        "https://app.educartable.com/api/1.0/educartable/parent/",
        id.as_str(),
        "/messages?type=activity&sort=date&direction=desc",
    )
}

/// The address that answers with a redirection to a signed download address of a
/// media file. Neither part is escaped.
pub open spec fn signed_media_request_url_spec(media_id: Seq<char>, filename: Seq<char>) -> Seq<
    char,
> {
    "https://www.edumoov.com/api/1.0/educore/medias/"@ + media_id + "/file?cache=1&filename="@
        + filename
}

/// The address that answers with a redirection to a signed download address.
pub fn signed_media_request_url(media_id: &str, filename: &str) -> (url: String)
    ensures
        url@ == signed_media_request_url_spec(media_id@, filename@),
{
    let mut url = String::from_str("https://www.edumoov.com/api/1.0/educore/medias/");
    url.append(media_id);
    url.append("/file?cache=1&filename=");
    url.append(filename);
    url
}

/// The headers of a JSON request. The access token is sent as it is, without a
/// `Bearer` prefix, which is what this service expects.
pub open spec fn json_request_headers_spec(access_token: Seq<char>) -> Seq<(Seq<char>, Seq<char>)> {
    seq![
        ("Authorization"@, access_token),
        ("Accept"@, "application/json"@),
        ("Content-Type"@, "application/json"@),
        ("X-Edumoov-NoSession"@, "true"@),
    ]
}

/// The headers of a JSON request (see [`json_request_headers_spec`]).
pub fn json_request_headers(access_token: &str) -> (h: Vec<(String, String)>)
    ensures
        header_views(h@) == json_request_headers_spec(access_token@),
{
    let mut h: Vec<(String, String)> = Vec::new();
    h.push((String::from_str("Authorization"), String::from_str(access_token)));
    h.push((String::from_str("Accept"), String::from_str("application/json")));
    h.push((String::from_str("Content-Type"), String::from_str("application/json")));
    h.push((String::from_str("X-Edumoov-NoSession"), String::from_str("true")));
    assert(header_views(h@) =~= json_request_headers_spec(access_token@));
    h
}

/// The single authorization header, with the bare access token.
pub fn authorization_headers(access_token: &str) -> (h: Vec<(String, String)>)
    ensures
        header_views(h@) == seq![("Authorization"@, access_token@)],
{
    let mut h: Vec<(String, String)> = Vec::new();
    h.push((String::from_str("Authorization"), String::from_str(access_token)));
    assert(header_views(h@) =~= seq![("Authorization"@, access_token@)]);
    h
}

// ---------------------------------------------------------------------------
// Judging answers
// ---------------------------------------------------------------------------

/// The message of a JSON request that did not succeed, with the body's text.
pub open spec fn request_failed_message(status: u16, body_text: Seq<char>) -> Seq<char> {
    "Request failed with status "@ + decimal(status as nat) + ": "@ + body_text
}

/// Accepts a successful answer to a JSON request. Any other is refused with its
/// status and body text; when the body is not UTF-8 the decoding error comes instead.
pub fn check_json_response(response: &HttpResponse) -> (r: Result<(), String>)
    ensures
        is_success_status(response.status) ==> r is Ok,
        !is_success_status(response.status) ==> r is Err,
        !is_success_status(response.status) && valid_utf8(response.body@) ==> (r matches Err(m)
            && m@ == request_failed_message(response.status, decode_utf8(response.body@))),
{
    if response.is_success() {
        return Ok(());
    }
    let body = response.text()?;
    let status = format_u64(response.status as u64);
    let mut m = String::from_str("Request failed with status ");
    m.append(status.as_str());
    m.append(": ");
    m.append(body.as_str());
    Err(m)
}

/// The message of a user information request that did not succeed.
pub open spec fn user_info_failed_message(status: u16) -> Seq<char> {
    "User info request failed with status: "@ + decimal(status as nat)
}

/// Accepts a successful answer to the user information request, and refuses any other
/// with its status.
pub fn check_user_info_response(response: &HttpResponse) -> (r: Result<(), String>)
    ensures
        match r {
            Ok(()) => is_success_status(response.status),
            Err(m) => !is_success_status(response.status) && m@ == user_info_failed_message(
                response.status,
            ),
        },
{
    if response.is_success() {
        Ok(())
    } else {
        let status = format_u64(response.status as u64);
        let mut m = String::from_str("User info request failed with status: ");
        m.append(status.as_str());
        Err(m)
    }
}

/// The message when a redirection has no `Location` header.
pub open spec fn no_location_message() -> Seq<char> {
    "No Location header in redirect"@
}

/// The message when the answer is not a redirection.
pub open spec fn not_redirect_message(status: u16) -> Seq<char> {
    "Expected redirect response, got status: "@ + decimal(status as nat)
}

/// The signed download address carried by an answer: the `location` header of a
/// redirection (or, without one, its `Location` header).
pub open spec fn signed_url_result(status: u16, headers: Seq<(Seq<char>, Seq<char>)>) -> Result<
    Seq<char>,
    Seq<char>,
> {
    if is_redirection_status(status) {
        match last_header(headers, "location"@) {
            Some(v) => Ok(v),
            None => match last_header(headers, "Location"@) {
                Some(v) => Ok(v),
                None => Err(no_location_message()),
            },
        }
    } else {
        Err(not_redirect_message(status))
    }
}

/// Reads the signed download address out of the answer to a media request (see
/// [`signed_url_result`]).
pub fn signed_url_from_response(response: &HttpResponse) -> (r: Result<String, String>)
    ensures
        match r {
            Ok(u) => signed_url_result(response.status, header_views(response.headers@)) == Ok::<
                Seq<char>,
                Seq<char>,
            >(u@),
            Err(m) => signed_url_result(response.status, header_views(response.headers@))
                == Err::<Seq<char>, Seq<char>>(m@),
        },
{
    if response.is_redirection() {
        match response.header("location") {
            Some(v) => Ok(v),
            None => match response.header("Location") {
                Some(v) => Ok(v),
                None => Err(String::from_str("No Location header in redirect")),
            },
        }
    } else {
        let status = format_u64(response.status as u64);
        let mut m = String::from_str("Expected redirect response, got status: ");
        m.append(status.as_str());
        Err(m)
    }
}

} // verus!
