//! What the GitHub client asks for and how it reads the answers.
//!
//! Sending the requests is left to the caller; the library decides which
//! URL and headers each request carries, and turns a response (its status
//! and body) into content or an error.

use vstd::prelude::*;

use crate::github_url::{GitHubSourceError, GitHubUrl};

verus! {

/// The bytes that the base64 standard alphabet, with padding, decodes
/// `text` into, when `text` is valid base64.
pub uninterp spec fn base64_standard_decoding(text: Seq<char>) -> Option<Seq<u8>>;

/// Decodes `text` with `base64::Engine::decode` on the engine
/// `base64::engine::general_purpose::STANDARD`. Claims that the bytes are the
/// ones named by `base64_standard_decoding` and that a refused text has none;
/// the wording of the refusal is base64's and is not stated.
#[verifier::external_body]
fn decode_base64(text: &str) -> (r: Result<Vec<u8>, String>)
    ensures
        match r {
            Ok(bytes) => base64_standard_decoding(text@) == Some(bytes@),
            Err(_) => base64_standard_decoding(text@) is None,
        },
{
    match base64::Engine::decode(&base64::engine::general_purpose::STANDARD, text) {
        Ok(bytes) => Ok(bytes),
        Err(e) => Err(e.to_string()),
    }
}

/// Calls `String::from_utf8`. As std documents, the bytes become a string
/// exactly when they are valid UTF-8, and the string holds the characters
/// they encode; the wording of the refusal is std's and is not stated.
#[verifier::external_body]
fn utf8_string(bytes: Vec<u8>) -> (r: Result<String, String>)
    ensures
        r is Ok <==> vstd::utf8::valid_utf8(bytes@),
        r matches Ok(s) ==> s@ == vstd::utf8::decode_utf8(bytes@),
{
    match String::from_utf8(bytes) {
        Ok(s) => Ok(s),
        Err(e) => Err(e.to_string()),
    }
}

/// An HTTP GET request: the URL and the headers, in order.
pub struct ContentRequest {
    pub url: String,
    pub headers: Vec<(String, String)>,
}

/// The headers of a request, as text.
pub open spec fn header_texts(headers: Seq<(String, String)>) -> Seq<(Seq<char>, Seq<char>)> {
    headers.map_values(|h: (String, String)| (h.0@, h.1@))
}

/// The authentication headers for an optional token.
pub open spec fn auth_headers(token: Option<Seq<char>>) -> Seq<(Seq<char>, Seq<char>)> {
    match token {
        Some(t) => seq![("Authorization"@, "token "@ + t)],
        None => Seq::empty(),
    }
}

/// Whether an HTTP status is a success (200 to 299).
pub open spec fn status_success(status: u16) -> bool {
    200 <= status <= 299
}

/// The user agent that API requests carry.
pub open spec fn user_agent() -> Seq<char> {
    "roadline-source-github-markdown"@
}

/// Fetches GitHub content, with or without a personal access token.
pub struct GitHubClient {
    token: Option<String>,
}

/// The view of a token.
pub open spec fn token_text(token: Option<String>) -> Option<Seq<char>> {
    match token {
        Some(t) => Some(t@),
        None => None,
    }
}

impl GitHubClient {
    /// The token, if any.
    pub closed spec fn spec_token(&self) -> Option<Seq<char>> {
        token_text(self.token)
    }

    /// A client without authentication.
    pub fn new() -> (r: GitHubClient)
        ensures
            r.spec_token() is None,
    {
        GitHubClient { token: None }
    }

    /// A client that authenticates with a personal access token.
    pub fn with_token(token: String) -> (r: GitHubClient)
        ensures
            r.spec_token() == Some(token@),
    {
        GitHubClient { token: Some(token) }
    }

    /// The authentication headers of the client.
    fn auth(&self) -> (r: Vec<(String, String)>)
        ensures
            header_texts(r@) == auth_headers(self.spec_token()),
    {
        let mut headers: Vec<(String, String)> = Vec::new();
        match &self.token {
            Some(t) => {
                let value = String::from_str("token ").concat(t.as_str());
                headers.push((String::from_str("Authorization"), value));
            },
            None => {},
        }
        proof {
            assert(header_texts(headers@) =~= auth_headers(self.spec_token()));
        }
        headers
    }

    /// The request for content at a raw URL.
    pub fn raw_content_request(&self, raw_url: &str) -> (r: ContentRequest)
        ensures
            r.url@ == raw_url@,
            header_texts(r.headers@) == auth_headers(self.spec_token()),
    {
        ContentRequest { url: String::from_str(raw_url), headers: self.auth() }
    }

    /// The request for the content of a location: its raw URL.
    pub fn content_request(&self, github_url: &GitHubUrl) -> (r: ContentRequest)
        ensures
            r.url@ == "https://raw.githubusercontent.com/"@ + github_url.owner@ + "/"@ + github_url.repo@ + "/"@
                + github_url.reference@ + "/"@ + github_url.path@,
            header_texts(r.headers@) == auth_headers(self.spec_token()),
    {
        let raw_url = github_url.to_raw_url();
        self.raw_content_request(raw_url.as_str())
    }

    /// The request for the content of a location through the contents API:
    /// the authentication, then the user agent that the API requires.
    pub fn api_content_request(&self, github_url: &GitHubUrl) -> (r: ContentRequest)
        ensures
            r.url@ == "https://api.github.com/repos/"@ + github_url.owner@ + "/"@ + github_url.repo@ + "/contents/"@
                + github_url.path@ + "?ref="@ + github_url.reference@,
            header_texts(r.headers@) == auth_headers(self.spec_token()).push(("User-Agent"@, user_agent())),
    {
        let url = github_url.to_api_url();
        let mut headers = self.auth();
        let ghost before = headers@;
        headers.push((String::from_str("User-Agent"), String::from_str("roadline-source-github-markdown")));
        proof {
            assert(header_texts(headers@) =~= header_texts(before).push(("User-Agent"@, user_agent())));
        }
        ContentRequest { url, headers }
    }
}

impl Default for GitHubClient {
    fn default() -> (r: GitHubClient)
        ensures
            r.spec_token() is None,
    {
        GitHubClient::new()
    }
}

/// The message of a failed fetch of `url`.
pub open spec fn fetch_failure(prefix: Seq<char>, url: Seq<char>, status_text: Seq<char>) -> Seq<char> {
    prefix + url + ": "@ + status_text
}

/// Reads the answer to a raw content request: the body on a success status,
/// else a fetch error that names the URL and the status.
pub fn raw_content_response(raw_url: &str, status: u16, status_text: &str, body: String) -> (r: Result<
    String,
    GitHubSourceError,
>)
    ensures
        status_success(status) ==> (r matches Ok(c) && c@ == body@),
        !status_success(status) ==> (r matches Err(GitHubSourceError::FetchError { message }) && message@
            == fetch_failure("Failed to fetch content from "@, raw_url@, status_text@)),
{
    if status >= 200 && status <= 299 {
        Ok(body)
    } else {
        let message = String::from_str("Failed to fetch content from ").concat(raw_url).concat(": ").concat(
            status_text,
        );
        Err(GitHubSourceError::FetchError { message })
    }
}

/// The outcome of decoding the content of a contents-API answer.
pub open spec fn api_content(content: Seq<char>, encoding: Seq<char>) -> Option<Seq<char>> {
    if encoding != "base64"@ {
        None
    } else {
        match base64_standard_decoding(content) {
            Some(bytes) => if vstd::utf8::valid_utf8(bytes) {
                Some(vstd::utf8::decode_utf8(bytes))
            } else {
                None
            },
            None => None,
        }
    }
}

/// Reads the answer to a contents-API request, given its status and the
/// `content` and `encoding` fields of its JSON body: on a success status,
/// base64 content is decoded and read as UTF-8; another status, another
/// encoding, invalid base64 or invalid UTF-8 is a fetch error.
pub fn api_content_response(
    api_url: &str,
    status: u16,
    status_text: &str,
    content: &str,
    encoding: &str,
) -> (r: Result<String, GitHubSourceError>)
    ensures
        !status_success(status) ==> (r matches Err(GitHubSourceError::FetchError { message }) && message@
            == fetch_failure("Failed to fetch content from GitHub API "@, api_url@, status_text@)),
        status_success(status) ==> match api_content(content@, encoding@) {
            Some(text) => (r matches Ok(s) && s@ == text),
            None => r matches Err(GitHubSourceError::FetchError { .. }),
        },
        status_success(status) && encoding@ != "base64"@ ==> (r matches Err(GitHubSourceError::FetchError { message })
            && message@ == "Unsupported encoding: "@ + encoding@),
{
    if !(status >= 200 && status <= 299) {
        let message = String::from_str("Failed to fetch content from GitHub API ").concat(api_url).concat(
            ": ",
        ).concat(status_text);
        return Err(GitHubSourceError::FetchError { message });
    }
    let base64_name = "base64";
    proof {
        reveal_strlit("base64");
    }
    if encoding.unicode_len() != base64_name.unicode_len() || !crate::text::starts_with_str(encoding, base64_name) {
        proof {
            if encoding@ == "base64"@ {
                assert(encoding@.subrange(0, encoding@.len() as int) =~= encoding@);
            }
        }
        let message = String::from_str("Unsupported encoding: ").concat(encoding);
        return Err(GitHubSourceError::FetchError { message });
    }
    proof {
        assert(encoding@ =~= "base64"@);
    }
    match decode_base64(content) {
        Ok(bytes) => match utf8_string(bytes) {
            Ok(text) => Ok(text),
            Err(e) => {
                let message = String::from_str("Failed to convert decoded content to UTF-8: ").concat(e.as_str());
                Err(GitHubSourceError::FetchError { message })
            },
        },
        Err(e) => {
            let message = String::from_str("Failed to decode base64 content: ").concat(e.as_str());
            Err(GitHubSourceError::FetchError { message })
        },
    }
}

} // verus!
