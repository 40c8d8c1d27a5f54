//! The decisions behind the HTTP fetch tool: which URLs are accepted and
//! which method an HTTP request uses.  Building and sending the request
//! stay with the caller.

use vstd::prelude::*;

use crate::text::{seq_starts_with, spells_ci, spells_word_ci, str_starts_with};

verus! {

/// An HTTP method the fetch tool supports.
#[derive(Clone, Copy, Debug, PartialEq, Eq, Structural)]
pub enum HttpMethod {
    Get,
    Post,
    Put,
    Delete,
    Head,
}

/// A URL the fetch tool accepts: non-empty and carrying an `http://` or
/// `https://` scheme.
pub open spec fn spec_url_accepted(url: Seq<char>) -> bool {
    url.len() > 0 && (seq_starts_with(url, "http://"@) || seq_starts_with(url, "https://"@))
}

/// Validate a URL as the fetch tool does: an empty URL and a URL of any
/// other scheme are refused, each with its own message.
pub fn validate_fetch_url(url: &str) -> (r: Result<(), String>)
    ensures
        r is Ok <==> spec_url_accepted(url@),
        url@.len() == 0 ==> r is Err && (r->Err_0)@ == "URL cannot be empty"@,
        url@.len() > 0 && !spec_url_accepted(url@) ==> r is Err && (r->Err_0)@
            == "Only HTTP and HTTPS protocols are allowed"@,
{
    if url.unicode_len() == 0 {
        return Err("URL cannot be empty".to_owned());
    }
    if !str_starts_with(url, "http://") && !str_starts_with(url, "https://") {
        return Err("Only HTTP and HTTPS protocols are allowed".to_owned());
    }
    Ok(())
}

/// Which method a request names, matching the five method names without
/// regard to ASCII case.
pub open spec fn spec_parse_http_method(s: Seq<char>) -> Option<HttpMethod> {
    if spells_ci(s, "get"@) {
        Some(HttpMethod::Get)
    } else if spells_ci(s, "post"@) {
        Some(HttpMethod::Post)
    } else if spells_ci(s, "put"@) {
        Some(HttpMethod::Put)
    } else if spells_ci(s, "delete"@) {
        Some(HttpMethod::Delete)
    } else if spells_ci(s, "head"@) {
        Some(HttpMethod::Head)
    } else {
        None
    }
}

/// Resolve a method name — `GET`, `POST`, `PUT`, `DELETE` or `HEAD`, in
/// any ASCII case — to its method, or report that it is unsupported.
pub fn parse_http_method(s: &str) -> (r: Option<HttpMethod>)
    ensures
        r == spec_parse_http_method(s@),
{
    if spells_word_ci(s, "get") {
        Some(HttpMethod::Get)
    } else if spells_word_ci(s, "post") {
        Some(HttpMethod::Post)
    } else if spells_word_ci(s, "put") {
        Some(HttpMethod::Put)
    } else if spells_word_ci(s, "delete") {
        Some(HttpMethod::Delete)
    } else if spells_word_ci(s, "head") {
        Some(HttpMethod::Head)
    } else {
        None
    }
}

} // verus!
