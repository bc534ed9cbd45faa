//! The resource resolver: a request path maps to a filesystem key, and the
//! outcome of reading that key (or the fallback) decides the response.

use vstd::prelude::*;
use crate::response::{
    HttpResponse, is_ok_response, is_not_found_response, is_error_response, response_ok,
    response_not_found, build_error_response,
};
use vstd::string::StringExecFns;

verus! {

/// What reading one resource yielded: its text, nothing readable at that key,
/// or bytes that did not decode as text.
pub enum ReadOutcome {
    Content(String),
    Unreadable,
    Undecodable,
}

/// A request path that cannot escape the content root: it begins with `/` and
/// holds no two adjacent dots.
pub open spec fn path_is_safe(p: Seq<char>) -> bool {
    &&& p.len() > 0
    &&& p[0] == '/'
    &&& forall|i: int| 0 <= i && i + 1 < p.len() ==> !((#[trigger] p[i]) == '.' && p[i + 1] == '.')
}

/// Maps a request path to its filesystem key: the content root, the path
/// verbatim and the `.html` suffix. An unsafe path maps to nothing.
pub fn route_path(root: &str, path: &str) -> (r: Option<String>)
    ensures
        r is Some <==> path_is_safe(path@),
        r matches Some(f) ==> f@ == root@ + path@ + ".html"@,
{
    let n = path.unicode_len();
    if n == 0 || path.get_char(0) != '/' {
        return None;
    }
    let mut i: usize = 0;
    while i + 1 < n
        invariant
            n == path@.len(),
            i < n,
            forall|k: int|
                0 <= k && k + 1 <= i ==> !((#[trigger] path@[k]) == '.' && path@[k + 1] == '.'),
        decreases n - i,
    {
        if path.get_char(i) == '.' && path.get_char(i + 1) == '.' {
            return None;
        }
        i += 1;
    }
    let mut f = root.to_owned();
    f.append(path);
    f.append(".html");
    Some(f)
}

/// Decides the response from the two read outcomes. The fallback outcome is
/// looked at only when the requested resource was unreadable: readable content
/// gives a success response, undecodable bytes give the server error, and an
/// unreadable resource gives the fallback as a not-found response when that is
/// readable, and the server error otherwise.
pub fn resolve(primary: ReadOutcome, fallback: ReadOutcome) -> (r: HttpResponse)
    ensures
        match primary {
            ReadOutcome::Content(c) => is_ok_response(r, c@),
            ReadOutcome::Undecodable => is_error_response(r),
            ReadOutcome::Unreadable => match fallback {
                ReadOutcome::Content(f) => is_not_found_response(r, f@),
                ReadOutcome::Unreadable => is_error_response(r),
                ReadOutcome::Undecodable => is_error_response(r),
            },
        },
{
    match primary {
        ReadOutcome::Content(c) => response_ok(c),
        ReadOutcome::Undecodable => build_error_response(),
        ReadOutcome::Unreadable => match fallback {
            ReadOutcome::Content(f) => response_not_found(f),
            _ => build_error_response(),
        },
    }
}

} // verus!
