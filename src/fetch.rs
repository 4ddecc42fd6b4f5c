use vstd::prelude::*;
use crate::text::{chars_of, copy_range, find_exec, find_from, lemma_find_from_bounds, string_of};

verus! {

broadcast use vstd::string::group_string_axioms;

/// Why the source document could not be fetched.
#[derive(PartialEq, Eq, Debug, Clone, Copy, Structural)]
pub enum FetchError {
    /// The connection to the host could not be made.
    ConnectionFailed,
    /// The response does not hold `200 OK`.
    UnexpectedStatus,
    /// The response has no blank line before a body.
    MalformedResponse,
}

/// An error that carries only a message.
#[derive(Debug)]
pub struct GenericError(String);

impl View for GenericError {
    type V = Seq<char>;

    closed spec fn view(&self) -> Seq<char> {
        self.0@
    }
}

impl GenericError {
    /// An error with the message `s`.
    pub fn new(s: String) -> (r: GenericError)
        ensures
            r@ == s@,
    {
        GenericError(s)
    }

    /// The message.
    pub fn message(&self) -> (r: String)
        ensures
            r@ == self@,
    {
        self.0.clone()
    }
}

/// The request for `resource` on `host`: a request line and a `Host` header, each ended
/// by CRLF, then a blank line.
pub open spec fn request_spec(host: Seq<char>, resource: Seq<char>) -> Seq<char> {
    "GET "@ + resource + " HTTP/1.1\r\nHost: "@ + host + "\r\n\r\n"@
}

/// The body of the response `resp`: what follows its first blank line, provided `200 OK`
/// occurs somewhere in it.
pub open spec fn body_of(resp: Seq<char>) -> Result<Seq<char>, FetchError> {
    if find_from(resp, "200 OK"@, 0) is None {
        Err(FetchError::UnexpectedStatus)
    } else if let Some(p) = find_from(resp, "\r\n\r\n"@, 0) {
        Ok(resp.skip(p + 4))
    } else {
        Err(FetchError::MalformedResponse)
    }
}

/// The request for `resource` on `host`.
pub fn request_text(host: &str, resource: &str) -> (r: String)
    ensures
        r@ == request_spec(host@, resource@),
{
    let mut v = chars_of("GET ");
    let mut rest = chars_of(resource);
    v.append(&mut rest);
    let mut rest = chars_of(" HTTP/1.1\r\nHost: ");
    v.append(&mut rest);
    let mut rest = chars_of(host);
    v.append(&mut rest);
    let mut rest = chars_of("\r\n\r\n");
    v.append(&mut rest);
    string_of(&v)
}

/// The body of the response `response`, or why there is none.
pub fn extract_body(response: &str) -> (r: Result<String, FetchError>)
    ensures
        r matches Ok(b) ==> body_of(response@) == Ok::<Seq<char>, FetchError>(b@),
        r matches Err(e) ==> body_of(response@) == Err::<Seq<char>, FetchError>(e),
{
    let resp = chars_of(response);
    let n = resp.len();
    let ok = chars_of("200 OK");
    let sep = chars_of("\r\n\r\n");
    proof {
        reveal_strlit("200 OK");
        reveal_strlit("\r\n\r\n");
    }
    if find_exec(&resp, &ok, 0).is_none() {
        return Err(FetchError::UnexpectedStatus);
    }
    match find_exec(&resp, &sep, 0) {
        Some(p) => {
            proof {
                lemma_find_from_bounds(resp@, sep@, 0);
            }
            let body = copy_range(&resp, p + 4, n);
            assert(body@ =~= resp@.skip(p + 4));
            Ok(string_of(&body))
        },
        None => Err(FetchError::MalformedResponse),
    }
}

} // verus!
