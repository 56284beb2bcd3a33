//! The static-file responder's pure part: which file a path names, its
//! content type, and the bytes of the response; plus the synthetic reply
//! sent when an upstream cannot be reached.
use vstd::prelude::*;

use vstd::string::StringSliceAdditionalSpecFns;

use crate::bytes::{ascii, ascii_bytes, decimal, matches_at, push_all, push_decimal};

verus! {

/// `suffix` ends `s`.
pub open spec fn ends_with(s: Seq<u8>, suffix: Seq<u8>) -> bool {
    suffix.len() <= s.len() && s.subrange(s.len() - suffix.len(), s.len() as int) == suffix
}

fn ends_with_bytes(s: &[u8], suffix: &[u8]) -> (r: bool)
    ensures
        r == ends_with(s@, suffix@),
{
    if suffix.len() > s.len() {
        return false;
    }
    matches_at(s, s.len() - suffix.len(), suffix)
}

/// Content type by file extension.
pub open spec fn mime_type(name: Seq<u8>) -> Seq<char> {
    if ends_with(name, ascii(".html"@)) {
        "text/html"@
    } else if ends_with(name, ascii(".css"@)) {
        "text/css"@
    } else if ends_with(name, ascii(".js"@)) {
        "application/javascript"@
    } else if ends_with(name, ascii(".png"@)) {
        "image/png"@
    } else if ends_with(name, ascii(".jpg"@)) || ends_with(name, ascii(".jpeg"@)) {
        "image/jpeg"@
    } else {
        "application/octet-stream"@
    }
}

/// The content type to send for a file name.
pub fn get_mime_type(filename: &str) -> (r: &str)
    ensures
        r@ == mime_type(filename.spec_bytes()),
        vstd::string::is_ascii(r),
{
    proof {
        reveal_strlit(".html");
        reveal_strlit(".css");
        reveal_strlit(".js");
        reveal_strlit(".png");
        reveal_strlit(".jpg");
        reveal_strlit(".jpeg");
        reveal_strlit("text/html");
        reveal_strlit("text/css");
        reveal_strlit("application/javascript");
        reveal_strlit("image/png");
        reveal_strlit("image/jpeg");
        reveal_strlit("application/octet-stream");
    }
    let name = filename.as_bytes();
    if ends_with_bytes(name, ascii_bytes(".html")) {
        "text/html"
    } else if ends_with_bytes(name, ascii_bytes(".css")) {
        "text/css"
    } else if ends_with_bytes(name, ascii_bytes(".js")) {
        "application/javascript"
    } else if ends_with_bytes(name, ascii_bytes(".png")) {
        "image/png"
    } else if ends_with_bytes(name, ascii_bytes(".jpg")) || ends_with_bytes(
        name,
        ascii_bytes(".jpeg"),
    ) {
        "image/jpeg"
    } else {
        "application/octet-stream"
    }
}

/// The file a request path names, relative to the static root: `/` names
/// `index.html`, any other path drops its first byte.
pub open spec fn file_name_of(path: Seq<u8>) -> Seq<u8> {
    if path == seq![47u8] {
        ascii("index.html"@)
    } else if path.len() > 0 {
        path.drop_first()
    } else {
        path
    }
}

pub fn static_file_name(path: &[u8]) -> (r: Vec<u8>)
    ensures
        r@ == file_name_of(path@),
{
    let mut out: Vec<u8> = Vec::new();
    if path.len() == 1 && path[0] == 47 {
        proof {
            reveal_strlit("index.html");
        }
        assert(path@ =~= seq![47u8]);
        push_all(&mut out, ascii_bytes("index.html"));
    } else if path.len() > 0 {
        assert(path@ != seq![47u8]);
        push_all(&mut out, &path[1..path.len()]);
        assert(out@ =~= path@.drop_first());
    } else {
        assert(out@ =~= path@);
    }
    out
}

/// Status line, `Content-Type` and `Content-Length` headers, blank line, body.
pub open spec fn response_bytes(status: Seq<u8>, content_type: Seq<u8>, body: Seq<u8>) -> Seq<u8> {
    status + ascii("\r\nContent-Type: "@) + content_type + ascii("\r\nContent-Length: "@) + decimal(
        body.len(),
    ) + ascii("\r\n\r\n"@) + body
}

/// The page sent for a missing file.
pub open spec fn not_found_body() -> Seq<u8> {
    ascii("<h1>404 Not Found</h1>"@)
}

/// The reply for a static file: `200` with the file's bytes and content
/// type when it was read, `404` with a fixed HTML page when it was not.
pub fn static_response(file: Option<Vec<u8>>, filename: &str) -> (r: Vec<u8>)
    ensures
        match file {
            Some(content) => r@ == response_bytes(
                ascii("HTTP/1.1 200 OK"@),
                ascii(mime_type(filename.spec_bytes())),
                content@,
            ),
            None => r@ == response_bytes(
                ascii("HTTP/1.1 404 NOT FOUND"@),
                ascii("text/html"@),
                not_found_body(),
            ),
        },
{
    proof {
        reveal_strlit("HTTP/1.1 200 OK");
        reveal_strlit("HTTP/1.1 404 NOT FOUND");
        reveal_strlit("text/html");
        reveal_strlit("<h1>404 Not Found</h1>");
        reveal_strlit("\r\nContent-Type: ");
        reveal_strlit("\r\nContent-Length: ");
        reveal_strlit("\r\n\r\n");
    }
    let (status, content_type, content): (&str, &str, Vec<u8>) = match file {
        Some(content) => ("HTTP/1.1 200 OK", get_mime_type(filename), content),
        None => {
            let mut body: Vec<u8> = Vec::new();
            push_all(&mut body, ascii_bytes("<h1>404 Not Found</h1>"));
            ("HTTP/1.1 404 NOT FOUND", "text/html", body)
        },
    };
    let mut out: Vec<u8> = Vec::new();
    push_all(&mut out, ascii_bytes(status));
    push_all(&mut out, ascii_bytes("\r\nContent-Type: "));
    push_all(&mut out, ascii_bytes(content_type));
    push_all(&mut out, ascii_bytes("\r\nContent-Length: "));
    push_decimal(&mut out, content.len());
    push_all(&mut out, ascii_bytes("\r\n\r\n"));
    push_all(&mut out, content.as_slice());
    out
}

/// The reply sent when no connection to the upstream can be made.
pub fn bad_gateway_response() -> (r: Vec<u8>)
    ensures
        r@ == ascii("HTTP/1.1 502 Bad Gateway\r\n\r\nUpstream down"@),
{
    proof {
        reveal_strlit("HTTP/1.1 502 Bad Gateway\r\n\r\nUpstream down");
    }
    let mut out: Vec<u8> = Vec::new();
    push_all(&mut out, ascii_bytes("HTTP/1.1 502 Bad Gateway\r\n\r\nUpstream down"));
    out
}

} // verus!
