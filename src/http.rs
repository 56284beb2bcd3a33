//! HTTP/1.x message heads: the blank line that ends them, header lines and
//! fields, the `Content-Length` of a request, and the reuse and framing
//! facts of a response.
use vstd::prelude::*;

use crate::bytes::{
    ascii, ascii_bytes, bytes_eq, contains, eq_ignore_case, find_first, find_pattern, lower_seq,
    parse_number, parse_radix, to_lower_vec, trim, trim_bounds,
};

verus! {

pub open spec fn crlf() -> Seq<u8> {
    seq![13u8, 10u8]
}

pub open spec fn blank_line() -> Seq<u8> {
    seq![13u8, 10u8, 13u8, 10u8]
}

pub open spec fn newline() -> Seq<u8> {
    seq![10u8]
}

pub open spec fn colon() -> Seq<u8> {
    seq![58u8]
}

pub open spec fn semicolon() -> Seq<u8> {
    seq![59u8]
}

/// Index just past the first `\r\n\r\n` of `s`, if any.
pub open spec fn header_end(s: Seq<u8>) -> Option<int> {
    match find_first(s, blank_line()) {
        Some(i) => Some(i + 4),
        None => None,
    }
}

/// Index of the first `\n` of `s`, or its length.
pub open spec fn line_end(s: Seq<u8>) -> int {
    match find_first(s, newline()) {
        Some(i) => i,
        None => s.len() as int,
    }
}

/// Name and value of a header line: the parts before and after its first
/// colon, with surrounding whitespace left out.
pub open spec fn header_field(line: Seq<u8>) -> Option<(Seq<u8>, Seq<u8>)> {
    match find_first(line, colon()) {
        Some(c) => Some((trim(line.subrange(0, c)), trim(line.subrange(c + 1, line.len() as int)))),
        None => None,
    }
}

/// The decimal value of a `Content-Length` line (name in any case).
pub open spec fn line_content_length(line: Seq<u8>) -> Option<nat> {
    match header_field(line) {
        Some((k, v)) => if lower_seq(k) == ascii("content-length"@) {
            parse_radix(v, 10)
        } else {
            None
        },
        None => None,
    }
}

/// The first line of `s` that declares a valid `Content-Length`.
pub open spec fn first_content_length(s: Seq<u8>) -> Option<nat>
    decreases s.len(),
{
    let e = line_end(s);
    match line_content_length(s.subrange(0, e)) {
        Some(n) => Some(n),
        None => if 0 <= e < s.len() {
            first_content_length(s.subrange(e + 1, s.len() as int))
        } else {
            None
        },
    }
}

/// Header end and declared body length of a buffered request: both are
/// present only when the head is complete and declares a `Content-Length`.
pub open spec fn request_body_length(s: Seq<u8>) -> Option<(int, nat)> {
    match header_end(s) {
        Some(e) => match first_content_length(s.subrange(0, e)) {
            Some(n) => Some((e, n)),
            None => None,
        },
        None => None,
    }
}

/// Position just past the blank line that ends the head in `buf`.
pub fn find_header_end(buf: &[u8]) -> (r: Option<usize>)
    ensures
        match r {
            Some(e) => header_end(buf@) == Some(e as int) && e <= buf@.len(),
            None => header_end(buf@) is None,
        },
{
    let pat: [u8; 4] = [13, 10, 13, 10];
    let p: &[u8] = &pat;
    assert(p@ == blank_line());
    match find_pattern(buf, p) {
        Some(i) => Some(i + 4),
        None => None,
    }
}

/// End of the first line of `s` (its `\n`, or the length of `s`).
pub fn find_line_end(s: &[u8]) -> (r: usize)
    ensures
        r == line_end(s@),
        r <= s@.len(),
{
    let nl: [u8; 1] = [10];
    let p: &[u8] = &nl;
    assert(p@ == newline());
    match find_pattern(s, p) {
        Some(i) => i,
        None => s.len(),
    }
}

/// Splits a header line into its trimmed name and value.
pub fn split_header<'a>(line: &'a [u8]) -> (r: Option<(&'a [u8], &'a [u8])>)
    ensures
        match r {
            Some((k, v)) => header_field(line@) == Some((k@, v@)),
            None => header_field(line@) is None,
        },
{
    let c: [u8; 1] = [58];
    let p: &[u8] = &c;
    assert(p@ == colon());
    match find_pattern(line, p) {
        Some(i) => {
            let key = &line[0..i];
            let value = &line[i + 1..line.len()];
            let (ka, kb) = trim_bounds(key);
            let (va, vb) = trim_bounds(value);
            Some((&key[ka..kb], &value[va..vb]))
        },
        None => None,
    }
}

/// The value of a header line when it is a valid `Content-Length`.
fn header_content_length(line: &[u8]) -> (r: Option<usize>)
    ensures
        match r {
            Some(n) => line_content_length(line@) == Some(n as nat),
            None => line_content_length(line@) is None,
        },
{
    match split_header(line) {
        Some((k, v)) => {
            proof {
                reveal_strlit("content-length");
            }
            if eq_ignore_case(k, ascii_bytes("content-length")) {
                parse_number(v, 10)
            } else {
                None
            }
        },
        None => None,
    }
}

/// Header end and `Content-Length` of a buffered request, when its head is
/// complete and declares one.
pub fn request_content_length(request_bytes: &[u8]) -> (r: Option<(usize, usize)>)
    ensures
        match r {
            Some((e, n)) => request_body_length(request_bytes@) == Some((e as int, n as nat))
                && e <= request_bytes@.len(),
            None => request_body_length(request_bytes@) is None,
        },
{
    let end = match find_header_end(request_bytes) {
        Some(e) => e,
        None => return None,
    };
    let head = &request_bytes[0..end];
    let mut pos: usize = 0;
    assert(head@.subrange(0, head@.len() as int) =~= head@);
    loop
        invariant
            pos <= head@.len(),
            head@ == request_bytes@.subrange(0, end as int),
            header_end(request_bytes@) == Some(end as int),
            end <= request_bytes@.len(),
            first_content_length(head@) == first_content_length(
                head@.subrange(pos as int, head@.len() as int),
            ),
        decreases head@.len() - pos,
    {
        let rest = &head[pos..head.len()];
        let e = find_line_end(rest);
        match header_content_length(&rest[0..e]) {
            Some(n) => {
                return Some((end, n));
            },
            None => {},
        }
        if e >= rest.len() {
            return None;
        }
        assert(rest@.subrange(e + 1, rest@.len() as int) =~= head@.subrange(
            pos + e + 1,
            head@.len() as int,
        ));
        pos = pos + e + 1;
    }
}

/// What the header lines of a response say so far: the last `Connection`
/// value (lower case), the last `Content-Length`, and whether any
/// `Transfer-Encoding` mentions `chunked`.
pub type HeaderFacts = (Option<Seq<u8>>, Option<nat>, bool);

pub open spec fn apply_header(acc: HeaderFacts, line: Seq<u8>) -> HeaderFacts {
    match header_field(line) {
        Some((k, v)) => {
            let key = lower_seq(k);
            let val = lower_seq(v);
            if key == ascii("connection"@) {
                (Some(val), acc.1, acc.2)
            } else if key == ascii("content-length"@) {
                (acc.0, parse_radix(val, 10), acc.2)
            } else if key == ascii("transfer-encoding"@) {
                (acc.0, acc.1, acc.2 || contains(val, ascii("chunked"@)))
            } else {
                acc
            }
        },
        None => acc,
    }
}

/// Folds `apply_header` over the lines of `s`, first to last.
pub open spec fn fold_headers(s: Seq<u8>, acc: HeaderFacts) -> HeaderFacts
    decreases s.len(),
{
    let e = line_end(s);
    let next = apply_header(acc, s.subrange(0, e));
    if 0 <= e < s.len() {
        fold_headers(s.subrange(e + 1, s.len() as int), next)
    } else {
        next
    }
}

/// Reuse and framing facts of a response head.
#[derive(Clone, Copy, Debug, PartialEq, Eq)]
pub struct ResponseInfo {
    pub keep_alive: bool,
    pub content_length: Option<usize>,
    pub chunked: bool,
}

/// The facts gathered from the header lines that follow the status line.
pub open spec fn response_facts(h: Seq<u8>) -> HeaderFacts {
    let e = line_end(h);
    if 0 <= e < h.len() {
        fold_headers(h.subrange(e + 1, h.len() as int), (None, None, false))
    } else {
        (None, None, false)
    }
}

/// The status line starts with `HTTP/1.0`.
pub open spec fn is_http10(h: Seq<u8>) -> bool {
    let status = h.subrange(0, line_end(h));
    status.len() >= 8 && status.subrange(0, 8) == ascii("HTTP/1.0"@)
}

/// HTTP/1.0 keeps the connection only when `Connection` asks for
/// `keep-alive`; later versions keep it unless `Connection` says `close`.
pub open spec fn keep_alive_of(http10: bool, connection: Option<Seq<u8>>) -> bool {
    if http10 {
        match connection {
            Some(v) => contains(v, ascii("keep-alive"@)),
            None => false,
        }
    } else {
        match connection {
            Some(v) => !contains(v, ascii("close"@)),
            None => true,
        }
    }
}

pub open spec fn response_info(h: Seq<u8>) -> ResponseInfo {
    let facts = response_facts(h);
    ResponseInfo {
        keep_alive: keep_alive_of(is_http10(h), facts.0),
        content_length: match facts.1 {
            Some(n) => Some(n as usize),
            None => None,
        },
        chunked: facts.2,
    }
}

pub open spec fn opt_view(o: Option<Vec<u8>>) -> Option<Seq<u8>> {
    match o {
        Some(v) => Some(v@),
        None => None,
    }
}

pub open spec fn opt_nat(o: Option<usize>) -> Option<nat> {
    match o {
        Some(n) => Some(n as nat),
        None => None,
    }
}

/// Applies one header line to the facts gathered so far.
fn apply_header_line(
    line: &[u8],
    connection: &mut Option<Vec<u8>>,
    content_length: &mut Option<usize>,
    chunked: &mut bool,
)
    ensures
        (opt_view(*final(connection)), opt_nat(*final(content_length)), *final(chunked))
            == apply_header(
            (opt_view(*old(connection)), opt_nat(*old(content_length)), *old(chunked)),
            line@,
        ),
        forall|n: usize| *final(content_length) == Some(n) ==> n <= usize::MAX,
{
    match split_header(line) {
        Some((k, v)) => {
            let key = to_lower_vec(k);
            let val = to_lower_vec(v);
            proof {
                reveal_strlit("connection");
                reveal_strlit("content-length");
                reveal_strlit("transfer-encoding");
                reveal_strlit("chunked");
            }
            if eq_ignore_case(key.as_slice(), ascii_bytes("connection")) {
                assert(lower_seq(key@) =~= key@);
                *connection = Some(val);
            } else if eq_ignore_case(key.as_slice(), ascii_bytes("content-length")) {
                assert(lower_seq(key@) =~= key@);
                *content_length = parse_number(val.as_slice(), 10);
            } else if eq_ignore_case(key.as_slice(), ascii_bytes("transfer-encoding")) {
                assert(lower_seq(key@) =~= key@);
                if find_pattern(val.as_slice(), ascii_bytes("chunked")).is_some() {
                    *chunked = true;
                }
            } else {
                assert(lower_seq(key@) =~= key@);
            }
        },
        None => {},
    }
}

/// Keep-alive, `Content-Length` and chunked framing of a response head.
pub fn parse_response_info(header: &[u8]) -> (r: ResponseInfo)
    ensures
        r == response_info(header@),
{
    let first = find_line_end(header);
    proof {
        reveal_strlit("HTTP/1.0");
        reveal_strlit("keep-alive");
        reveal_strlit("close");
    }
    let status = &header[0..first];
    let http10 = status.len() >= 8 && bytes_eq(&status[0..8], ascii_bytes("HTTP/1.0"));
    let mut connection: Option<Vec<u8>> = None;
    let mut content_length: Option<usize> = None;
    let mut chunked = false;
    if first < header.len() {
        let body = &header[first + 1..header.len()];
        let mut pos: usize = 0;
        assert(body@.subrange(0, body@.len() as int) =~= body@);
        loop
            invariant
                pos <= body@.len(),
                fold_headers(body@, (None, None, false)) == fold_headers(
                    body@.subrange(pos as int, body@.len() as int),
                    (opt_view(connection), opt_nat(content_length), chunked),
                ),
            ensures
                fold_headers(body@, (None, None, false)) == (
                    opt_view(connection),
                    opt_nat(content_length),
                    chunked,
                ),
            decreases body@.len() - pos,
        {
            let rest = &body[pos..body.len()];
            let e = find_line_end(rest);
            apply_header_line(&rest[0..e], &mut connection, &mut content_length, &mut chunked);
            if e >= rest.len() {
                break;
            }
            assert(rest@.subrange(e + 1, rest@.len() as int) =~= body@.subrange(
                pos + e + 1,
                body@.len() as int,
            ));
            pos = pos + e + 1;
        }
    }
    let keep_alive = match &connection {
        Some(v) => if http10 {
            find_pattern(v.as_slice(), ascii_bytes("keep-alive")).is_some()
        } else {
            find_pattern(v.as_slice(), ascii_bytes("close")).is_none()
        },
        None => !http10,
    };
    let r = ResponseInfo { keep_alive, content_length, chunked };
    assert(is_http10(header@) == http10);
    assert(response_facts(header@) == (opt_view(connection), opt_nat(content_length), chunked));
    assert(r.keep_alive == response_info(header@).keep_alive);
    assert(r.content_length == response_info(header@).content_length);
    r
}

} // verus!
