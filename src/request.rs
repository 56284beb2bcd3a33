//! The request line: its whitespace-separated words, the path used for
//! routing, and the rewrite that strips a route prefix before forwarding.
use vstd::prelude::*;

use vstd::string::StringSliceAdditionalSpecFns;

use crate::bytes::{find_first, is_ws, is_ws_byte, matches_at, push_all};
use crate::http::{crlf, find_line_end, line_end};

verus! {

/// Length of the run of non-whitespace bytes that starts `s`.
pub open spec fn token_len(s: Seq<u8>) -> nat
    decreases s.len(),
{
    if s.len() > 0 && !is_ws(s[0]) {
        1 + token_len(s.drop_first())
    } else {
        0
    }
}

pub proof fn lemma_token_len_bound(s: Seq<u8>)
    ensures
        token_len(s) <= s.len(),
    decreases s.len(),
{
    if s.len() > 0 && !is_ws(s[0]) {
        lemma_token_len_bound(s.drop_first());
    }
}

/// The whitespace-separated words of `s`, in order.
pub open spec fn words(s: Seq<u8>) -> Seq<Seq<u8>>
    decreases s.len(),
{
    if s.len() == 0 {
        seq![]
    } else if is_ws(s[0]) {
        words(s.drop_first())
    } else {
        proof {
            lemma_token_len_bound(s);
        }
        let k = token_len(s) as int;
        seq![s.subrange(0, k)] + words(s.subrange(k, s.len() as int))
    }
}

/// Finds the next word of `s` at or after `from`: its bounds, or
/// `(len, len)` when only whitespace is left.
pub fn next_word(s: &[u8], from: usize) -> (r: (usize, usize))
    requires
        from <= s@.len(),
    ensures
        from <= r.0 <= r.1 <= s@.len(),
        r.0 == r.1 ==> r.0 == s@.len() && words(s@.subrange(from as int, s@.len() as int))
            == Seq::<Seq<u8>>::empty(),
        r.0 < r.1 ==> words(s@.subrange(from as int, s@.len() as int)) == seq![
            s@.subrange(r.0 as int, r.1 as int),
        ] + words(s@.subrange(r.1 as int, s@.len() as int)),
{
    let n = s.len();
    let mut a: usize = from;
    while a < n && is_ws_byte(s[a])
        invariant
            from <= a <= n == s@.len(),
            words(s@.subrange(from as int, n as int)) == words(s@.subrange(a as int, n as int)),
        decreases n - a,
    {
        assert(s@.subrange(a as int, n as int).drop_first() =~= s@.subrange(a + 1, n as int));
        a = a + 1;
    }
    if a == n {
        assert(s@.subrange(a as int, n as int).len() == 0);
        return (n, n);
    }
    let mut b: usize = a;
    while b < n && !is_ws_byte(s[b])
        invariant
            a <= b <= n == s@.len(),
            token_len(s@.subrange(a as int, n as int)) == (b - a) + token_len(
                s@.subrange(b as int, n as int),
            ),
        decreases n - b,
    {
        assert(s@.subrange(b as int, n as int).drop_first() =~= s@.subrange(b + 1, n as int));
        b = b + 1;
    }
    proof {
        let t = s@.subrange(a as int, n as int);
        assert(token_len(s@.subrange(b as int, n as int)) == 0);
        assert(t.subrange(0, (b - a) as int) =~= s@.subrange(a as int, b as int));
        assert(t.subrange((b - a) as int, t.len() as int) =~= s@.subrange(b as int, n as int));
    }
    (a, b)
}

/// `path` with a leading `route` replaced by `/`; unchanged otherwise.
pub open spec fn strip_route(path: Seq<u8>, route: Seq<u8>) -> Seq<u8> {
    if route.len() <= path.len() && path.subrange(0, route.len() as int) == route {
        seq![47u8] + path.subrange(route.len() as int, path.len() as int)
    } else {
        path
    }
}

/// The request as forwarded upstream. The request line (up to the first
/// `\r\n`) becomes method, rewritten path and version joined by single
/// spaces; everything from that `\r\n` on is kept. A request without a
/// `\r\n`, or whose line has fewer than three words, is kept as it is.
pub open spec fn rewrite_request(s: Seq<u8>, route: Seq<u8>) -> Seq<u8> {
    match find_first(s, crlf()) {
        None => s,
        Some(le) => {
            let w = words(s.subrange(0, le));
            if w.len() < 3 {
                s
            } else {
                w[0] + seq![32u8] + strip_route(w[1], route) + seq![32u8] + w[2] + s.subrange(
                    le,
                    s.len() as int,
                )
            }
        },
    }
}

/// Rewrites the request line so that the matched route prefix becomes `/`;
/// header and body bytes that follow it are forwarded unchanged.
pub fn rewrite_request_line(request_bytes: &[u8], route: &str) -> (r: Vec<u8>)
    ensures
        r@ == rewrite_request(request_bytes@, route.spec_bytes()),
{
    let mut out: Vec<u8> = Vec::new();
    let pat: [u8; 2] = [13, 10];
    let p: &[u8] = &pat;
    assert(p@ == crlf());
    let le = match crate::bytes::find_pattern(request_bytes, p) {
        Some(i) => i,
        None => {
            push_all(&mut out, request_bytes);
            assert(out@ =~= request_bytes@);
            return out;
        },
    };
    let line = &request_bytes[0..le];
    let (a0, b0) = next_word(line, 0);
    let (a1, b1) = next_word(line, b0);
    let (a2, b2) = next_word(line, b1);
    assert(line@.subrange(0, line@.len() as int) =~= line@);
    if a0 == b0 || a1 == b1 || a2 == b2 {
        push_all(&mut out, request_bytes);
        assert(out@ =~= request_bytes@);
        return out;
    }
    let method = &line[a0..b0];
    let path = &line[a1..b1];
    let version = &line[a2..b2];
    let route_bytes = route.as_bytes();
    push_all(&mut out, method);
    out.push(32);
    if matches_at(path, 0, route_bytes) {
        out.push(47);
        push_all(&mut out, &path[route_bytes.len()..path.len()]);
    } else {
        push_all(&mut out, path);
    }
    out.push(32);
    push_all(&mut out, version);
    push_all(&mut out, &request_bytes[le..request_bytes.len()]);
    proof {
        let w = words(line@);
        assert(w[0] == method@);
        assert(w[1] == path@);
        assert(w[2] == version@);
    }
    assert(out@ =~= rewrite_request(request_bytes@, route.spec_bytes()));
    out
}

/// The path of a request: the second word of its first line, or `/` when
/// that line has fewer than two words.
pub open spec fn request_target(s: Seq<u8>) -> Seq<u8> {
    let w = words(s.subrange(0, line_end(s)));
    if w.len() >= 2 {
        w[1]
    } else {
        seq![47u8]
    }
}

/// The request path that routing and static files go by.
pub fn request_path(buf: &[u8]) -> (r: Vec<u8>)
    ensures
        r@ == request_target(buf@),
{
    let e = find_line_end(buf);
    let line = &buf[0..e];
    let (a0, b0) = next_word(line, 0);
    let (a1, b1) = next_word(line, b0);
    assert(line@.subrange(0, line@.len() as int) =~= line@);
    let mut out: Vec<u8> = Vec::new();
    if a0 == b0 || a1 == b1 {
        out.push(47);
        assert(out@ =~= seq![47u8]);
    } else {
        push_all(&mut out, &line[a1..b1]);
        assert(out@ =~= words(line@)[1]);
    }
    out
}

/// `w` is a single word: non-empty, with no whitespace byte.
pub open spec fn is_word(w: Seq<u8>) -> bool {
    w.len() > 0 && forall|i: int| 0 <= i < w.len() ==> !is_ws(#[trigger] w[i])
}

/// `t` is empty or starts with whitespace.
pub open spec fn starts_with_ws_or_empty(t: Seq<u8>) -> bool {
    t.len() == 0 || is_ws(t[0])
}

proof fn lemma_token_len_word(w: Seq<u8>, t: Seq<u8>)
    requires
        forall|i: int| 0 <= i < w.len() ==> !is_ws(#[trigger] w[i]),
        starts_with_ws_or_empty(t),
    ensures
        token_len(w + t) == w.len(),
    decreases w.len(),
{
    if w.len() > 0 {
        assert((w + t).drop_first() =~= w.drop_first() + t);
        lemma_token_len_word(w.drop_first(), t);
    } else {
        assert(w + t =~= t);
    }
}

proof fn lemma_words_word(w: Seq<u8>, t: Seq<u8>)
    requires
        is_word(w),
        starts_with_ws_or_empty(t),
    ensures
        words(w + t) == seq![w] + words(t),
{
    lemma_token_len_word(w, t);
    let s = w + t;
    assert(!is_ws(s[0]));
    assert(s.subrange(0, w.len() as int) =~= w);
    assert(s.subrange(w.len() as int, s.len() as int) =~= t);
}

proof fn lemma_words_space(t: Seq<u8>)
    ensures
        words(seq![32u8] + t) == words(t),
{
    assert((seq![32u8] + t).drop_first() =~= t);
}

/// The words of a line made of three words separated by single spaces.
proof fn lemma_words_three(a: Seq<u8>, b: Seq<u8>, c: Seq<u8>)
    requires
        is_word(a),
        is_word(b),
        is_word(c),
    ensures
        words(a + seq![32u8] + b + seq![32u8] + c) == seq![a, b, c],
{
    let sp = seq![32u8];
    let empty = Seq::<u8>::empty();
    lemma_words_word(c, empty);
    assert(c + empty =~= c);
    assert(words(empty) == Seq::<Seq<u8>>::empty());
    lemma_words_space(c);
    lemma_words_word(b, sp + c);
    lemma_words_space(b + (sp + c));
    lemma_words_word(a, sp + (b + (sp + c)));
    assert(a + sp + b + sp + c =~= a + (sp + (b + (sp + c))));
    assert(seq![a] + (seq![b] + (seq![c] + Seq::<Seq<u8>>::empty())) =~= seq![a, b, c]);
}

/// Forwarding a request whose path is a route prefix followed by `suffix`
/// puts `/` followed by `suffix` in its place; method, version and every
/// byte from the end of the request line on are kept.
pub proof fn lemma_route_prefix_rewritten(
    method: Seq<u8>,
    route: Seq<u8>,
    suffix: Seq<u8>,
    version: Seq<u8>,
    rest: Seq<u8>,
)
    requires
        is_word(method),
        is_word(route + suffix),
        is_word(version),
    ensures
        rewrite_request(
            method + seq![32u8] + (route + suffix) + seq![32u8] + version + crlf() + rest,
            route,
        ) == method + seq![32u8] + (seq![47u8] + suffix) + seq![32u8] + version + crlf() + rest,
{
    let sp = seq![32u8];
    let path = route + suffix;
    let line = method + sp + path + sp + version;
    let s = line + crlf() + rest;
    assert(s =~= method + sp + path + sp + version + crlf() + rest);
    assert forall|j: int| 0 <= j < line.len() implies #[trigger] line[j] != 13u8 by {
        if j < method.len() {
            assert(line[j] == method[j]);
        } else if j == method.len() {
            assert(line[j] == 32u8);
        } else if j < method.len() + 1 + path.len() {
            assert(line[j] == path[j - method.len() - 1]);
        } else if j == method.len() + 1 + path.len() {
            assert(line[j] == 32u8);
        } else {
            assert(line[j] == version[j - method.len() - 2 - path.len()]);
        }
    }
    let le = line.len() as int;
    assert(s.subrange(le, le + 2) =~= crlf());
    assert forall|j: int| 0 <= j < le implies !#[trigger] crate::bytes::occurs_at(s, crlf(), j) by {
        assert(s[j] == line[j]);
        if crate::bytes::occurs_at(s, crlf(), j) {
            assert(s.subrange(j, j + 2)[0] == s[j]);
        }
    }
    crate::bytes::lemma_first_occurrence_unique(s, crlf(), le);
    assert(s.subrange(0, le) =~= line);
    lemma_words_three(method, path, version);
    assert(path.subrange(0, route.len() as int) =~= route);
    assert(path.subrange(route.len() as int, path.len() as int) =~= suffix);
    assert(s.subrange(le, s.len() as int) =~= crlf() + rest);
    assert(rewrite_request(s, route) =~= method + sp + (seq![47u8] + suffix) + sp + version + (crlf()
        + rest));
    assert(method + sp + (seq![47u8] + suffix) + sp + version + (crlf() + rest) =~= method + sp + (
    seq![47u8] + suffix) + sp + version + crlf() + rest);
}

} // verus!
