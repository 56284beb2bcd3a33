//! The relay engine's decisions, as state machines driven by the bytes that
//! each network read delivers (an empty read is the peer closing): reading
//! the response head, choosing the body framing, following it to the end of
//! the body, and deciding whether the upstream connection may be reused.
use vstd::prelude::*;

use crate::bytes::{contains, find_first, find_pattern, numeral_value, parse_number, push_all, trim, trim_bounds};
use crate::bytes::ascii;
use crate::http::{
    blank_line, crlf, find_header_end, header_end, is_http10, parse_response_info, response_facts,
    response_info, semicolon, ResponseInfo,
};

verus! {

/// Why a relay stopped before the exchange was complete.
#[derive(Clone, Copy, Debug, PartialEq, Eq, Structural)]
pub enum RelayError {
    /// The upstream closed inside the head or inside a chunked body.
    UnexpectedEof,
    /// The response head grew past the size cap.
    HeaderTooLarge,
    /// A chunk-size line is not a hexadecimal number.
    InvalidChunkSize,
}

/// Largest response head that is buffered.
pub const MAX_HEAD_BYTES: usize = 32768;

/// The size a chunk-size line declares: the part before any `;`, trimmed,
/// when it is a non-empty run of hexadecimal digits (either case) whose
/// value fits in a `usize`.
pub open spec fn chunk_size(line: Seq<u8>) -> Option<nat> {
    let end = match find_first(line, semicolon()) {
        Some(i) => i,
        None => line.len() as int,
    };
    numeral_value(trim(line.subrange(0, end)), 16)
}

/// Reads the size of a chunk from its size line (without the `\r\n`).
pub fn parse_chunk_size(line: &[u8]) -> (r: Result<usize, RelayError>)
    ensures
        match r {
            Ok(n) => chunk_size(line@) == Some(n as nat),
            Err(e) => chunk_size(line@) is None && e == RelayError::InvalidChunkSize,
        },
{
    let semi: [u8; 1] = [59];
    let p: &[u8] = &semi;
    assert(p@ == semicolon());
    let end = match find_pattern(line, p) {
        Some(i) => i,
        None => line.len(),
    };
    let digits = &line[0..end];
    let (a, b) = trim_bounds(digits);
    let token = &digits[a..b];
    if token.len() > 0 && token[0] == 43 {
        assert(!crate::bytes::is_digit(token@[0], 16));
        return Err(RelayError::InvalidChunkSize);
    }
    assert(crate::bytes::unsigned_digits(token@) == token@);
    match parse_number(token, 16) {
        Some(n) => Ok(n),
        None => Err(RelayError::InvalidChunkSize),
    }
}

/// A response head split off the bytes read from the upstream.
pub struct ResponseHead {
    /// The head, through the blank line that ends it.
    pub header: Vec<u8>,
    /// Body bytes that arrived in the same reads as the head.
    pub body_prefix: Vec<u8>,
    pub info: ResponseInfo,
}

/// Outcome of reading the head from everything received so far.
pub open spec fn head_outcome(s: Seq<u8>, r: Result<Option<ResponseHead>, RelayError>) -> bool {
    if s.len() > MAX_HEAD_BYTES {
        r == Err::<Option<ResponseHead>, RelayError>(RelayError::HeaderTooLarge)
    } else {
        match header_end(s) {
            Some(e) => match r {
                Ok(Some(h)) => h.header@ == s.subrange(0, e) && h.body_prefix@ == s.subrange(
                    e,
                    s.len() as int,
                ) && h.info == response_info(s.subrange(0, e)),
                _ => false,
            },
            None => r is Ok && r->Ok_0 is None,
        }
    }
}

/// Accumulates upstream reads until the response head is complete.
pub struct HeadReader {
    buf: Vec<u8>,
}

impl HeadReader {
    /// Everything received so far.
    pub closed spec fn received(&self) -> Seq<u8> {
        self.buf@
    }

    pub fn new() -> (r: HeadReader)
        ensures
            r.received() == Seq::<u8>::empty(),
    {
        HeadReader { buf: Vec::new() }
    }

    /// Takes the bytes of one read. An empty read means the upstream closed
    /// before the head was complete. Otherwise the bytes are appended; past
    /// the cap the head is refused, and once a blank line has arrived the
    /// head, the body bytes after it and the parsed facts are returned.
    pub fn feed(&mut self, data: &[u8]) -> (r: Result<Option<ResponseHead>, RelayError>)
        ensures
            data@.len() == 0 ==> r == Err::<Option<ResponseHead>, RelayError>(
                RelayError::UnexpectedEof,
            ) && final(self).received() == old(self).received(),
            data@.len() > 0 ==> final(self).received() == old(self).received() + data@
                && head_outcome(final(self).received(), r),
    {
        if data.len() == 0 {
            return Err(RelayError::UnexpectedEof);
        }
        push_all(&mut self.buf, data);
        if self.buf.len() > MAX_HEAD_BYTES {
            return Err(RelayError::HeaderTooLarge);
        }
        match find_header_end(self.buf.as_slice()) {
            Some(end) => {
                let mut header: Vec<u8> = Vec::new();
                push_all(&mut header, &self.buf.as_slice()[0..end]);
                let mut body_prefix: Vec<u8> = Vec::new();
                push_all(&mut body_prefix, &self.buf.as_slice()[end..self.buf.len()]);
                let info = parse_response_info(header.as_slice());
                Ok(Some(ResponseHead { header, body_prefix, info }))
            },
            None => Ok(None),
        }
    }
}

/// Where a body stands after a step: more to read, complete, or failed.
#[derive(Clone, Copy, Debug, PartialEq, Eq, Structural)]
pub enum BodyOutcome {
    More,
    Done,
    Failed(RelayError),
}

/// One step of a body relay: how many of the bytes just read are
/// forwarded, and where the body stands.
#[derive(Clone, Copy, Debug, PartialEq, Eq)]
pub struct BodyStep {
    pub forward: usize,
    pub outcome: BodyOutcome,
}

/// Relays a body of known length: forwards bytes until `remaining` reaches
/// zero, and ends quietly if the peer closes first.
pub struct LengthRelay {
    pub remaining: usize,
}

impl LengthRelay {
    /// A relay for `total` bytes of which `already` were forwarded with the head.
    pub fn new(total: usize, already: usize) -> (r: LengthRelay)
        ensures
            r.remaining == if already >= total {
                0
            } else {
                total - already
            },
    {
        LengthRelay { remaining: total.saturating_sub(already) }
    }

    /// Takes a read of `n` bytes (`0`: the peer closed).
    pub fn on_read(&mut self, n: usize) -> (r: BodyStep)
        ensures
            length_step(old(self).remaining, n, final(self).remaining, r),
    {
        if n == 0 {
            return BodyStep { forward: 0, outcome: BodyOutcome::Done };
        }
        let k = if n < self.remaining {
            n
        } else {
            self.remaining
        };
        self.remaining = self.remaining - k;
        let outcome = if self.remaining == 0 {
            BodyOutcome::Done
        } else {
            BodyOutcome::More
        };
        BodyStep { forward: k, outcome }
    }
}

/// The request body still to stream after the first read: present when the
/// request head is complete and declares a `Content-Length`, for what the
/// first read did not already hold.
pub fn request_body_relay(request_bytes: &[u8]) -> (r: Option<LengthRelay>)
    ensures
        match crate::http::request_body_length(request_bytes@) {
            Some((e, n)) => r is Some && r->Some_0.remaining == if request_bytes@.len() - e >= n {
                0
            } else {
                n - (request_bytes@.len() - e)
            },
            None => r is None,
        },
{
    match crate::http::request_content_length(request_bytes) {
        Some((end, n)) => Some(LengthRelay::new(n, request_bytes.len() - end)),
        None => None,
    }
}

/// `a` starts `t`.
pub open spec fn is_prefix(a: Seq<u8>, t: Seq<u8>) -> bool {
    a.len() <= t.len() && t.subrange(0, a.len() as int) == a
}

/// Where a chunked body stands, reading `s` from chunk boundary `pos`: each
/// chunk is a size line ending in `\r\n`, that many bytes and two more (the
/// `\r\n` after the data, taken as it comes); a zero size ends the body once
/// `\r\n\r\n` follows the size line's end (directly, or after trailer lines).
pub open spec fn chunked_status(s: Seq<u8>, pos: int) -> BodyOutcome
    decreases s.len() - pos,
{
    if pos < 0 || pos > s.len() {
        BodyOutcome::More
    } else {
        match find_first(s.subrange(pos, s.len() as int), crlf()) {
            None => BodyOutcome::More,
            Some(i) => {
                let le = pos + i;
                match chunk_size(s.subrange(pos, le)) {
                    None => BodyOutcome::Failed(RelayError::InvalidChunkSize),
                    Some(size) => if size == 0 {
                        if contains(s.subrange(le, s.len() as int), blank_line()) {
                            BodyOutcome::Done
                        } else {
                            BodyOutcome::More
                        }
                    } else if 0 <= i && le + size + 4 <= s.len() {
                        chunked_status(s, le + size + 4)
                    } else {
                        BodyOutcome::More
                    },
                }
            },
        }
    }
}

/// Moving over one complete chunk of `s` does not depend on bytes that
/// arrive after `s`.
proof fn lemma_chunk_step_stable(s: Seq<u8>, t: Seq<u8>, pos: int, i: int, size: nat)
    requires
        is_prefix(s, t),
        0 <= pos <= s.len(),
        find_first(s.subrange(pos, s.len() as int), crlf()) == Some(i),
        chunk_size(s.subrange(pos, pos + i)) == Some(size),
        size > 0,
        0 <= i,
        pos + i + size + 4 <= s.len(),
    ensures
        chunked_status(t, pos) == chunked_status(t, pos + i + size + 4),
{
    let ss = s.subrange(pos, s.len() as int);
    let ts = t.subrange(pos, t.len() as int);
    assert(crate::bytes::is_first_occurrence(ss, crlf(), i));
    assert(ts.subrange(i, i + 2) =~= ss.subrange(i, i + 2));
    assert forall|j: int| 0 <= j < i implies !crate::bytes::occurs_at(ts, crlf(), j) by {
        assert(!crate::bytes::occurs_at(ss, crlf(), j));
        assert(ts.subrange(j, j + 2) =~= ss.subrange(j, j + 2));
    }
    crate::bytes::lemma_first_occurrence_unique(ts, crlf(), i);
    assert(t.subrange(pos, pos + i) =~= s.subrange(pos, pos + i));
}

/// Follows a chunked body. Every byte is forwarded as soon as it is read;
/// parsing keeps a cursor at the next chunk boundary and only looks ahead
/// far enough to find where the body ends.
pub struct ChunkedRelay {
    buf: Vec<u8>,
    pos: usize,
}

impl ChunkedRelay {
    /// Everything received so far.
    pub closed spec fn received(&self) -> Seq<u8> {
        self.buf@
    }

    /// The cursor sits on a chunk boundary that any continuation of the
    /// received bytes reaches too.
    pub closed spec fn wf(&self) -> bool {
        &&& self.pos <= self.buf@.len()
        &&& forall|t: Seq<u8>|
            #[trigger] is_prefix(self.buf@, t) ==> chunked_status(t, 0) == chunked_status(
                t,
                self.pos as int,
            )
    }

    pub fn new() -> (r: ChunkedRelay)
        ensures
            r.wf(),
            r.received() == Seq::<u8>::empty(),
    {
        ChunkedRelay { buf: Vec::new(), pos: 0 }
    }

    /// Appends the bytes of one read and reports where the body stands.
    pub fn take(&mut self, data: &[u8]) -> (r: BodyOutcome)
        requires
            old(self).wf(),
        ensures
            final(self).wf(),
            final(self).received() == old(self).received() + data@,
            r == chunked_status(final(self).received(), 0),
    {
        let ghost before = self.buf@;
        push_all(&mut self.buf, data);
        proof {
            assert forall|t: Seq<u8>| #[trigger] is_prefix(self.buf@, t) implies is_prefix(
                before,
                t,
            ) by {
                assert(self.buf@.subrange(0, before.len() as int) =~= before);
                assert(t.subrange(0, before.len() as int) =~= t.subrange(
                    0,
                    self.buf@.len() as int,
                ).subrange(0, before.len() as int));
            }
        }
        let crlf_bytes: [u8; 2] = [13, 10];
        let blank: [u8; 4] = [13, 10, 13, 10];
        let cp: &[u8] = &crlf_bytes;
        let bp: &[u8] = &blank;
        assert(cp@ == crlf());
        assert(bp@ == blank_line());
        assert(is_prefix(self.buf@, self.buf@)) by {
            assert(self.buf@.subrange(0, self.buf@.len() as int) =~= self.buf@);
        }
        loop
            invariant
                self.wf(),
                cp@ == crlf(),
                bp@ == blank_line(),
                is_prefix(self.buf@, self.buf@),
                self.buf@ == before + data@,
                before == old(self).received(),
            decreases self.buf@.len() - self.pos,
        {
            let len = self.buf.len();
            let pos = self.pos;
            let rest = &self.buf.as_slice()[pos..len];
            let i = match find_pattern(rest, cp) {
                Some(i) => i,
                None => {
                    return BodyOutcome::More;
                },
            };
            let le = pos + i;
            assert(rest@.subrange(0, i as int) =~= self.buf@.subrange(pos as int, le as int));
            let size = match parse_chunk_size(&rest[0..i]) {
                Ok(n) => n,
                Err(e) => {
                    return BodyOutcome::Failed(e);
                },
            };
            if size == 0 {
                let tail = &self.buf.as_slice()[le..len];
                if find_pattern(tail, bp).is_some() {
                    return BodyOutcome::Done;
                } else {
                    return BodyOutcome::More;
                }
            }
            let avail = len - le;
            if avail < 4 || size > avail - 4 {
                return BodyOutcome::More;
            }
            let next = le + size + 4;
            proof {
                assert forall|t: Seq<u8>| #[trigger] is_prefix(self.buf@, t) implies chunked_status(
                    t,
                    0,
                ) == chunked_status(t, next as int) by {
                    lemma_chunk_step_stable(self.buf@, t, pos as int, i as int, size as nat);
                }
            }
            self.pos = next;
        }
    }
}

/// How a response body is framed: chunked first, then a known length, else
/// everything until the upstream closes.
pub enum BodyRelay {
    Chunked(ChunkedRelay),
    Length(LengthRelay),
    UntilClose,
}

/// The step of a length relay that takes a read of `n` bytes.
pub open spec fn length_step(before: usize, n: usize, after: usize, r: BodyStep) -> bool {
    if n == 0 {
        r == (BodyStep { forward: 0, outcome: BodyOutcome::Done }) && after == before
    } else {
        let k = if n < before {
            n
        } else {
            before
        };
        &&& r.forward == k
        &&& after == before - k
        &&& r.outcome == if after == 0 {
            BodyOutcome::Done
        } else {
            BodyOutcome::More
        }
    }
}

/// The first step of a body relay: what it does with the body bytes that
/// came with the head.
pub open spec fn start_step(info: ResponseInfo, prefix: Seq<u8>) -> BodyStep {
    if info.chunked {
        BodyStep { forward: prefix.len() as usize, outcome: chunked_status(prefix, 0) }
    } else {
        match info.content_length {
            Some(n) => {
                let k = if prefix.len() < n {
                    prefix.len()
                } else {
                    n as nat
                };
                BodyStep {
                    forward: k as usize,
                    outcome: if n - k == 0 {
                        BodyOutcome::Done
                    } else {
                        BodyOutcome::More
                    },
                }
            },
            None => BodyStep { forward: prefix.len() as usize, outcome: BodyOutcome::More },
        }
    }
}

/// The relay that `BodyRelay::start` builds for a response.
pub open spec fn started(info: ResponseInfo, prefix: Seq<u8>, b: BodyRelay) -> bool {
    if info.chunked {
        b is Chunked && b.chunked_received() == prefix
    } else {
        match info.content_length {
            Some(n) => b is Length && b->Length_0.remaining == n - start_step(info, prefix).forward,
            None => b is UntilClose,
        }
    }
}

/// What a body relay does with the bytes of one read (empty: closed).
pub open spec fn body_step(b: BodyRelay, data: Seq<u8>) -> BodyStep {
    match b {
        BodyRelay::Chunked(_) => if data.len() == 0 {
            BodyStep { forward: 0, outcome: BodyOutcome::Failed(RelayError::UnexpectedEof) }
        } else {
            BodyStep {
                forward: data.len() as usize,
                outcome: chunked_status(b.chunked_received() + data, 0),
            }
        },
        BodyRelay::Length(l) => if data.len() == 0 {
            BodyStep { forward: 0, outcome: BodyOutcome::Done }
        } else {
            let k = if data.len() < l.remaining {
                data.len()
            } else {
                l.remaining as nat
            };
            BodyStep {
                forward: k as usize,
                outcome: if l.remaining - k == 0 {
                    BodyOutcome::Done
                } else {
                    BodyOutcome::More
                },
            }
        },
        BodyRelay::UntilClose => if data.len() == 0 {
            BodyStep { forward: 0, outcome: BodyOutcome::Done }
        } else {
            BodyStep { forward: data.len() as usize, outcome: BodyOutcome::More }
        },
    }
}

/// The relay after a read: same framing, with the read taken in.
pub open spec fn body_next(b: BodyRelay, data: Seq<u8>, after: BodyRelay) -> bool {
    match b {
        BodyRelay::Chunked(_) => after is Chunked && after.chunked_received() == if data.len() == 0 {
            b.chunked_received()
        } else {
            b.chunked_received() + data
        },
        BodyRelay::Length(l) => after is Length && after->Length_0.remaining == l.remaining - body_step(
            b,
            data,
        ).forward,
        BodyRelay::UntilClose => after is UntilClose,
    }
}

impl BodyRelay {
    pub closed spec fn wf(&self) -> bool {
        match self {
            BodyRelay::Chunked(c) => c.wf(),
            _ => true,
        }
    }

    /// Bytes received so far by a chunked relay.
    pub closed spec fn chunked_received(&self) -> Seq<u8> {
        match self {
            BodyRelay::Chunked(c) => c.received(),
            _ => Seq::empty(),
        }
    }

    /// Picks the framing for a response and takes the body bytes that came
    /// with its head. A chunked body forwards them all; a body of known
    /// length forwards at most that many; a body read until close forwards
    /// them all.
    pub fn start(info: &ResponseInfo, prefix: &[u8]) -> (r: (BodyRelay, BodyStep))
        ensures
            r.0.wf(),
            r.1 == start_step(*info, prefix@),
            started(*info, prefix@, r.0),
    {
        if info.chunked {
            let mut c = ChunkedRelay::new();
            let outcome = c.take(prefix);
            assert(c.received() =~= prefix@);
            (BodyRelay::Chunked(c), BodyStep { forward: prefix.len(), outcome })
        } else {
            match info.content_length {
                Some(n) => {
                    let mut l = LengthRelay { remaining: n };
                    let step = if prefix.len() == 0 {
                        let outcome = if n == 0 {
                            BodyOutcome::Done
                        } else {
                            BodyOutcome::More
                        };
                        BodyStep { forward: 0, outcome }
                    } else {
                        l.on_read(prefix.len())
                    };
                    (BodyRelay::Length(l), step)
                },
                None => (BodyRelay::UntilClose, BodyStep { forward: prefix.len(), outcome: BodyOutcome::More }),
            }
        }
    }

    /// Takes the bytes of one upstream read (empty: the upstream closed).
    pub fn on_read(&mut self, data: &[u8]) -> (r: BodyStep)
        requires
            old(self).wf(),
        ensures
            final(self).wf(),
            r == body_step(*old(self), data@),
            body_next(*old(self), data@, *final(self)),
    {
        match self {
            BodyRelay::Chunked(c) => {
                if data.len() == 0 {
                    BodyStep { forward: 0, outcome: BodyOutcome::Failed(RelayError::UnexpectedEof) }
                } else {
                    let outcome = c.take(data);
                    BodyStep { forward: data.len(), outcome }
                }
            },
            BodyRelay::Length(l) => l.on_read(data.len()),
            BodyRelay::UntilClose => {
                if data.len() == 0 {
                    BodyStep { forward: 0, outcome: BodyOutcome::Done }
                } else {
                    BodyStep { forward: data.len(), outcome: BodyOutcome::More }
                }
            },
        }
    }
}

/// The upstream connection goes back to the pool only when the body was
/// relayed to its end and the response allows keep-alive.
pub fn may_reuse(outcome: BodyOutcome, info: &ResponseInfo) -> (r: bool)
    ensures
        r == (outcome == BodyOutcome::Done && info.keep_alive),
{
    match outcome {
        BodyOutcome::Done => info.keep_alive,
        _ => false,
    }
}

/// A response that does not allow keep-alive never hands its connection
/// back, however its body relay ended; under HTTP/1.1 a `Connection` header
/// whose value contains `close` is such a response.
pub proof fn lemma_close_never_reused(h: Seq<u8>, outcome: BodyOutcome)
    requires
        !is_http10(h),
        response_facts(h).0 is Some,
        contains(response_facts(h).0->Some_0, ascii("close"@)),
    ensures
        !response_info(h).keep_alive,
        !(outcome == BodyOutcome::Done && response_info(h).keep_alive),
{
}

} // verus!
