//! One proxied exchange as a state machine. The driver performs each
//! action (a write, followed by a read or the end of the exchange) and hands
//! every read back; all choices are made here: the rewritten request goes
//! first, followed by what is left of a request body, the response head, the
//! response body in its framing, and last the reuse decision.
use vstd::prelude::*;

use vstd::string::StringSliceAdditionalSpecFns;

use crate::bytes::push_all;
use crate::http::{header_end, request_body_length, response_info, ResponseInfo};
use crate::relay::{
    body_next, body_step, may_reuse, request_body_relay, start_step, started, BodyOutcome,
    BodyRelay, HeadReader, LengthRelay, RelayError, MAX_HEAD_BYTES,
};
use crate::request::{rewrite_request, rewrite_request_line};

verus! {

#[derive(Clone, Copy, Debug, PartialEq, Eq, Structural)]
pub enum Peer {
    Client,
    Upstream,
}

/// What the driver does after the write of an action.
#[derive(Clone, Copy, Debug, PartialEq, Eq, Structural)]
pub enum Next {
    /// Read from the peer and hand the bytes (none: it closed) to `received`.
    Read(Peer),
    /// The exchange is complete; `true` returns the upstream connection to the pool.
    Finish(bool),
    /// The exchange failed; the upstream connection is dropped.
    Fail(RelayError),
}

pub struct Action {
    /// Bytes to write first, and the peer they go to.
    pub write: Option<(Peer, Vec<u8>)>,
    pub next: Next,
}

/// `a` writes exactly `bytes` to `peer`, and writes nothing when `bytes` is empty.
pub open spec fn writes(a: Action, peer: Peer, bytes: Seq<u8>) -> bool {
    if bytes.len() == 0 {
        a.write is None
    } else {
        a.write is Some && a.write->Some_0.0 == peer && a.write->Some_0.1@ == bytes
    }
}

/// What follows a step of the response body.
pub open spec fn next_after(outcome: BodyOutcome, info: ResponseInfo) -> Next {
    match outcome {
        BodyOutcome::More => Next::Read(Peer::Upstream),
        BodyOutcome::Done => Next::Finish(info.keep_alive),
        BodyOutcome::Failed(e) => Next::Fail(e),
    }
}

/// Request body bytes still to stream after the first read.
pub open spec fn request_body_left(s: Seq<u8>) -> nat {
    match request_body_length(s) {
        Some((e, n)) => if s.len() - e >= n {
            0
        } else {
            (n - (s.len() - e)) as nat
        },
        None => 0,
    }
}

pub enum Exchange {
    /// Streaming the rest of the request body from the client.
    RequestBody(LengthRelay),
    /// Reading the response head from the upstream.
    Head(HeadReader),
    /// Relaying the response body.
    Body(BodyRelay, ResponseInfo),
    /// Finished or failed.
    Over,
}

fn copy_bytes(s: &[u8]) -> (r: Vec<u8>)
    ensures
        r@ == s@,
{
    let mut out: Vec<u8> = Vec::new();
    push_all(&mut out, s);
    assert(out@ =~= s@);
    out
}

fn write_of(peer: Peer, bytes: Vec<u8>) -> (r: Option<(Peer, Vec<u8>)>)
    ensures
        bytes@.len() == 0 ==> r is None,
        bytes@.len() > 0 ==> r is Some && r->Some_0.0 == peer && r->Some_0.1@ == bytes@,
{
    if bytes.len() == 0 {
        None
    } else {
        Some((peer, bytes))
    }
}

fn next_of(outcome: BodyOutcome, info: &ResponseInfo) -> (r: Next)
    ensures
        r == next_after(outcome, *info),
{
    match outcome {
        BodyOutcome::More => Next::Read(Peer::Upstream),
        BodyOutcome::Done => Next::Finish(may_reuse(outcome, info)),
        BodyOutcome::Failed(e) => Next::Fail(e),
    }
}

impl Exchange {
    pub open spec fn wf(&self) -> bool {
        match self {
            Exchange::Body(b, _) => b.wf(),
            _ => true,
        }
    }

    /// Starts the exchange for the first read of a request and the route
    /// it matched: the rewritten request goes upstream; the client is read
    /// next while a declared request body is incomplete, else the upstream.
    pub fn start(request: &[u8], route: &str) -> (r: (Exchange, Action))
        ensures
            r.0.wf(),
            writes(r.1, Peer::Upstream, rewrite_request(request@, route.spec_bytes())),
            request_body_left(request@) > 0 ==> r.0 is RequestBody && r.0->RequestBody_0.remaining
                == request_body_left(request@) && r.1.next == Next::Read(Peer::Client),
            request_body_left(request@) == 0 ==> r.0 is Head && r.0->Head_0.received()
                == Seq::<u8>::empty() && r.1.next == Next::Read(Peer::Upstream),
    {
        let forwarded = rewrite_request_line(request, route);
        let write = write_of(Peer::Upstream, forwarded);
        match request_body_relay(request) {
            Some(l) => {
                if l.remaining > 0 {
                    return (Exchange::RequestBody(l), Action { write, next: Next::Read(Peer::Client) });
                }
            },
            None => {},
        }
        (Exchange::Head(HeadReader::new()), Action { write, next: Next::Read(Peer::Upstream) })
    }

    /// Takes the bytes of the read the last action asked for (empty: the
    /// peer closed) and returns the next action. The upstream connection is
    /// handed back (`Finish(true)`) only when a response body has been
    /// relayed to its end and that response allows keep-alive; every relay
    /// error ends in `Fail`, and the driver drops the connection on any
    /// failed read or write.
    pub fn received(&mut self, data: &[u8]) -> (r: Action)
        requires
            old(self).wf(),
        ensures
            final(self).wf(),
            r.next == Next::Finish(true) ==> match *old(self) {
                Exchange::Head(h) => {
                    let s = h.received() + data@;
                    &&& data@.len() > 0 && s.len() <= MAX_HEAD_BYTES
                    &&& header_end(s) is Some
                    &&& response_info(s.subrange(0, header_end(s)->Some_0)).keep_alive
                    &&& start_step(
                        response_info(s.subrange(0, header_end(s)->Some_0)),
                        s.subrange(header_end(s)->Some_0, s.len() as int),
                    ).outcome == BodyOutcome::Done
                },
                Exchange::Body(b, info) => info.keep_alive && body_step(b, data@).outcome
                    == BodyOutcome::Done,
                _ => false,
            },
            match *old(self) {
                Exchange::RequestBody(l) => {
                    let k: nat = if data@.len() == 0 {
                        0
                    } else if data@.len() < l.remaining {
                        data@.len()
                    } else {
                        l.remaining as nat
                    };
                    &&& writes(r, Peer::Upstream, data@.subrange(0, k as int))
                    &&& if data@.len() > 0 && l.remaining - k > 0 {
                        *final(self) is RequestBody && (*final(self))->RequestBody_0.remaining
                            == l.remaining - k && r.next == Next::Read(Peer::Client)
                    } else {
                        *final(self) is Head && (*final(self))->Head_0.received() == Seq::<
                            u8,
                        >::empty() && r.next == Next::Read(Peer::Upstream)
                    }
                },
                Exchange::Head(h) => {
                    let s = h.received() + data@;
                    if data@.len() == 0 {
                        r.write is None && r.next == Next::Fail(RelayError::UnexpectedEof)
                            && *final(self) is Over
                    } else if s.len() > MAX_HEAD_BYTES {
                        r.write is None && r.next == Next::Fail(RelayError::HeaderTooLarge)
                            && *final(self) is Over
                    } else {
                        match header_end(s) {
                            None => r.write is None && r.next == Next::Read(Peer::Upstream)
                                && *final(self) is Head && (*final(self))->Head_0.received() == s,
                            Some(e) => {
                                let info = response_info(s.subrange(0, e));
                                let prefix = s.subrange(e, s.len() as int);
                                let step = start_step(info, prefix);
                                &&& writes(
                                    r,
                                    Peer::Client,
                                    s.subrange(0, e) + prefix.subrange(0, step.forward as int),
                                )
                                &&& r.next == next_after(step.outcome, info)
                                &&& step.outcome == BodyOutcome::More ==> *final(self) is Body
                                    && (*final(self))->Body_1 == info && started(
                                    info,
                                    prefix,
                                    (*final(self))->Body_0,
                                )
                                &&& step.outcome != BodyOutcome::More ==> *final(self) is Over
                            },
                        }
                    }
                },
                Exchange::Body(b, info) => {
                    let step = body_step(b, data@);
                    &&& writes(r, Peer::Client, data@.subrange(0, step.forward as int))
                    &&& r.next == next_after(step.outcome, info)
                    &&& step.outcome == BodyOutcome::More ==> *final(self) is Body
                        && (*final(self))->Body_1 == info && body_next(
                        b,
                        data@,
                        (*final(self))->Body_0,
                    )
                    &&& step.outcome != BodyOutcome::More ==> *final(self) is Over
                },
                Exchange::Over => r.write is None && r.next == Next::Finish(false)
                    && *final(self) is Over,
            },
    {
        match self {
            Exchange::RequestBody(l) => {
                let step = l.on_read(data.len());
                let write = write_of(Peer::Upstream, copy_bytes(&data[0..step.forward]));
                if step.outcome == BodyOutcome::More {
                    Action { write, next: Next::Read(Peer::Client) }
                } else {
                    *self = Exchange::Head(HeadReader::new());
                    Action { write, next: Next::Read(Peer::Upstream) }
                }
            },
            Exchange::Head(h) => {
                match h.feed(data) {
                    Err(e) => {
                        *self = Exchange::Over;
                        Action { write: None, next: Next::Fail(e) }
                    },
                    Ok(None) => Action { write: None, next: Next::Read(Peer::Upstream) },
                    Ok(Some(head)) => {
                        let info = head.info;
                        let (body, step) = BodyRelay::start(&info, head.body_prefix.as_slice());
                        let mut out: Vec<u8> = Vec::new();
                        push_all(&mut out, head.header.as_slice());
                        push_all(&mut out, &head.body_prefix.as_slice()[0..step.forward]);
                        let next = next_of(step.outcome, &info);
                        if step.outcome == BodyOutcome::More {
                            *self = Exchange::Body(body, info);
                        } else {
                            *self = Exchange::Over;
                        }
                        Action { write: write_of(Peer::Client, out), next }
                    },
                }
            },
            Exchange::Body(b, info) => {
                let inf = *info;
                let step = b.on_read(data);
                let write = write_of(Peer::Client, copy_bytes(&data[0..step.forward]));
                let next = next_of(step.outcome, &inf);
                if step.outcome != BodyOutcome::More {
                    *self = Exchange::Over;
                }
                Action { write, next }
            },
            Exchange::Over => Action { write: None, next: Next::Finish(false) },
        }
    }
}

/// With chunked framing nothing is held back or re-encoded: when the head
/// completes, the head and all body bytes read with it go to the client,
/// and every later non-empty read goes to the client whole, chunk-size
/// lines included.
pub proof fn lemma_chunked_forwarded_verbatim(s: Seq<u8>, e: int, b: BodyRelay, data: Seq<u8>)
    requires
        0 <= e <= s.len(),
        s.len() <= usize::MAX,
        data.len() <= usize::MAX,
        response_info(s.subrange(0, e)).chunked,
        b is Chunked,
    ensures
        s.subrange(0, e) + s.subrange(e, s.len() as int).subrange(
            0,
            start_step(response_info(s.subrange(0, e)), s.subrange(e, s.len() as int)).forward as int,
        ) == s,
        data.len() > 0 ==> data.subrange(0, body_step(b, data).forward as int) == data,
{
    let prefix = s.subrange(e, s.len() as int);
    assert(prefix.subrange(0, prefix.len() as int) =~= prefix);
    assert(s.subrange(0, e) + prefix =~= s);
    assert(data.subrange(0, data.len() as int) =~= data);
}

} // verus!
