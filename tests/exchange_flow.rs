use edge_relay::exchange::{Exchange, Next, Peer};
use edge_relay::relay::RelayError;

struct Outcome {
    to_upstream: Vec<u8>,
    to_client: Vec<u8>,
    end: Next,
}

/// Runs an exchange against scripted reads; a script that runs out reads
/// as a close.
fn run(request: &[u8], route: &str, client: &[&[u8]], upstream: &[&[u8]]) -> Outcome {
    let (mut exchange, mut action) = Exchange::start(request, route);
    let mut to_upstream = Vec::new();
    let mut to_client = Vec::new();
    let mut client_reads = client.iter();
    let mut upstream_reads = upstream.iter();
    loop {
        if let Some((peer, bytes)) = &action.write {
            match peer {
                Peer::Client => to_client.extend_from_slice(bytes),
                Peer::Upstream => to_upstream.extend_from_slice(bytes),
            }
        }
        action = match action.next {
            Next::Read(Peer::Client) => exchange.received(client_reads.next().copied().unwrap_or(b"")),
            Next::Read(Peer::Upstream) => {
                exchange.received(upstream_reads.next().copied().unwrap_or(b""))
            }
            end => return Outcome { to_upstream, to_client, end },
        };
    }
}

const HEAD_5: &[u8] = b"HTTP/1.1 200 OK\r\nContent-Length: 5\r\n\r\n";

#[test]
fn exchange_get_with_length_body() {
    let reads: Vec<&[u8]> = vec![HEAD_5, b"h", b"e", b"l", b"l", b"o"];
    let out = run(b"GET /api/users HTTP/1.1\r\nHost: a\r\n\r\n", "/api", &[], &reads);
    assert_eq!(out.to_upstream, b"GET //users HTTP/1.1\r\nHost: a\r\n\r\n".to_vec());
    assert_eq!(out.to_client, [HEAD_5, b"hello"].concat());
    assert_eq!(out.end, Next::Finish(true));
}

#[test]
fn exchange_streams_request_body() {
    let request = b"POST /api/x HTTP/1.1\r\nContent-Length: 6\r\n\r\nab";
    let out = run(request, "/api", &[b"cd", b"efgh"], &[b"HTTP/1.1 204 No Content\r\nContent-Length: 0\r\n\r\n"]);
    assert_eq!(out.to_upstream, b"POST //x HTTP/1.1\r\nContent-Length: 6\r\n\r\nabcdef".to_vec());
    assert_eq!(out.end, Next::Finish(true));
}

#[test]
fn exchange_request_body_cut_short() {
    let request = b"POST /api HTTP/1.1\r\nContent-Length: 6\r\n\r\nab";
    let out = run(request, "/api", &[b"c"], &[HEAD_5, b"hello"]);
    assert_eq!(out.to_upstream, b"POST / HTTP/1.1\r\nContent-Length: 6\r\n\r\nabc".to_vec());
    assert_eq!(out.end, Next::Finish(true));
}

#[test]
fn exchange_chunked_forwarded_verbatim() {
    let head: &[u8] = b"HTTP/1.1 200 OK\r\nTransfer-Encoding: chunked\r\n\r\n";
    let body: &[u8] = b"4\r\nWiki\r\n5\r\npedia\r\n0\r\n\r\n";
    let first = [head, &body[..6]].concat();
    let out = run(b"GET /w HTTP/1.1\r\n\r\n", "/w", &[], &[&first, &body[6..]]);
    assert_eq!(out.to_client, [head, body].concat());
    assert_eq!(out.end, Next::Finish(true));
}

#[test]
fn exchange_connection_close_not_reused() {
    let out = run(
        b"GET /api HTTP/1.1\r\n\r\n",
        "/api",
        &[],
        &[b"HTTP/1.1 200 OK\r\nConnection: close\r\nContent-Length: 2\r\n\r\nok"],
    );
    assert_eq!(out.end, Next::Finish(false));
}

#[test]
fn exchange_http10_read_until_close() {
    let out = run(b"GET /api HTTP/1.0\r\n\r\n", "/api", &[], &[b"HTTP/1.0 200 OK\r\n\r\nab", b"cd"]);
    assert_eq!(out.to_client, b"HTTP/1.0 200 OK\r\n\r\nabcd".to_vec());
    assert_eq!(out.end, Next::Finish(false));
}

#[test]
fn exchange_upstream_closes_in_head() {
    let out = run(b"GET /api HTTP/1.1\r\n\r\n", "/api", &[], &[b"HTTP/1.1 200 OK\r\n"]);
    assert_eq!(out.end, Next::Fail(RelayError::UnexpectedEof));
    assert!(out.to_client.is_empty());
}

#[test]
fn exchange_chunked_eof_fails() {
    let out = run(
        b"GET /api HTTP/1.1\r\n\r\n",
        "/api",
        &[],
        &[b"HTTP/1.1 200 OK\r\nTransfer-Encoding: chunked\r\n\r\n4\r\nWi"],
    );
    assert_eq!(out.end, Next::Fail(RelayError::UnexpectedEof));
}

#[test]
fn exchange_finished_stays_finished() {
    let (mut exchange, _) = Exchange::start(b"GET / HTTP/1.1\r\n\r\n", "/");
    let action = exchange.received(HEAD_5);
    assert_eq!(action.next, Next::Read(Peer::Upstream));
    let action = exchange.received(b"hello");
    assert_eq!(action.next, Next::Finish(true));
    let action = exchange.received(b"more");
    assert!(action.write.is_none());
    assert_eq!(action.next, Next::Finish(false));
}
