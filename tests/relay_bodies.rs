use edge_relay::http::{parse_response_info, ResponseInfo};
use edge_relay::relay::{
    may_reuse, request_body_relay, BodyOutcome, BodyRelay, BodyStep, ChunkedRelay, HeadReader,
    LengthRelay, RelayError, MAX_HEAD_BYTES,
};

/// Drives a body relay over the given reads, the way the server loop does,
/// and returns what reached the client and the last outcome.
fn drive(info: &ResponseInfo, prefix: &[u8], reads: &[&[u8]]) -> (Vec<u8>, BodyOutcome) {
    let (mut relay, step) = BodyRelay::start(info, prefix);
    let mut client = prefix[..step.forward].to_vec();
    let mut outcome = step.outcome;
    for data in reads {
        if outcome != BodyOutcome::More {
            break;
        }
        let step = relay.on_read(data);
        client.extend_from_slice(&data[..step.forward]);
        outcome = step.outcome;
    }
    (client, outcome)
}

const WIKI: &[u8] = b"4\r\nWiki\r\n5\r\npedia\r\n0\r\n\r\n";

#[test]
fn chunked_round_trip_forwards_raw_stream() {
    let info = ResponseInfo { keep_alive: true, content_length: None, chunked: true };
    let (client, outcome) = drive(&info, b"", &[WIKI]);
    assert_eq!(outcome, BodyOutcome::Done);
    assert_eq!(client, WIKI.to_vec());
}

#[test]
fn chunked_round_trip_byte_by_byte() {
    let info = ResponseInfo { keep_alive: true, content_length: None, chunked: true };
    let reads: Vec<&[u8]> = WIKI.chunks(1).collect();
    let (mut relay, step) = BodyRelay::start(&info, b"");
    assert_eq!(step, BodyStep { forward: 0, outcome: BodyOutcome::More });
    let mut client = Vec::new();
    for (i, data) in reads.iter().enumerate() {
        let step = relay.on_read(data);
        client.extend_from_slice(&data[..step.forward]);
        if i + 1 < reads.len() {
            assert_eq!(step.outcome, BodyOutcome::More, "finished early at byte {}", i);
        } else {
            assert_eq!(step.outcome, BodyOutcome::Done);
        }
    }
    assert_eq!(client, WIKI.to_vec());
    let body: Vec<u8> = [&client[3..7], &client[12..17]].concat();
    assert_eq!(body, b"Wikipedia".to_vec());
}

#[test]
fn chunked_body_complete_in_prefix() {
    let info = ResponseInfo { keep_alive: true, content_length: None, chunked: true };
    let (_, step) = BodyRelay::start(&info, WIKI);
    assert_eq!(step, BodyStep { forward: WIKI.len(), outcome: BodyOutcome::Done });
}

#[test]
fn chunked_with_trailer_and_extension() {
    let mut c = ChunkedRelay::new();
    assert_eq!(c.take(b"3;x=1\r\nabc\r\n0\r\nX-Sum: 1\r\n"), BodyOutcome::More);
    assert_eq!(c.take(b"\r\n"), BodyOutcome::Done);
}

#[test]
fn chunked_invalid_size_after_forwarding() {
    let info = ResponseInfo { keep_alive: true, content_length: None, chunked: true };
    let (client, outcome) = drive(&info, b"", &[b"zz\r\nabc\r\n"]);
    assert_eq!(outcome, BodyOutcome::Failed(RelayError::InvalidChunkSize));
    assert_eq!(client, b"zz\r\nabc\r\n".to_vec());
}

#[test]
fn chunked_eof_mid_body_fails() {
    let info = ResponseInfo { keep_alive: true, content_length: None, chunked: true };
    let (_, outcome) = drive(&info, b"", &[b"4\r\nWi", b""]);
    assert_eq!(outcome, BodyOutcome::Failed(RelayError::UnexpectedEof));
}

#[test]
fn content_length_one_byte_reads() {
    let info = ResponseInfo { keep_alive: true, content_length: Some(5), chunked: false };
    let reads: Vec<&[u8]> = b"hello".chunks(1).collect();
    let (client, outcome) = drive(&info, b"", &reads);
    assert_eq!(client, b"hello".to_vec());
    assert_eq!(outcome, BodyOutcome::Done);
}

#[test]
fn content_length_stops_at_target() {
    let info = ResponseInfo { keep_alive: true, content_length: Some(5), chunked: false };
    let (client, outcome) = drive(&info, b"hel", &[b"lo, more"]);
    assert_eq!(client, b"hello".to_vec());
    assert_eq!(outcome, BodyOutcome::Done);
    let (client, outcome) = drive(&info, b"hello world", &[]);
    assert_eq!(client, b"hello".to_vec());
    assert_eq!(outcome, BodyOutcome::Done);
}

#[test]
fn content_length_truncated_is_tolerated() {
    let info = ResponseInfo { keep_alive: true, content_length: Some(5), chunked: false };
    let (client, outcome) = drive(&info, b"", &[b"he", b""]);
    assert_eq!(client, b"he".to_vec());
    assert_eq!(outcome, BodyOutcome::Done);
}

#[test]
fn content_length_zero_is_done_at_once() {
    let info = ResponseInfo { keep_alive: true, content_length: Some(0), chunked: false };
    let (_, step) = BodyRelay::start(&info, b"");
    assert_eq!(step, BodyStep { forward: 0, outcome: BodyOutcome::Done });
}

#[test]
fn chunked_takes_precedence_over_length() {
    let info = parse_response_info(b"HTTP/1.1 200 OK\r\nContent-Length: 2\r\nTransfer-Encoding: chunked\r\n\r\n");
    let (relay, _) = BodyRelay::start(&info, b"");
    assert!(matches!(relay, BodyRelay::Chunked(_)));
}

#[test]
fn until_close_forwards_everything() {
    let info = ResponseInfo { keep_alive: false, content_length: None, chunked: false };
    let (client, outcome) = drive(&info, b"ab", &[b"cd", b"ef", b""]);
    assert_eq!(client, b"abcdef".to_vec());
    assert_eq!(outcome, BodyOutcome::Done);
}

#[test]
fn head_reader_split_head() {
    let mut r = HeadReader::new();
    assert!(matches!(r.feed(b"HTTP/1.1 200 OK\r\nContent-Len"), Ok(None)));
    let head = match r.feed(b"gth: 5\r\n\r\nhel") {
        Ok(Some(h)) => h,
        _ => panic!("head not complete"),
    };
    assert_eq!(head.header, b"HTTP/1.1 200 OK\r\nContent-Length: 5\r\n\r\n".to_vec());
    assert_eq!(head.body_prefix, b"hel".to_vec());
    assert_eq!(head.info, ResponseInfo { keep_alive: true, content_length: Some(5), chunked: false });
}

#[test]
fn head_reader_eof() {
    let mut r = HeadReader::new();
    assert!(matches!(r.feed(b"HTTP/1.1 200"), Ok(None)));
    assert!(matches!(r.feed(b""), Err(RelayError::UnexpectedEof)));
}

#[test]
fn head_reader_too_large() {
    let mut r = HeadReader::new();
    let big = vec![b'a'; MAX_HEAD_BYTES];
    assert!(matches!(r.feed(&big), Ok(None)));
    assert!(matches!(r.feed(b"\r\n\r\n"), Err(RelayError::HeaderTooLarge)));
}

#[test]
fn reuse_only_after_complete_keep_alive_response() {
    let close = parse_response_info(b"HTTP/1.1 200 OK\r\nConnection: close\r\n\r\n");
    assert!(!may_reuse(BodyOutcome::Done, &close));
    let keep = parse_response_info(b"HTTP/1.1 200 OK\r\n\r\n");
    assert!(may_reuse(BodyOutcome::Done, &keep));
    assert!(!may_reuse(BodyOutcome::More, &keep));
    assert!(!may_reuse(BodyOutcome::Failed(RelayError::UnexpectedEof), &keep));
}

#[test]
fn request_body_remainder() {
    let relay = request_body_relay(b"POST / HTTP/1.1\r\nContent-Length: 10\r\n\r\nabcd").unwrap();
    assert_eq!(relay.remaining, 6);
    let relay = request_body_relay(b"POST / HTTP/1.1\r\nContent-Length: 2\r\n\r\nabcd").unwrap();
    assert_eq!(relay.remaining, 0);
    assert!(request_body_relay(b"GET / HTTP/1.1\r\n\r\n").is_none());
}

#[test]
fn length_relay_counts_down() {
    let mut l = LengthRelay::new(4, 1);
    assert_eq!(l.on_read(2), BodyStep { forward: 2, outcome: BodyOutcome::More });
    assert_eq!(l.on_read(5), BodyStep { forward: 1, outcome: BodyOutcome::Done });
    let mut l = LengthRelay::new(4, 0);
    assert_eq!(l.on_read(0), BodyStep { forward: 0, outcome: BodyOutcome::Done });
    assert_eq!(l.remaining, 4);
}
