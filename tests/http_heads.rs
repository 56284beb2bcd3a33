use edge_relay::http::{find_header_end, parse_response_info, request_content_length, ResponseInfo};
use edge_relay::relay::{parse_chunk_size, RelayError};
use edge_relay::request::{request_path, rewrite_request_line};

#[test]
fn header_end_found_after_blank_line() {
    assert_eq!(find_header_end(b"GET / HTTP/1.1\r\nHost: a\r\n\r\nbody"), Some(27));
    assert_eq!(find_header_end(b"\r\n\r\n"), Some(4));
}

#[test]
fn header_end_missing() {
    assert_eq!(find_header_end(b"GET / HTTP/1.1\r\nHost: a\r\n"), None);
    assert_eq!(find_header_end(b""), None);
}

#[test]
fn request_content_length_case_insensitive() {
    let req = b"POST /api/x HTTP/1.1\r\ncontent-LENGTH:  12 \r\n\r\nhello";
    assert_eq!(request_content_length(req), Some((46, 12)));
}

#[test]
fn request_content_length_first_valid_line_wins() {
    let req = b"POST / HTTP/1.1\r\nContent-Length: x\r\nContent-Length: 7\r\nContent-Length: 9\r\n\r\n";
    assert_eq!(request_content_length(req), Some((req.len(), 7)));
}

#[test]
fn request_content_length_absent_or_incomplete() {
    assert_eq!(request_content_length(b"GET / HTTP/1.1\r\nHost: a\r\n\r\n"), None);
    assert_eq!(request_content_length(b"POST / HTTP/1.1\r\nContent-Length: 5\r\n"), None);
    assert_eq!(request_content_length(b"POST / HTTP/1.1\r\nContent-Length: -5\r\n\r\n"), None);
    let plus = b"POST / HTTP/1.1\r\nContent-Length: +5\r\n\r\n";
    assert_eq!(request_content_length(plus), Some((plus.len(), 5)));
}

#[test]
fn response_http11_defaults_to_keep_alive() {
    let info = parse_response_info(b"HTTP/1.1 200 OK\r\nContent-Length: 5\r\n\r\n");
    assert_eq!(info, ResponseInfo { keep_alive: true, content_length: Some(5), chunked: false });
}

#[test]
fn response_http11_connection_close() {
    let info = parse_response_info(b"HTTP/1.1 200 OK\r\nConnection: Close\r\n\r\n");
    assert!(!info.keep_alive);
    assert_eq!(info.content_length, None);
}

#[test]
fn response_http10_needs_keep_alive() {
    assert!(!parse_response_info(b"HTTP/1.0 200 OK\r\n\r\n").keep_alive);
    assert!(parse_response_info(b"HTTP/1.0 200 OK\r\nConnection: Keep-Alive\r\n\r\n").keep_alive);
    assert!(!parse_response_info(b"HTTP/1.0 200 OK\r\nConnection: close\r\n\r\n").keep_alive);
}

#[test]
fn response_last_connection_header_wins() {
    let info = parse_response_info(b"HTTP/1.1 200 OK\r\nConnection: close\r\nConnection: keep-alive\r\n\r\n");
    assert!(info.keep_alive);
}

#[test]
fn response_chunked_by_substring() {
    let info = parse_response_info(b"HTTP/1.1 200 OK\r\nTransfer-Encoding: gzip, Chunked\r\nContent-Length: 3\r\n\r\n");
    assert!(info.chunked);
    assert_eq!(info.content_length, Some(3));
}

#[test]
fn response_invalid_content_length_clears_it() {
    let info = parse_response_info(b"HTTP/1.1 200 OK\r\nContent-Length: 3\r\nContent-Length: abc\r\n\r\n");
    assert_eq!(info.content_length, None);
}

#[test]
fn chunk_size_hex_and_extension() {
    assert_eq!(parse_chunk_size(b"1a"), Ok(26));
    assert_eq!(parse_chunk_size(b"FF;name=value"), Ok(255));
    assert_eq!(parse_chunk_size(b" 0 "), Ok(0));
}

#[test]
fn chunk_size_invalid() {
    assert_eq!(parse_chunk_size(b"zz"), Err(RelayError::InvalidChunkSize));
    assert_eq!(parse_chunk_size(b""), Err(RelayError::InvalidChunkSize));
    assert_eq!(parse_chunk_size(b";ext"), Err(RelayError::InvalidChunkSize));
    assert_eq!(parse_chunk_size(b"1 2"), Err(RelayError::InvalidChunkSize));
    assert_eq!(parse_chunk_size(b"+10"), Err(RelayError::InvalidChunkSize));
    assert_eq!(parse_chunk_size(b" +1;ext"), Err(RelayError::InvalidChunkSize));
    assert_eq!(parse_chunk_size(b"-1"), Err(RelayError::InvalidChunkSize));
    assert_eq!(parse_chunk_size(b"10000000000000000"), Err(RelayError::InvalidChunkSize));
}

#[test]
fn rewrite_strips_route_prefix() {
    let out = rewrite_request_line(b"GET /api/users?id=1 HTTP/1.1\r\nHost: x\r\n\r\n", "/api");
    assert_eq!(out, b"GET //users?id=1 HTTP/1.1\r\nHost: x\r\n\r\n".to_vec());
    let out = rewrite_request_line(b"GET /apiusers HTTP/1.1\r\n\r\n", "/api");
    assert_eq!(out, b"GET /users HTTP/1.1\r\n\r\n".to_vec());
}

#[test]
fn rewrite_exact_prefix_becomes_root() {
    let out = rewrite_request_line(b"POST /svc HTTP/1.0\r\nContent-Length: 2\r\n\r\nhi", "/svc");
    assert_eq!(out, b"POST / HTTP/1.0\r\nContent-Length: 2\r\n\r\nhi".to_vec());
}

#[test]
fn rewrite_normalizes_spacing_and_drops_extra_words() {
    let out = rewrite_request_line(b"GET   /a/b\tHTTP/1.1 extra\r\nX: y\r\n\r\n", "/a");
    assert_eq!(out, b"GET //b HTTP/1.1\r\nX: y\r\n\r\n".to_vec());
}

#[test]
fn rewrite_keeps_path_without_prefix() {
    let out = rewrite_request_line(b"GET /other HTTP/1.1\r\n\r\n", "/api");
    assert_eq!(out, b"GET /other HTTP/1.1\r\n\r\n".to_vec());
}

#[test]
fn rewrite_fails_open() {
    let no_crlf = b"GET /api/x HTTP/1.1";
    assert_eq!(rewrite_request_line(no_crlf, "/api"), no_crlf.to_vec());
    let no_version = b"GET /api/x\r\nHost: a\r\n\r\n";
    assert_eq!(rewrite_request_line(no_version, "/api"), no_version.to_vec());
    let empty_line = b"\r\nHost: a\r\n\r\n";
    assert_eq!(rewrite_request_line(empty_line, "/api"), empty_line.to_vec());
}

#[test]
fn rewrite_empty_route_prepends_slash() {
    let out = rewrite_request_line(b"GET /x HTTP/1.1\r\n\r\n", "");
    assert_eq!(out, b"GET //x HTTP/1.1\r\n\r\n".to_vec());
}

#[test]
fn request_path_second_word_or_root() {
    assert_eq!(request_path(b"GET /index.html HTTP/1.1\r\nHost: a\r\n\r\n"), b"/index.html".to_vec());
    assert_eq!(request_path(b"GET\r\n"), b"/".to_vec());
    assert_eq!(request_path(b""), b"/".to_vec());
    assert_eq!(request_path(b"GET /a b c"), b"/a".to_vec());
}
