use oxygn::responses::{plain_reply, service_unavailable, too_many_requests};

#[test]
fn service_unavailable_bytes() {
    let expected: &[u8] = b"HTTP/1.1 503 Service Unavailable\r\n\
                     Content-Type: text/plain\r\n\
                     Content-Length: 19\r\n\
                     Connection: close\r\n\
                     \r\n\
                     Service Unavailable";
    assert_eq!(service_unavailable().as_bytes(), expected);
}

#[test]
fn too_many_requests_bytes() {
    let expected: &[u8] = b"HTTP/1.1 429 Too Many Requests\r\n\
                     Content-Type: text/plain\r\n\
                     Content-Length: 17\r\n\
                     Connection: close\r\n\
                     \r\n\
                     Too Many Requests";
    assert_eq!(too_many_requests().as_bytes(), expected);
}

#[test]
fn content_length_counts_bytes() {
    let reply = plain_reply(200, "OK", "h\u{e9}llo");
    assert_eq!(
        reply,
        "HTTP/1.1 200 OK\r\nContent-Type: text/plain\r\nContent-Length: 6\r\nConnection: close\r\n\r\nh\u{e9}llo"
    );
    let empty = plain_reply(204, "No Content", "");
    assert!(empty.contains("Content-Length: 0\r\n"));
}
