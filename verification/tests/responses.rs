use fraud_detection::net::response::{
    http_body_for, resp_bad_req, resp_not_found, resp_ready, RESP_READY,
};
use fraud_detection::net::steps::{stream_reply, Reply};
use fraud_detection::server::{canned, fraud_response};

fn body_of(resp: &[u8]) -> &[u8] {
    let sep = b"\r\n\r\n";
    let pos = resp.windows(4).position(|w| w == sep).expect("no header separator");
    &resp[pos + 4..]
}

#[test]
fn fraud_response_mapping() {
    for i in 0u8..=5 {
        let r = fraud_response(i);
        let body = &r[r.windows(4).position(|w| w == b"\r\n\r\n").unwrap() + 4..];
        let s = std::str::from_utf8(body).unwrap();
        assert!(s.contains("fraud_score"), "count={i}");
    }
}

#[test]
fn all_6_responses_valid_json() {
    for count in 0u8..=5 {
        let resp = http_body_for(count);
        let body = body_of(resp);
        let s = std::str::from_utf8(body).expect("not utf8");
        assert!(s.contains("\"approved\""), "count={count} missing approved");
        assert!(s.contains("\"fraud_score\""), "count={count} missing fraud_score");
    }
}

#[test]
fn approved_flag_follows_threshold() {
    for count in 0u8..=2 {
        let body = std::str::from_utf8(body_of(http_body_for(count))).unwrap();
        assert!(body.contains("\"approved\":true"), "count={count} should be approved");
    }
    for count in 3u8..=5 {
        let body = std::str::from_utf8(body_of(http_body_for(count))).unwrap();
        assert!(body.contains("\"approved\":false"), "count={count} should be rejected");
    }
}

#[test]
fn content_length_matches_body() {
    for count in 0u8..=5 {
        let resp = http_body_for(count);
        let header = std::str::from_utf8(
            &resp[..resp.windows(4).position(|w| w == b"\r\n\r\n").unwrap()]
        ).unwrap();
        let cl: usize = header.lines()
            .find(|l| l.to_ascii_lowercase().starts_with("content-length:"))
            .expect("no content-length")
            .split(':').nth(1).unwrap().trim().parse().unwrap();
        let body_len = body_of(resp).len();
        assert_eq!(cl, body_len, "count={count}: content-length={cl} body_len={body_len}");
    }
}

#[test]
fn ready_response_is_200() {
    let s = RESP_READY;
    assert!(s.starts_with("HTTP/1.1 200"));
    assert_eq!(resp_ready(), RESP_READY.as_bytes());
}

#[test]
fn scores_are_fifths() {
    let scores = ["0.0", "0.2", "0.4", "0.6", "0.8", "1.0"];
    for count in 0u8..=u8::MAX {
        let n = (count as usize).min(5);
        let body = format!("{{\"approved\":{},\"fraud_score\":{}}}", n < 3, scores[n]);
        let head = format!(
            "HTTP/1.1 200 OK\r\nContent-Type: application/json\r\nContent-Length: {}\r\n",
            body.len()
        );
        let plain = format!("{head}\r\n{body}");
        let kept = format!("{head}Connection: keep-alive\r\n\r\n{body}");
        assert_eq!(fraud_response(count), plain.as_bytes());
        assert_eq!(http_body_for(count), kept.as_bytes());
    }
}

#[test]
fn canned_replies() {
    assert_eq!(canned(Reply::Ready), b"HTTP/1.1 200 OK\r\nContent-Length: 2\r\n\r\nOK");
    assert_eq!(body_of(canned(Reply::Ready)), b"OK");
    let bad = b"HTTP/1.1 400 Bad Request\r\nContent-Length: 0\r\n\r\n";
    assert_eq!(canned(Reply::BadRequest), bad);
    assert_eq!(canned(Reply::NotFound), bad);
    assert_eq!(
        resp_ready(),
        b"HTTP/1.1 200 OK\r\nContent-Type: text/plain\r\nContent-Length: 2\r\nConnection: keep-alive\r\n\r\nOK"
    );
    assert_eq!(
        resp_not_found(),
        b"HTTP/1.1 404 Not Found\r\nContent-Length: 0\r\nConnection: keep-alive\r\n\r\n"
    );
    assert_eq!(
        resp_bad_req(),
        b"HTTP/1.1 400 Bad Request\r\nContent-Length: 0\r\nConnection: keep-alive\r\n\r\n"
    );
    assert_eq!(stream_reply(Reply::Ready), resp_ready());
    assert_eq!(stream_reply(Reply::NotFound), resp_not_found());
    assert_eq!(stream_reply(Reply::BadRequest), resp_bad_req());
}
