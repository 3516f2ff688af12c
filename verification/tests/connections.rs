use fraud_detection::net::http::RX_CAP;
use fraud_detection::net::steps::{
    drop_answered, has_room, next_step, next_turn, stream_rules, Reply, Rules, Step, Turn,
};
use fraud_detection::server::{rules, states_for, ConnState, BUF_CAP};

const BODY: &str = r#"{"id":"a","transaction":{"amount":1,"installments":1,"requested_at":"2024-02-29T23:59:00Z"},"customer":{"avg_amount":1,"tx_count_24h":0,"known_merchants":[]},"merchant":{"id":"M","mcc":"0","avg_amount":5},"terminal":{"is_online":true,"card_present":false,"km_from_home":0},"last_transaction":null}"#;

fn post(body: &str) -> Vec<u8> {
    format!("POST /fraud-score HTTP/1.1\r\nContent-Length: {}\r\n\r\n{body}", body.len())
        .into_bytes()
}

/// What is done with the bytes of a connection, and the bytes that are left.
fn run(bytes: &[u8], rules: &Rules) -> (Vec<String>, Vec<u8>) {
    let mut done = Vec::new();
    let mut left = bytes.to_vec();
    loop {
        let consumed = match next_step(&left, rules) {
            Step::Wait => break,
            Step::Reply { consumed, reply } => {
                done.push(format!("{reply:?}"));
                consumed
            }
            Step::Score { start, end } => {
                done.push(String::from_utf8(left[start..end].to_vec()).unwrap());
                end
            }
        };
        drop_answered(&mut left, consumed);
    }
    (done, left)
}

fn mixed() -> Vec<u8> {
    let mut all = b"GET /ready HTTP/1.1\r\n\r\n".to_vec();
    all.extend(post("{}"));
    all.extend(b"POST /fraud-score HTTP/1.1\r\n\r\n");
    all.extend(b"GET /x HTTP/1.1\r\nHost: a\r\n\r\n");
    all.extend(post("hello\r\n\r\nworld"));
    all.extend(b"POST /fraud-score HTTP/1.1\r\nContent-Length: 9000\r\n\r\n");
    all.extend(b"GET /ready");
    all
}

#[test]
fn requests_are_answered_in_order() {
    let (done, left) = run(&mixed(), &stream_rules());
    assert_eq!(
        done,
        ["Ready", "{}", "BadRequest", "NotFound", "hello\r\n\r\nworld", "BadRequest"]
    );
    assert_eq!(left, b"GET /ready");
}

#[test]
fn without_a_limit_a_long_body_is_waited_for() {
    let (done, left) = run(&mixed(), &rules());
    assert_eq!(done, ["Ready", "{}", "BadRequest", "BadRequest", "hello\r\n\r\nworld"]);
    assert!(left.ends_with(b"GET /ready"));
    assert!(left.starts_with(b"POST /fraud-score"));
}

#[test]
fn the_limit_holds_for_header_and_body_together() {
    let header = "POST /fraud-score HTTP/1.1\r\nContent-Length: 8146\r\n\r\n";
    let fits = format!("{}{}", header, "x".repeat(8146));
    assert!(header.len() + 8146 > RX_CAP);
    assert_eq!(
        next_step(fits.as_bytes(), &stream_rules()),
        Step::Reply { consumed: header.len(), reply: Reply::BadRequest }
    );
    let body = RX_CAP - header.len();
    let fits = format!(
        "POST /fraud-score HTTP/1.1\r\nContent-Length: {body}\r\n\r\n{}",
        "x".repeat(body)
    );
    assert_eq!(
        next_step(fits.as_bytes(), &stream_rules()),
        Step::Score { start: header.len(), end: RX_CAP }
    );
}

#[test]
fn a_full_connection_is_given_up() {
    assert!(has_room(b""));
    assert!(has_room(&vec![0; RX_CAP - 1]));
    assert!(!has_room(&vec![0; RX_CAP]));
    assert!(!has_room(&vec![0; RX_CAP + 1]));
}

#[test]
fn it_does_not_matter_in_how_many_pieces_bytes_come() {
    let all = mixed();
    for rules in [rules(), stream_rules()] {
        let whole = run(&all, &rules);
        for cut in 0..=all.len() {
            let (mut done, mut left) = run(&all[..cut], &rules);
            left.extend_from_slice(&all[cut..]);
            let (more, left) = run(&left, &rules);
            done.extend(more);
            assert_eq!((done, left), whole, "cut at {cut}");
        }
    }
}

#[test]
fn what_is_left_is_the_end_and_waits() {
    let all = mixed();
    for rules in [rules(), stream_rules()] {
        for cut in 0..=all.len() {
            let (_, left) = run(&all[..cut], &rules);
            assert!(all[..cut].ends_with(&left));
            assert_eq!(next_step(&left, &rules), Step::Wait);
        }
    }
}

#[test]
fn bodies_that_cannot_be_read_are_bad_requests() {
    let bytes = post("{}");
    let bad = next_turn(&bytes, &rules());
    assert!(matches!(
        bad,
        Turn::Reply { consumed, reply: Reply::BadRequest } if consumed == bytes.len()
    ));
    let bytes = post(BODY);
    match next_turn(&bytes, &rules()) {
        Turn::Score { consumed, payload } => {
            assert_eq!(consumed, bytes.len());
            assert_eq!(payload.hour, 23);
            assert!(payload.is_online);
        }
        _ => panic!("the body can be read"),
    }
    assert!(matches!(next_turn(&bytes[..bytes.len() - 1], &rules()), Turn::Wait));
    assert!(matches!(
        next_turn(b"GET /ready HTTP/1.1\r\n\r\nrest", &rules()),
        Turn::Reply { consumed: 23, reply: Reply::Ready }
    ));
}

#[test]
fn a_whole_request_is_scored_wherever_its_length_stands() {
    let lines = ["Host: a\r\n", "cOnTeNt-LeNgTh: 4\r\n", "X: y\r\n"];
    for order in [[0, 1, 2], [1, 0, 2], [0, 2, 1]] {
        let header = format!(
            "POST /fraud-score HTTP/1.1\r\n{}{}{}\r\n",
            lines[order[0]], lines[order[1]], lines[order[2]]
        );
        let bytes = format!("{header}bodymore");
        for rules in [rules(), stream_rules()] {
            assert_eq!(
                next_step(bytes.as_bytes(), &rules),
                Step::Score { start: header.len(), end: header.len() + 4 }
            );
        }
    }
}

#[test]
fn a_length_near_the_limit_of_integers_is_waited_for() {
    let bytes = b"POST /fraud-score HTTP/1.1\r\nContent-Length: 18446744073709551615\r\n\r\n";
    assert_eq!(next_step(bytes, &rules()), Step::Wait);
    assert!(matches!(
        next_step(bytes, &stream_rules()),
        Step::Reply { reply: Reply::BadRequest, .. }
    ));
}

#[test]
fn a_connection_keeps_what_was_not_answered() {
    let mut conn = ConnState::new();
    assert_eq!(conn.buf, [0; BUF_CAP]);
    assert_eq!(conn.pos, 0);
    assert_eq!(conn.room(), BUF_CAP);
    conn.receive(b"hello");
    conn.receive(b" world");
    assert_eq!(conn.waiting(0), b"hello world");
    assert_eq!(conn.waiting(6), b"world");
    assert_eq!(conn.room(), BUF_CAP - 11);
    conn.drop_answered(0);
    assert_eq!(conn.waiting(0), b"hello world");
    conn.drop_answered(6);
    assert_eq!(conn.waiting(0), b"world");
    conn.drop_answered(5);
    assert_eq!(conn.waiting(0), b"");
    conn.receive(&[7; BUF_CAP]);
    assert_eq!(conn.room(), 0);
    conn.reset();
    assert_eq!(conn.room(), BUF_CAP);
}

#[test]
fn there_is_room_for_the_next_power_of_two() {
    assert_eq!(states_for(0), 1024);
    assert_eq!(states_for(1023), 1024);
    assert_eq!(states_for(1024), 2048);
    assert_eq!(states_for(2047), 2048);
    assert_eq!(states_for(2048), 4096);
    for fd in [0u32, 1, 5, 1000, 1024, 4095, 4096, 65535, 1 << 30, u32::MAX] {
        assert_eq!(states_for(fd), (fd as u64 + 1).next_power_of_two().max(1024));
    }
}
