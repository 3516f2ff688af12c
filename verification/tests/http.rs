use fraud_detection::net::http::{
    detect_route, find_header_end, parse_content_length, parse_digits, route_in_header, trim, Route,
};

#[test]
fn find_header_end_basic() {
    let buf = b"POST /fraud-score HTTP/1.1\r\nContent-Length: 5\r\n\r\nbody!";
    assert_eq!(find_header_end(buf), Some(49));
}

#[test]
fn parse_content_length_last_header() {
    let header = b"POST /x HTTP/1.1\r\nContent-Length: 123\r\n\r\n";
    assert_eq!(parse_content_length(header), Some(123));
}

#[test]
fn main_parse_content_length_case_insensitive() {
    let header = b"POST /x HTTP/1.1\r\ncontent-length: 456\r\n\r\n";
    assert_eq!(parse_content_length(header), Some(456));
}

#[test]
fn parse_content_length_not_last() {
    let header = b"POST /x HTTP/1.1\r\nContent-Length: 42\r\nX-Custom: foo\r\n\r\n";
    assert_eq!(parse_content_length(header), Some(42));
}

#[test]
fn find_header_end_locates_crlfcrlf() {
    let buf = b"POST /fraud-score HTTP/1.1\r\nContent-Length: 5\r\n\r\nbody!";
    assert_eq!(find_header_end(buf), Some(49));
}

#[test]
fn find_header_end_returns_none_when_absent() {
    let buf = b"GET /ready HTTP/1.1\r\n";
    assert_eq!(find_header_end(buf), None);
}

#[test]
fn http_parse_content_length_case_insensitive() {
    let header = b"POST /x HTTP/1.1\r\ncontent-length: 123\r\n\r\n";
    assert_eq!(parse_content_length(header), Some(123));
    let header2 = b"POST /x HTTP/1.1\r\nContent-Length: 456\r\n\r\n";
    assert_eq!(parse_content_length(header2), Some(456));
}

#[test]
fn parse_content_length_not_last_header_uses_slow_path() {
    let header = b"POST /x HTTP/1.1\r\nContent-Length: 42\r\nX-Custom: foo\r\n\r\n";
    assert_eq!(parse_content_length(header), Some(42));
}

#[test]
fn parse_content_length_fast_path_when_last() {
    let header = b"POST /x HTTP/1.1\r\nHost: localhost\r\nContent-Length: 99\r\n\r\n";
    assert_eq!(parse_content_length(header), Some(99));
}

#[test]
fn route_detection() {
    assert_eq!(
        detect_route(b"POST /fraud-score HTTP/1.1"),
        Route::FraudScore
    );
    assert_eq!(detect_route(b"GET /ready HTTP/1.1"), Route::Ready);
    assert_eq!(detect_route(b"GET /unknown HTTP/1.1"), Route::NotFound);
}

#[test]
fn the_first_empty_line_ends_a_header() {
    assert_eq!(find_header_end(b"\r\n\r\n\r\n\r\n"), Some(4));
    assert_eq!(find_header_end(b"a\r\n\r\nb\r\n\r\n"), Some(5));
    assert_eq!(find_header_end(b"a\n\nb"), None);
    assert_eq!(find_header_end(b""), None);
}

#[test]
fn the_last_line_is_looked_at_first() {
    let header = b"POST /x HTTP/1.1\r\nContent-Length: 1\r\nContent-Length: 2\r\n\r\n";
    assert_eq!(parse_content_length(header), Some(2));
    let header = b"POST /x HTTP/1.1\r\nContent-Length: 1\r\nX: y\r\nContent-Length: 0\r\n\r\n";
    assert_eq!(parse_content_length(header), Some(1));
    let header = b"POST /x HTTP/1.1\r\nContent-Length: 7x\r\n\r\n";
    assert_eq!(parse_content_length(header), Some(7));
}

#[test]
fn lengths_in_other_lines_are_read_to_their_end() {
    let length = |value: &str| {
        parse_content_length(
            format!("POST /x HTTP/1.1\r\nContent-Length:{value}\r\nX: y\r\n\r\n").as_bytes(),
        )
    };
    assert_eq!(length("5"), Some(5));
    assert_eq!(length("   5   "), Some(5));
    assert_eq!(length("\t5\t"), Some(5));
    assert_eq!(length("\u{2003}5\u{a0}"), Some(5));
    assert_eq!(length("+5"), Some(5));
    assert_eq!(length("0"), Some(0));
    assert_eq!(length("7x"), None);
    assert_eq!(length("-7"), None);
    assert_eq!(length(""), None);
    assert_eq!(length("18446744073709551616"), None);
    assert_eq!(length("340282366920938463463374607431768211456"), None);
}

#[test]
fn a_length_that_is_not_text_is_none() {
    let header = b"POST /x HTTP/1.1\r\nContent-Length: \xff5\r\nX: y\r\n\r\n";
    assert_eq!(parse_content_length(header), None);
}

#[test]
fn a_length_of_zero_is_a_length() {
    let header = b"POST /x HTTP/1.1\r\nHost: a\r\nContent-Length: 0\r\n\r\n";
    assert_eq!(parse_content_length(header), Some(0));
    let header = b"POST /x HTTP/1.1\r\ncontent-LENGTH: 000\r\nHost: a\r\n\r\n";
    assert_eq!(parse_content_length(header), Some(0));
}

#[test]
fn a_header_without_a_length_has_none() {
    assert_eq!(parse_content_length(b"POST /x HTTP/1.1\r\nHost: a\r\n\r\n"), None);
    assert_eq!(parse_content_length(b""), None);
    assert_eq!(parse_content_length(b"\n\n"), None);
}

#[test]
fn digits_stop_at_what_is_none() {
    assert_eq!(parse_digits(b"12\r\n"), Some(12));
    assert_eq!(parse_digits(b"007"), Some(7));
    assert_eq!(parse_digits(b"0"), None);
    assert_eq!(parse_digits(b"x1"), None);
    assert_eq!(parse_digits(b""), None);
    assert_eq!(parse_digits(b"18446744073709551615"), Some(usize::MAX));
    assert_eq!(parse_digits(b"18446744073709551616"), None);
}

#[test]
fn trimming_is_that_of_the_standard_library() {
    for c in '\0'..=char::MAX {
        let text = format!("{c}a b{c}");
        assert_eq!(trim(text.as_bytes()), text.trim().as_bytes(), "{:x}", c as u32);
    }
    for text in ["", " ", "  ", "\u{3000}", "\u{2003} \u{2003}", "a", " a", "a ", "\u{85}x\u{85}"] {
        assert_eq!(trim(text.as_bytes()), text.trim().as_bytes(), "{text:?}");
    }
}

#[test]
fn routes_are_read_off_the_first_line() {
    assert_eq!(route_in_header(b"GET /ready HTTP/1.1\r\n\r\n"), Route::Ready);
    assert_eq!(route_in_header(b"GET /readyx"), Route::Ready);
    assert_eq!(route_in_header(b"GET /read\ry"), Route::NotFound);
    assert_eq!(route_in_header(b"\r\nGET /ready HTTP/1.1\r\n\r\n"), Route::NotFound);
    assert_eq!(route_in_header(b"POST /fraud-score"), Route::FraudScore);
    assert_eq!(route_in_header(b"post /fraud-score"), Route::NotFound);
    assert_eq!(route_in_header(b""), Route::NotFound);
}
