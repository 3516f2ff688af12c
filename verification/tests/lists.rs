use fraud_detection::ranked::offer_item;
use fraud_detection::scan::{find_byte, matches_at, same_bytes};
use fraud_detection::selection::select_smallest;
use fraud_detection::single::{has_no_value, order_key};

#[test]
fn the_nearest_stay_in_order() {
    let mut top: Vec<(u32, u8)> = Vec::new();
    for item in [(5, 50), (3, 30), (5, 51), (9, 90), (1, 10), (3, 31)] {
        offer_item(&mut top, 4, item);
    }
    assert_eq!(top, [(1, 10), (3, 30), (3, 31), (5, 50)]);
    offer_item(&mut top, 4, (5, 99));
    assert_eq!(top.len(), 4);
    assert_eq!(top[3], (5, 50));
}

#[test]
fn the_smallest_come_first() {
    let d = [5, 1, 4, 1, 3, 0];
    assert_eq!(select_smallest(&d, 0), []);
    assert_eq!(select_smallest(&d, 4), [5, 1, 3, 4]);
    assert_eq!(select_smallest(&d, 6), [5, 1, 3, 4, 2, 0]);
    let d: Vec<u32> = (0..500u32).map(|i| i * 7919 % 101).collect();
    let mut order: Vec<usize> = (0..d.len()).collect();
    order.sort_by_key(|&i| (d[i], i));
    for n in [1, 10, 499, 500] {
        assert_eq!(select_smallest(&d, n), order[..n]);
    }
}

#[test]
fn bytes_are_found() {
    let text = b"hello world";
    assert_eq!(find_byte(text, b'o', 0), Some(4));
    assert_eq!(find_byte(text, b'o', 5), Some(7));
    assert_eq!(find_byte(text, b'o', 8), None);
    assert_eq!(find_byte(text, b'd', 11), None);
    assert_eq!(find_byte(b"", b'd', 0), None);
    let long: Vec<u8> = (0..1000).map(|i| (i % 251) as u8).collect();
    for from in 0..long.len() {
        for needle in [0u8, 250, 251] {
            let expected =
                long[from..].iter().position(|&b| b == needle).map(|i| i + from);
            assert_eq!(find_byte(&long, needle, from), expected);
        }
    }
}

#[test]
fn parts_match_where_they_stand() {
    assert!(matches_at(b"hello", b"ell", 1));
    assert!(!matches_at(b"hello", b"ell", 2));
    assert!(!matches_at(b"hello", b"lol", 3));
    assert!(matches_at(b"hello", b"", 5));
    assert!(!matches_at(b"hello", b"h", usize::MAX));
    assert!(same_bytes(b"ab", b"ab"));
    assert!(!same_bytes(b"ab", b"abc"));
    assert!(!same_bytes(b"ab", b"ac"));
}

#[test]
fn bits_order_as_the_numbers_do() {
    let numbers = [
        0.0f32, -0.0, 1.0, -1.0, 1e-45, -1e-45, 1e38, f32::INFINITY, f32::NEG_INFINITY, 0.5, 2.0,
    ];
    for a in numbers {
        assert!(!has_no_value(a.to_bits()));
        for b in numbers {
            let (x, y) = (order_key(a.to_bits()), order_key(b.to_bits()));
            assert_eq!(a < b, x < y, "{a} {b}");
            assert_eq!(a == b, x == y, "{a} {b}");
        }
    }
    assert!(has_no_value(f32::NAN.to_bits()));
    assert!(has_no_value((-f32::NAN).to_bits()));
    assert!(has_no_value(0x7f80_0001));
}
