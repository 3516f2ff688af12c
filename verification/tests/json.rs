use fraud_detection::fraud::calendar::Moment;
use fraud_detection::fraud::json::{
    parse, parse_digits2, parse_digits4, parse_iso, read_string, read_token, skip_to_value,
};

const LEGIT_PAYLOAD: &[u8] = br#"{
  "id": "tx-1329056812",
  "transaction": {
    "amount": 41.12,
    "installments": 2,
    "requested_at": "2026-03-11T18:45:53Z"
  },
  "customer": {
    "avg_amount": 82.24,
    "tx_count_24h": 3,
    "known_merchants": [
      "MERC-003",
      "MERC-016"
    ]
  },
  "merchant": {
    "id": "MERC-016",
    "mcc": "5411",
    "avg_amount": 60.25
  },
  "terminal": {
    "is_online": false,
    "card_present": true,
    "km_from_home": 29.2331036248
  },
  "last_transaction": null
}"#;

const TX_WITH_LAST: &[u8] = br#"{
  "id": "tx-3576980410",
  "transaction": {
    "amount": 384.88,
    "installments": 3,
    "requested_at": "2026-03-11T20:23:35Z"
  },
  "customer": {
    "avg_amount": 769.76,
    "tx_count_24h": 3,
    "known_merchants": [
      "MERC-009",
      "MERC-009",
      "MERC-001",
      "MERC-001"
    ]
  },
  "merchant": {
    "id": "MERC-001",
    "mcc": "5912",
    "avg_amount": 298.95
  },
  "terminal": {
    "is_online": false,
    "card_present": true,
    "km_from_home": 13.7090520965
  },
  "last_transaction": {
    "timestamp": "2026-03-11T14:58:35Z",
    "km_from_current": 18.8626479774
  }
}"#;

fn value(text: &[u8]) -> f32 {
    std::str::from_utf8(text).unwrap().parse().unwrap()
}

fn replaced(payload: &[u8], from: &str, to: &str) -> Vec<u8> {
    let text = std::str::from_utf8(payload).unwrap();
    assert!(text.contains(from));
    text.replace(from, to).into_bytes()
}

#[test]
fn parse_legit_no_last_tx() {
    let p = parse(LEGIT_PAYLOAD).expect("parse failed");
    assert!((value(p.amount) - 41.12).abs() < 0.001);
    assert_eq!(p.installments, 2);
    assert_eq!(p.hour, 18);
    assert_eq!(p.weekday, 2); // Wednesday = 2 (Mon=0)
    assert!((value(p.customer_avg_amount) - 82.24).abs() < 0.001);
    assert_eq!(p.tx_count_24h, 3);
    assert!(!p.is_unknown_merchant); // MERC-016 is in known_merchants
    assert_eq!(p.mcc, 5411);
    assert!((value(p.merchant_avg_amount) - 60.25).abs() < 0.001);
    assert!(!p.is_online);
    assert!(p.card_present);
    assert!((value(p.km_from_home) - 29.2331).abs() < 0.001);
    assert!(!p.has_last_tx);
    assert_eq!(p.minutes_since_last, 0);
    assert_eq!(value(p.km_from_current), 0.0);
}

#[test]
fn parse_tx_with_last_transaction() {
    let p = parse(TX_WITH_LAST).expect("parse failed");
    assert!((value(p.amount) - 384.88).abs() < 0.001);
    assert_eq!(p.installments, 3);
    assert_eq!(p.hour, 20);
    assert_eq!(p.weekday, 2);
    assert!(!p.is_unknown_merchant); // MERC-001 is in known_merchants
    assert_eq!(p.mcc, 5912);
    assert!(p.has_last_tx);
    assert!((p.minutes_since_last as f32 - 325.0).abs() < 1.0);
    assert_eq!(p.minutes_since_last, 325);
    assert!((value(p.km_from_current) - 18.8626).abs() < 0.001);
}

#[test]
fn parse_unknown_merchant() {
    let raw = LEGIT_PAYLOAD.to_vec();
    let s = std::str::from_utf8(&raw).unwrap();
    let modified = s.replace("\"MERC-016\",\n    \"mcc\"", "\"MERC-999\",\n    \"mcc\"");
    let p = parse(modified.as_bytes()).expect("parse failed");
    assert!(p.is_unknown_merchant);
}

#[test]
fn parse_returns_none_on_garbage() {
    assert!(parse(b"not json").is_none());
    assert!(parse(b"{}").is_none());
}

#[test]
fn parse_keeps_the_fractions_as_they_are_spelled() {
    let p = parse(LEGIT_PAYLOAD).unwrap();
    assert_eq!(p.amount, b"41.12");
    assert_eq!(p.km_from_home, b"29.2331036248");
    assert_eq!(p.km_from_current, b"0");
}

#[test]
fn parse_reads_compact_bodies() {
    let body = br#"{"id":"a","transaction":{"amount":1e2,"installments":+7,"requested_at":"2024-02-29T23:59:00Z"},"customer":{"avg_amount":.5,"tx_count_24h":0,"known_merchants":[]},"merchant":{"id":"M","mcc":"0","avg_amount":5.},"terminal":{"is_online":true,"card_present":false,"km_from_home":0},"last_transaction":{"timestamp":"2024-03-01T00:01:00Z","km_from_current":-1.5E+3}}"#;
    let p = parse(body).unwrap();
    assert_eq!(value(p.amount), 100.0);
    assert_eq!(p.installments, 7);
    assert_eq!(p.hour, 23);
    assert_eq!(p.weekday, 3);
    assert_eq!(p.mcc, 0);
    assert!(p.is_unknown_merchant);
    assert!(p.is_online);
    assert!(!p.card_present);
    assert_eq!(p.minutes_since_last, -2);
    assert_eq!(value(p.km_from_current), -1500.0);
}

#[test]
fn parse_refuses_what_is_no_number() {
    assert!(parse(&replaced(LEGIT_PAYLOAD, "41.12", "x")).is_none());
    assert!(parse(&replaced(LEGIT_PAYLOAD, "\"installments\": 2", "\"installments\": 256")).is_none());
    assert!(parse(&replaced(LEGIT_PAYLOAD, "\"installments\": 2", "\"installments\": -2")).is_none());
    assert!(parse(&replaced(LEGIT_PAYLOAD, "\"5411\"", "\"4294967296\"")).is_none());
    assert!(parse(&replaced(LEGIT_PAYLOAD, "\"5411\"", "\"\"")).is_none());
    assert_eq!(parse(&replaced(LEGIT_PAYLOAD, "\"5411\"", "\"4294967295\"")).unwrap().mcc, u32::MAX);
}

#[test]
fn parse_refuses_bad_timestamps() {
    assert!(parse(&replaced(LEGIT_PAYLOAD, "2026-03-11T18:45:53Z", "not-a-date")).is_none());
    assert!(parse(&replaced(LEGIT_PAYLOAD, "2026-03-11", "2026-13-11")).is_none());
    assert!(parse(&replaced(LEGIT_PAYLOAD, "2026-03-11", "2026-00-11")).is_none());
    assert!(parse(&replaced(LEGIT_PAYLOAD, "2026-03-11", "0000-02-11")).is_none());
    assert!(parse(&replaced(LEGIT_PAYLOAD, "2026-03-11", "0000-03-11")).is_some());
    assert!(parse(&replaced(LEGIT_PAYLOAD, "2026-03-11", "20 6-03-11")).is_none());
    assert!(parse(&replaced(LEGIT_PAYLOAD, "\"2026-03-11T18:45:53Z\"", "17")).is_none());
    assert!(parse(&replaced(TX_WITH_LAST, "\"2026-03-11T14:58:35Z\"", "17")).is_none());
    assert!(parse(&replaced(TX_WITH_LAST, "2026-03-11T14:58:35Z", "x")).is_none());
}

#[test]
fn parse_refuses_a_last_transaction_that_is_neither_null_nor_an_object() {
    assert!(parse(&replaced(LEGIT_PAYLOAD, "null", "none")).is_none());
    assert!(parse(&replaced(LEGIT_PAYLOAD, "null", "nul")).is_none());
    assert!(parse(&replaced(LEGIT_PAYLOAD, "null", "nullx")).is_some());
}

#[test]
fn a_body_is_whole_once_its_last_number_began() {
    let text = std::str::from_utf8(TX_WITH_LAST).unwrap();
    let last = text.find("18.8626479774").unwrap();
    for end in 0..=last {
        assert!(parse(&TX_WITH_LAST[..end]).is_none(), "cut at {end}");
    }
    for end in last + 1..=TX_WITH_LAST.len() {
        assert!(parse(&TX_WITH_LAST[..end]).is_some(), "cut at {end}");
    }
}

#[test]
fn a_body_without_a_last_transaction_is_whole_once_it_says_so() {
    let text = std::str::from_utf8(LEGIT_PAYLOAD).unwrap();
    let whole = text.find("null").unwrap() + 4;
    for end in 0..whole {
        assert!(parse(&LEGIT_PAYLOAD[..end]).is_none(), "cut at {end}");
    }
    for end in whole..=LEGIT_PAYLOAD.len() {
        let p = parse(&LEGIT_PAYLOAD[..end]).unwrap();
        assert_eq!((p.amount, p.mcc, p.has_last_tx), (&b"41.12"[..], 5411, false), "cut at {end}");
    }
}

#[test]
fn merchants_are_known_by_their_whole_ids() {
    let known = |id: &str, list: &str| {
        let body = replaced(LEGIT_PAYLOAD, "\"MERC-003\",\n      \"MERC-016\"", list);
        let body = replaced(&body, "\"id\": \"MERC-016\"", &format!("\"id\": \"{id}\""));
        !parse(&body).unwrap().is_unknown_merchant
    };
    // However many there are,
    let ids: Vec<String> = (0..40).map(|i| format!("\"M{i}\"")).collect();
    let list = ids.join(",");
    for i in 0..40 {
        assert!(known(&format!("M{i}"), &list), "M{i}");
    }
    assert!(!known("M40", &list));
    assert!(!known("M", &list));
    assert!(!known("", &list));
    // and however long they are.
    let list = "\"0123456789abcdefXYZ\",\"\"";
    assert!(!known("0123456789abcdef", list));
    assert!(known("0123456789abcdefXYZ", list));
    assert!(!known("0123456789abcdefXYz", list));
    assert!(known("", list));
    // What comes first, last or twice counts alike.
    assert!(known("a", "\"a\",\"b\",\"a\""));
    assert!(known("b", "\"a\",\"b\",\"a\""));
    assert!(!known("M0", ""));
    assert!(!known("M0", "1 2 3"));
    assert!(known("M0", "1 x \"M0\" y"));
}

#[test]
fn flags_are_true_or_false() {
    let with = |word: &str| {
        let is_online = format!("\"is_online\": {word}");
        parse(&replaced(LEGIT_PAYLOAD, "\"is_online\": false", &is_online)).map(|p| p.is_online)
    };
    assert_eq!(with("true"), Some(true));
    assert_eq!(with("false"), Some(false));
    for word in ["truth", "tru", "falsey", "True", "1", "null", "\"true\""] {
        assert_eq!(with(word), None, "{word}");
    }
    let card = replaced(LEGIT_PAYLOAD, "\"card_present\": true", "\"card_present\": yes");
    assert!(parse(&card).is_none());
}

#[test]
fn readers_stop_where_they_should() {
    assert_eq!(skip_to_value(b"\"a\" : \t1", 0), Some(7));
    assert_eq!(skip_to_value(b"none", 0), None);
    assert_eq!(read_string(b"\"ab\"c", 0), Some((&b"ab"[..], 4)));
    assert_eq!(read_string(b"ab", 0), None);
    assert_eq!(read_string(b"\"ab", 0), None);
    assert_eq!(read_token(b"12, 3", 0), Some((&b"12"[..], 2)));
    assert_eq!(read_token(b"12", 0), Some((&b"12"[..], 2)));
    assert_eq!(read_token(b"]", 0), None);
    assert_eq!(read_token(b"", 0), None);
    assert_eq!(read_token(b"12", 3), None);
    assert_eq!(read_token(b"12", usize::MAX), None);
    assert_eq!(read_string(b"\"\"", 3), None);
    assert_eq!(read_string(b"\"\"", usize::MAX), None);
}

#[test]
fn only_digits_count() {
    assert_eq!(parse_digits2(b"07", 0), Some(7));
    assert_eq!(parse_digits2(b"99", 0), Some(99));
    assert_eq!(parse_digits2(b"x10", 1), Some(10));
    assert_eq!(parse_digits2(b"0:", 0), None);
    assert_eq!(parse_digits2(b":0", 0), None);
    assert_eq!(parse_digits2(b"/0", 0), None);
    assert_eq!(parse_digits2(b"0/", 0), None);
    assert_eq!(parse_digits2(b"1", 0), None);
    assert_eq!(parse_digits2(b"12", usize::MAX), None);
    assert_eq!(parse_digits4(b"2026", 0), Some(2026));
    assert_eq!(parse_digits4(b"9999", 0), Some(9999));
    assert_eq!(parse_digits4(b"202", 0), None);
    assert_eq!(parse_digits4(b"2:26", 0), None);
    assert_eq!(parse_digits4(b"q535", 0), None);
    assert_eq!(parse_digits4(b"2026", usize::MAX - 1), None);
}

#[test]
fn moments_are_of_the_calendar_and_the_clock() {
    let day = |date: &str| parse(&replaced(LEGIT_PAYLOAD, "2026-03-11", date)).is_some();
    assert!(day("2026-03-31"));
    assert!(!day("2026-03-32"));
    assert!(!day("2026-03-00"));
    assert!(day("2026-04-30"));
    assert!(!day("2026-04-31"));
    assert!(day("2026-02-28"));
    assert!(!day("2026-02-29"));
    assert!(day("2024-02-29"));
    assert!(day("2000-02-29"));
    assert!(!day("1900-02-29"));
    assert!(day("2026-12-31"));
    assert!(!day("2026-0:-11"));
    let time = |time: &str| parse(&replaced(LEGIT_PAYLOAD, "18:45", time)).is_some();
    assert!(time("00:00"));
    assert!(time("23:59"));
    assert!(!time("24:00"));
    assert!(!time("23:60"));
    let last = |moment: &str| parse(&replaced(TX_WITH_LAST, "2026-03-11T14:58", moment)).is_some();
    assert!(last("2024-02-29T23:59"));
    assert!(!last("2023-02-29T23:59"));
    assert!(!last("2024-02-28T24:59"));
    assert!(!last("2024-13-28T23:59"));
}

#[test]
fn iso_moments() {
    let text = b"2026-03-11T18:45:53Z";
    let m = Moment { year: 2026, month: 3, day: 11, hour: 18, minute: 45 };
    assert_eq!(parse_iso(text, 0), Some(m));
    assert_eq!(parse_iso(&text[..19], 0), Some(m));
    assert_eq!(parse_iso(&text[..18], 0), None);
    assert_eq!(parse_iso(text, 2), None);
    assert_eq!(parse_iso(text, usize::MAX), None);
}

#[test]
fn values_in_their_order_are_read_whatever_the_fields_are_called() {
    let body = b"x{ a :\n \"id\" b:\t{c:7 d:1 e: \"2026-03-11T18:45:53Z\"} f:{g:8.5 h:2 i:[ ,\"M1\" ,\n\"M2\",], j:{k:\"M2\"l:\"5411\"m:9 n:{o:true p:false q:1e1 r:{s:\"2026-03-11T18:40:00Z\"t:3";
    let p = parse(body).unwrap();
    assert_eq!(p.amount, b"7");
    assert_eq!(p.installments, 1);
    assert_eq!((p.hour, p.weekday), (18, 2));
    assert_eq!(p.customer_avg_amount, b"8.5");
    assert_eq!(p.tx_count_24h, 2);
    assert!(!p.is_unknown_merchant);
    assert_eq!(p.mcc, 5411);
    assert_eq!(p.merchant_avg_amount, b"9");
    assert!(p.is_online);
    assert!(!p.card_present);
    assert_eq!(p.km_from_home, b"1e1");
    assert!(p.has_last_tx);
    assert_eq!(p.minutes_since_last, 5);
    assert_eq!(p.km_from_current, b"3");
}
