//! The responses, rendered beforehand.

use vstd::prelude::*;
use vstd::utf8::{is_ascii_chars, is_ascii_chars_encode_utf8};

use crate::fraud::numerals::{digits_value, unsigned_value};

verus! {

/// The response of a server that is ready.
pub const RESP_READY: &'static str =
    "HTTP/1.1 200 OK\r\nContent-Type: text/plain\r\nContent-Length: 2\r\nConnection: keep-alive\r\n\r\nOK";

/// The response to a request for what is not there.
pub const RESP_NOT_FOUND: &'static str =
    "HTTP/1.1 404 Not Found\r\nContent-Length: 0\r\nConnection: keep-alive\r\n\r\n";

/// The response to a request that cannot be read.
pub const RESP_BAD_REQ: &'static str =
    "HTTP/1.1 400 Bad Request\r\nContent-Length: 0\r\nConnection: keep-alive\r\n\r\n";

/// The bytes of a text of ASCII characters.
pub open spec fn ascii(s: Seq<char>) -> Seq<u8> {
    s.map_values(|c: char| c as u8)
}

/// Whether a request with this many fraud votes is approved.
pub open spec fn is_approved(count: int) -> bool {
    count <= 2
}

/// How an approval is spelled.
pub open spec fn approval_text(count: int) -> Seq<char> {
    if is_approved(count) {
        "true"@
    } else {
        "false"@
    }
}

/// A fifth of the votes, spelled with one decimal; over five votes count as
/// five.
pub open spec fn score_text(count: int) -> Seq<char> {
    if count <= 0 {
        "0.0"@
    } else if count == 1 {
        "0.2"@
    } else if count == 2 {
        "0.4"@
    } else if count == 3 {
        "0.6"@
    } else if count == 4 {
        "0.8"@
    } else {
        "1.0"@
    }
}

/// What a request with this many fraud votes is answered.
pub open spec fn score_body(count: int) -> Seq<char> {
    "{\"approved\":"@ + approval_text(count) + ",\"fraud_score\":"@ + score_text(count) + "}"@
}

/// The length of that answer.
pub open spec fn score_length_text(count: int) -> Seq<char> {
    if is_approved(count) {
        "35"@
    } else {
        "36"@
    }
}

/// The response to a request with this many fraud votes.
pub open spec fn score_response(count: int) -> Seq<char> {
    "HTTP/1.1 200 OK\r\nContent-Type: application/json\r\nContent-Length: "@ + score_length_text(
        count,
    ) + "\r\nConnection: keep-alive\r\n\r\n"@ + score_body(count)
}

/// The bytes of a text of ASCII characters.
pub fn ascii_bytes(s: &'static str) -> (r: &'static [u8])
    requires
        is_ascii_chars(s@),
    ensures
        r@ == ascii(s@),
{
    let r = s.as_bytes();
    proof {
        is_ascii_chars_encode_utf8(s@);
        assert(r@ =~= ascii(s@));
    }
    r
}

fn resp_0() -> (r: &'static [u8])
    ensures
        r@ == ascii(score_response(0)),
{
    let text =
        "HTTP/1.1 200 OK\r\nContent-Type: application/json\r\nContent-Length: 35\r\nConnection: keep-alive\r\n\r\n{\"approved\":true,\"fraud_score\":0.0}";
    proof {
        reveal_strlit(
            "HTTP/1.1 200 OK\r\nContent-Type: application/json\r\nContent-Length: 35\r\nConnection: keep-alive\r\n\r\n{\"approved\":true,\"fraud_score\":0.0}",
        );
        reveal_strlit("HTTP/1.1 200 OK\r\nContent-Type: application/json\r\nContent-Length: ");
        reveal_strlit("35");
        reveal_strlit("\r\nConnection: keep-alive\r\n\r\n");
        reveal_strlit("{\"approved\":");
        reveal_strlit("true");
        reveal_strlit(",\"fraud_score\":");
        reveal_strlit("0.0");
        reveal_strlit("}");
        assert(text@ =~= score_response(0));
    }
    ascii_bytes(text)
}

fn resp_1() -> (r: &'static [u8])
    ensures
        r@ == ascii(score_response(1)),
{
    let text =
        "HTTP/1.1 200 OK\r\nContent-Type: application/json\r\nContent-Length: 35\r\nConnection: keep-alive\r\n\r\n{\"approved\":true,\"fraud_score\":0.2}";
    proof {
        reveal_strlit(
            "HTTP/1.1 200 OK\r\nContent-Type: application/json\r\nContent-Length: 35\r\nConnection: keep-alive\r\n\r\n{\"approved\":true,\"fraud_score\":0.2}",
        );
        reveal_strlit("HTTP/1.1 200 OK\r\nContent-Type: application/json\r\nContent-Length: ");
        reveal_strlit("35");
        reveal_strlit("\r\nConnection: keep-alive\r\n\r\n");
        reveal_strlit("{\"approved\":");
        reveal_strlit("true");
        reveal_strlit(",\"fraud_score\":");
        reveal_strlit("0.2");
        reveal_strlit("}");
        assert(text@ =~= score_response(1));
    }
    ascii_bytes(text)
}

fn resp_2() -> (r: &'static [u8])
    ensures
        r@ == ascii(score_response(2)),
{
    let text =
        "HTTP/1.1 200 OK\r\nContent-Type: application/json\r\nContent-Length: 35\r\nConnection: keep-alive\r\n\r\n{\"approved\":true,\"fraud_score\":0.4}";
    proof {
        reveal_strlit(
            "HTTP/1.1 200 OK\r\nContent-Type: application/json\r\nContent-Length: 35\r\nConnection: keep-alive\r\n\r\n{\"approved\":true,\"fraud_score\":0.4}",
        );
        reveal_strlit("HTTP/1.1 200 OK\r\nContent-Type: application/json\r\nContent-Length: ");
        reveal_strlit("35");
        reveal_strlit("\r\nConnection: keep-alive\r\n\r\n");
        reveal_strlit("{\"approved\":");
        reveal_strlit("true");
        reveal_strlit(",\"fraud_score\":");
        reveal_strlit("0.4");
        reveal_strlit("}");
        assert(text@ =~= score_response(2));
    }
    ascii_bytes(text)
}

fn resp_3() -> (r: &'static [u8])
    ensures
        r@ == ascii(score_response(3)),
{
    let text =
        "HTTP/1.1 200 OK\r\nContent-Type: application/json\r\nContent-Length: 36\r\nConnection: keep-alive\r\n\r\n{\"approved\":false,\"fraud_score\":0.6}";
    proof {
        reveal_strlit(
            "HTTP/1.1 200 OK\r\nContent-Type: application/json\r\nContent-Length: 36\r\nConnection: keep-alive\r\n\r\n{\"approved\":false,\"fraud_score\":0.6}",
        );
        reveal_strlit("HTTP/1.1 200 OK\r\nContent-Type: application/json\r\nContent-Length: ");
        reveal_strlit("36");
        reveal_strlit("\r\nConnection: keep-alive\r\n\r\n");
        reveal_strlit("{\"approved\":");
        reveal_strlit("false");
        reveal_strlit(",\"fraud_score\":");
        reveal_strlit("0.6");
        reveal_strlit("}");
        assert(text@ =~= score_response(3));
    }
    ascii_bytes(text)
}

fn resp_4() -> (r: &'static [u8])
    ensures
        r@ == ascii(score_response(4)),
{
    let text =
        "HTTP/1.1 200 OK\r\nContent-Type: application/json\r\nContent-Length: 36\r\nConnection: keep-alive\r\n\r\n{\"approved\":false,\"fraud_score\":0.8}";
    proof {
        reveal_strlit(
            "HTTP/1.1 200 OK\r\nContent-Type: application/json\r\nContent-Length: 36\r\nConnection: keep-alive\r\n\r\n{\"approved\":false,\"fraud_score\":0.8}",
        );
        reveal_strlit("HTTP/1.1 200 OK\r\nContent-Type: application/json\r\nContent-Length: ");
        reveal_strlit("36");
        reveal_strlit("\r\nConnection: keep-alive\r\n\r\n");
        reveal_strlit("{\"approved\":");
        reveal_strlit("false");
        reveal_strlit(",\"fraud_score\":");
        reveal_strlit("0.8");
        reveal_strlit("}");
        assert(text@ =~= score_response(4));
    }
    ascii_bytes(text)
}

fn resp_5() -> (r: &'static [u8])
    ensures
        r@ == ascii(score_response(5)),
{
    let text =
        "HTTP/1.1 200 OK\r\nContent-Type: application/json\r\nContent-Length: 36\r\nConnection: keep-alive\r\n\r\n{\"approved\":false,\"fraud_score\":1.0}";
    proof {
        reveal_strlit(
            "HTTP/1.1 200 OK\r\nContent-Type: application/json\r\nContent-Length: 36\r\nConnection: keep-alive\r\n\r\n{\"approved\":false,\"fraud_score\":1.0}",
        );
        reveal_strlit("HTTP/1.1 200 OK\r\nContent-Type: application/json\r\nContent-Length: ");
        reveal_strlit("36");
        reveal_strlit("\r\nConnection: keep-alive\r\n\r\n");
        reveal_strlit("{\"approved\":");
        reveal_strlit("false");
        reveal_strlit(",\"fraud_score\":");
        reveal_strlit("1.0");
        reveal_strlit("}");
        assert(text@ =~= score_response(5));
    }
    ascii_bytes(text)
}

/// The response to a request with this many fraud votes; over five count as
/// five.
pub fn http_body_for(fraud_count: u8) -> (r: &'static [u8])
    ensures
        r@ == ascii(score_response(fraud_count as int)),
{
    match fraud_count {
        0 => resp_0(),
        1 => resp_1(),
        2 => resp_2(),
        3 => resp_3(),
        4 => resp_4(),
        _ => resp_5(),
    }
}

/// The bytes of `RESP_READY`.
pub fn resp_ready() -> (r: &'static [u8])
    ensures
        r@ == ascii(RESP_READY@),
{
    proof {
        reveal_strlit(
            "HTTP/1.1 200 OK\r\nContent-Type: text/plain\r\nContent-Length: 2\r\nConnection: keep-alive\r\n\r\nOK",
        );
    }
    ascii_bytes(RESP_READY)
}

/// The bytes of `RESP_NOT_FOUND`.
pub fn resp_not_found() -> (r: &'static [u8])
    ensures
        r@ == ascii(RESP_NOT_FOUND@),
{
    proof {
        reveal_strlit(
            "HTTP/1.1 404 Not Found\r\nContent-Length: 0\r\nConnection: keep-alive\r\n\r\n",
        );
    }
    ascii_bytes(RESP_NOT_FOUND)
}

/// The bytes of `RESP_BAD_REQ`.
pub fn resp_bad_req() -> (r: &'static [u8])
    ensures
        r@ == ascii(RESP_BAD_REQ@),
{
    proof {
        reveal_strlit(
            "HTTP/1.1 400 Bad Request\r\nContent-Length: 0\r\nConnection: keep-alive\r\n\r\n",
        );
    }
    ascii_bytes(RESP_BAD_REQ)
}

/// The length that a score response declares is the length of its body.
pub proof fn declared_lengths_are_true(count: int)
    ensures
        unsigned_value(ascii(score_length_text(count)), usize::MAX as int) == Some(
            score_body(count).len() as int,
        ),
{
    reveal_strlit("35");
    reveal_strlit("36");
    reveal_strlit("{\"approved\":");
    reveal_strlit("true");
    reveal_strlit("false");
    reveal_strlit(",\"fraud_score\":");
    reveal_strlit("0.0");
    reveal_strlit("0.2");
    reveal_strlit("0.4");
    reveal_strlit("0.6");
    reveal_strlit("0.8");
    reveal_strlit("1.0");
    reveal_strlit("}");
    let d = ascii(score_length_text(count));
    assert(d.len() == 2);
    assert(d[0] == 0x33 && (d[1] == 0x35 || d[1] == 0x36));
    reveal_with_fuel(digits_value, 3);
    assert(digits_value(d) == 30 + (d[1] - 0x30)) by {
        assert(d.drop_last().drop_last().len() == 0);
        assert(d.drop_last().last() == d[0]);
    }
}

/// More votes never turn a refusal into an approval, and five votes and more
/// are answered alike.
pub proof fn votes_are_answered_in_order(a: int, b: int)
    requires
        a <= b,
    ensures
        is_approved(b) ==> is_approved(a),
        a >= 5 ==> score_response(a) == score_response(b),
{
}

/// The score that is answered is two tenths for each vote, and ten tenths for five
/// votes and more; it is an approval where the score is below six tenths.
pub proof fn scores_are_fifths(count: int)
    requires
        0 <= count,
    ensures
        score_text(count).len() == 3,
        '0' <= score_text(count)[0] <= '1',
        score_text(count)[1] == '.',
        '0' <= score_text(count)[2] <= '9',
        10 * (score_text(count)[0] as int - 0x30) + (score_text(count)[2] as int - 0x30) == (if count
            < 5 {
            2 * count
        } else {
            10
        }),
        is_approved(count) <==> 10 * (score_text(count)[0] as int - 0x30) + (score_text(
            count,
        )[2] as int - 0x30) < 6,
        is_approved(count) ==> approval_text(count) == "true"@,
        !is_approved(count) ==> approval_text(count) == "false"@,
{
    reveal_strlit("0.0");
    reveal_strlit("0.2");
    reveal_strlit("0.4");
    reveal_strlit("0.6");
    reveal_strlit("0.8");
    reveal_strlit("1.0");
}

} // verus!
