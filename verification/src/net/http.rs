//! Requests as they come in: where a header ends, what it declares and asks
//! for, and what is to be done next.

use vstd::prelude::*;

use crate::fraud::numerals::{
    digits_end, digits_value, lemma_unsigned_value_bounded, lower, lowered, parse_unsigned,
    unsigned_value, NINE, ZERO,
};
use crate::net::response::{ascii, ascii_bytes};
use crate::scan::{find_byte, first_from, lemma_first_from, matches_at, occurs_at};

verus! {

/// The most bytes that a request may have.
pub const RX_CAP: usize = 8192;

pub const NEWLINE: u8 = 0x0a;

pub const RETURN: u8 = 0x0d;

pub const SPACE: u8 = 0x20;

/// What a request asks for.
#[derive(Debug, Clone, Copy, PartialEq, Eq, Structural)]
pub enum Route {
    FraudScore,
    Ready,
    NotFound,
}

/// The empty line that ends a header.
pub open spec fn empty_line() -> Seq<u8> {
    seq![RETURN, NEWLINE, RETURN, NEWLINE]
}

/// The end of the first empty line at or after `i`.
pub open spec fn header_end_from(b: Seq<u8>, i: int) -> Option<int>
    decreases b.len() - i,
{
    if i < 0 || i + 4 > b.len() {
        None
    } else if occurs_at(b, empty_line(), i) {
        Some(i + 4)
    } else {
        header_end_from(b, i + 1)
    }
}

/// The end of the first header in `b`.
pub open spec fn header_end(b: Seq<u8>) -> Option<int> {
    header_end_from(b, 0)
}

/// What `header_end_from` gives, said without recursion.
pub proof fn lemma_header_end_from(b: Seq<u8>, i: int)
    requires
        0 <= i,
    ensures
        match header_end_from(b, i) {
            Some(e) => i + 4 <= e <= b.len() && occurs_at(b, empty_line(), e - 4) && forall|j: int|
                i <= j < e - 4 ==> !#[trigger] occurs_at(b, empty_line(), j),
            None => forall|j: int| i <= j ==> !#[trigger] occurs_at(b, empty_line(), j),
        },
    decreases b.len() - i,
{
    if i + 4 <= b.len() && !occurs_at(b, empty_line(), i) {
        lemma_header_end_from(b, i + 1);
    }
}

/// Only the first empty line ends the header.
pub proof fn lemma_first_empty_line(b: Seq<u8>, i: int, at: int)
    requires
        0 <= i <= at,
        occurs_at(b, empty_line(), at),
        forall|j: int| i <= j < at ==> !#[trigger] occurs_at(b, empty_line(), j),
    ensures
        header_end_from(b, i) == Some(at + 4),
    decreases at - i,
{
    if i < at {
        assert(!occurs_at(b, empty_line(), i));
        lemma_first_empty_line(b, i + 1, at);
    }
}

/// The end of the first header: the position after the first empty line.
pub fn find_header_end(buf: &[u8]) -> (r: Option<usize>)
    ensures
        match r {
            Some(e) => header_end(buf@) == Some(e as int) && 4 <= e <= buf@.len(),
            None => header_end(buf@) is None,
        },
{
    let line: [u8; 4] = [RETURN, NEWLINE, RETURN, NEWLINE];
    assert(line@ =~= empty_line());
    match memchr::memmem::find(buf, &line) {
        Some(i) => {
            proof {
                lemma_first_empty_line(buf@, 0, i as int);
            }
            assert(i + 4 <= buf.len());
            Some(i + 4)
        },
        None => {
            proof {
                lemma_header_end_from(buf@, 0);
                if let Some(e) = header_end(buf@) {
                    assert(occurs_at(buf@, empty_line(), e - 4));
                }
            }
            None
        },
    }
}

/// The last position below `end` that holds `needle`.
pub open spec fn last_before(b: Seq<u8>, needle: u8, end: int) -> Option<int>
    decreases end,
{
    if end <= 0 {
        None
    } else if b[end - 1] == needle {
        Some(end - 1)
    } else {
        last_before(b, needle, end - 1)
    }
}

proof fn lemma_last_before(b: Seq<u8>, needle: u8, end: int, i: int)
    requires
        0 <= i < end,
        b[i] == needle,
        forall|j: int| i < j < end ==> b[j] != needle,
    ensures
        last_before(b, needle, end) == Some(i),
    decreases end - i,
{
    if i < end - 1 {
        lemma_last_before(b, needle, end - 1, i);
    }
}

proof fn lemma_last_before_none(b: Seq<u8>, needle: u8, end: int)
    requires
        forall|j: int| 0 <= j < end ==> b[j] != needle,
    ensures
        last_before(b, needle, end) is None,
    decreases end,
{
    if end > 0 {
        lemma_last_before_none(b, needle, end - 1);
    }
}

/// Whether `line` starts with `name` in letters of either case.
pub open spec fn is_named(line: Seq<u8>, name: Seq<u8>) -> bool {
    &&& line.len() > name.len()
    &&& forall|i: int| 0 <= i < name.len() ==> lowered(#[trigger] line[i]) == name[i]
}

/// The number that the digits at the start of `b` spell, unless it is 0 or
/// does not fit.
pub open spec fn leading_number(b: Seq<u8>) -> Option<int> {
    let v = digits_value(b.take(digits_end(b, 0)));
    if 0 < v <= usize::MAX {
        Some(v)
    } else {
        None
    }
}

/// The length that the last line of a header declares.
pub open spec fn length_in_last_line(h: Seq<u8>) -> Option<int> {
    if h.len() < 4 {
        None
    } else {
        match last_before(h, NEWLINE, h.len() - 4) {
            Some(nl) => {
                let line = h.skip(nl + 1);
                if is_named(line, ascii("content-length: "@)) {
                    leading_number(line.skip(16))
                } else {
                    None
                }
            },
            None => None,
        }
    }
}

/// The length that the first line at or after `i` declares which declares one.
pub open spec fn length_in_lines(h: Seq<u8>, i: int) -> Option<int>
    decreases h.len() + 1 - i,
    when 0 <= i
    via length_in_lines_decreases
{
    if i >= h.len() {
        None
    } else {
        let end = line_end(h, i);
        let line = h.subrange(i, end);
        if is_named(line, ascii("content-length:"@)) {
            unsigned_value(trimmed(stripped(line.skip(15))), usize::MAX as int)
        } else {
            length_in_lines(h, end + 1)
        }
    }
}

#[via_fn]
proof fn length_in_lines_decreases(h: Seq<u8>, i: int) {
    lemma_first_from(h, NEWLINE, i);
}

/// The end of the line that starts at `i`.
pub open spec fn line_end(h: Seq<u8>, i: int) -> int {
    match first_from(h, NEWLINE, i) {
        Some(e) => e,
        None => h.len() as int,
    }
}

/// The length of the body that a header declares.
pub open spec fn declared_length(h: Seq<u8>) -> Option<int> {
    match length_in_last_line(h) {
        Some(n) => Some(n),
        None => length_in_lines(h, 0),
    }
}

/// The first position at or after `i` that holds no space.
pub open spec fn spaces_end(v: Seq<u8>, i: int) -> int
    decreases v.len() - i,
{
    if 0 <= i < v.len() && v[i] == SPACE {
        spaces_end(v, i + 1)
    } else {
        i
    }
}

/// The position after the last byte below `end` that is neither a space nor a
/// carriage return; 0 where all are.
pub open spec fn text_end(v: Seq<u8>, end: int) -> int
    decreases end,
{
    if end <= 0 {
        0
    } else if v[end - 1] != SPACE && v[end - 1] != RETURN {
        end
    } else {
        text_end(v, end - 1)
    }
}

/// A value without the spaces before it, and without the spaces and carriage
/// returns after it; where it is made of those alone, they stay.
pub open spec fn stripped(v: Seq<u8>) -> Seq<u8> {
    let w = v.skip(spaces_end(v, 0));
    let end = text_end(w, w.len() as int);
    if end == 0 {
        w
    } else {
        w.take(end)
    }
}

/// Whether a byte is a white-space character.
pub open spec fn is_white1(a: u8) -> bool {
    0x09 <= a <= 0x0d || a == SPACE
}

/// Whether two bytes encode a white-space character.
pub open spec fn is_white2(a: u8, b: u8) -> bool {
    a == 0xc2 && (b == 0x85 || b == 0xa0)
}

/// Whether three bytes encode a white-space character.
pub open spec fn is_white3(a: u8, b: u8, c: u8) -> bool {
    ||| a == 0xe1 && b == 0x9a && c == 0x80
    ||| a == 0xe2 && b == 0x80 && (0x80 <= c <= 0x8a || c == 0xa8 || c == 0xa9 || c == 0xaf)
    ||| a == 0xe2 && b == 0x81 && c == 0x9f
    ||| a == 0xe3 && b == 0x80 && c == 0x80
}

/// How many bytes the white-space character at `i` has; 0 where there is none.
pub open spec fn white_at(v: Seq<u8>, i: int) -> int {
    if i < v.len() && is_white1(v[i]) {
        1
    } else if i + 1 < v.len() && is_white2(v[i], v[i + 1]) {
        2
    } else if i + 2 < v.len() && is_white3(v[i], v[i + 1], v[i + 2]) {
        3
    } else {
        0
    }
}

/// How many bytes the white-space character has that ends before `end` and
/// starts no earlier than `start`; 0 where there is none.
pub open spec fn white_before(v: Seq<u8>, start: int, end: int) -> int {
    if start <= end - 1 && is_white1(v[end - 1]) {
        1
    } else if start <= end - 2 && is_white2(v[end - 2], v[end - 1]) {
        2
    } else if start <= end - 3 && is_white3(v[end - 3], v[end - 2], v[end - 1]) {
        3
    } else {
        0
    }
}

/// The first position at or after `i` that holds no white space.
pub open spec fn after_white(v: Seq<u8>, i: int) -> int
    decreases v.len() - i,
{
    if 0 <= i < v.len() && white_at(v, i) > 0 {
        after_white(v, i + white_at(v, i))
    } else {
        i
    }
}

/// `end` without the white space before it, but for what lies below `start`.
pub open spec fn before_white(v: Seq<u8>, start: int, end: int) -> int
    decreases end - start,
{
    if white_before(v, start, end) > 0 {
        before_white(v, start, end - white_before(v, start, end))
    } else {
        end
    }
}

/// A value without white space at its ends.
pub open spec fn trimmed(v: Seq<u8>) -> Seq<u8> {
    let start = after_white(v, 0);
    v.subrange(start, before_white(v, start, v.len() as int))
}

/// No declared length is negative.
pub proof fn lemma_declared_length_nonneg(h: Seq<u8>)
    ensures
        declared_length(h) matches Some(n) ==> 0 <= n,
{
    lemma_length_in_lines_nonneg(h, 0);
}

proof fn lemma_length_in_lines_nonneg(h: Seq<u8>, i: int)
    requires
        0 <= i,
    ensures
        length_in_lines(h, i) matches Some(n) ==> 0 <= n,
    decreases h.len() + 1 - i,
{
    if i < h.len() {
        lemma_first_from(h, NEWLINE, i);
        let line = h.subrange(i, line_end(h, i));
        lemma_unsigned_value_bounded(trimmed(stripped(line.skip(15))), usize::MAX as int);
        lemma_length_in_lines_nonneg(h, line_end(h, i) + 1);
    }
}

fn is_named_as(line: &[u8], name: &[u8]) -> (r: bool)
    ensures
        r == is_named(line@, name@),
{
    if line.len() <= name.len() {
        return false;
    }
    let mut i: usize = 0;
    while i < name.len()
        invariant
            i <= name@.len() < line@.len(),
            forall|j: int| 0 <= j < i ==> lowered(#[trigger] line@[j]) == name@[j],
        decreases name@.len() - i,
    {
        if lower(line[i]) != name[i] {
            return false;
        }
        i = i + 1;
    }
    true
}

/// The number that the digits at the start of `b` spell.
pub fn parse_digits(b: &[u8]) -> (r: Option<usize>)
    ensures
        match r {
            Some(n) => leading_number(b@) == Some(n as int),
            None => leading_number(b@) is None,
        },
{
    let mut n: usize = 0;
    let mut over = false;
    let mut i: usize = 0;
    while i < b.len() && ZERO <= b[i] && b[i] <= NINE
        invariant
            i <= b@.len(),
            digits_end(b@, 0) == digits_end(b@, i as int),
            over ==> digits_value(b@.take(i as int)) > usize::MAX,
            !over ==> n == digits_value(b@.take(i as int)),
        decreases b@.len() - i,
    {
        let step: usize = (b[i] - ZERO) as usize;
        proof {
            assert(b@.take(i + 1).drop_last() =~= b@.take(i as int));
        }
        if !over {
            match n.checked_mul(10) {
                Some(tens) => match tens.checked_add(step) {
                    Some(next) => {
                        n = next;
                    },
                    None => {
                        over = true;
                    },
                },
                None => {
                    over = true;
                },
            }
        }
        i = i + 1;
    }
    if over || n == 0 {
        None
    } else {
        Some(n)
    }
}

fn strip_value(v: &[u8]) -> (r: &[u8])
    ensures
        r@ == stripped(v@),
{
    let mut start: usize = 0;
    while start < v.len() && v[start] == SPACE
        invariant
            start <= v@.len(),
            spaces_end(v@, 0) == spaces_end(v@, start as int),
        decreases v@.len() - start,
    {
        start = start + 1;
    }
    let w = &v[start..v.len()];
    assert(w@ =~= v@.skip(start as int));
    let mut end: usize = w.len();
    while end > 0 && (w[end - 1] == SPACE || w[end - 1] == RETURN)
        invariant
            end <= w@.len(),
            text_end(w@, w@.len() as int) == text_end(w@, end as int),
        decreases end,
    {
        end = end - 1;
    }
    if end == 0 {
        w
    } else {
        let r = &w[0..end];
        assert(r@ =~= w@.take(end as int));
        r
    }
}

fn white_len_at(v: &[u8], i: usize) -> (r: usize)
    requires
        i <= v@.len(),
    ensures
        r == white_at(v@, i as int),
        i + r <= v.len(),
{
    let left: usize = v.len() - i;
    if left >= 1 && ((0x09 <= v[i] && v[i] <= 0x0d) || v[i] == SPACE) {
        1
    } else if left >= 2 && v[i] == 0xc2 && (v[i + 1] == 0x85 || v[i + 1] == 0xa0) {
        2
    } else if left >= 3 && is_white_triple(v[i], v[i + 1], v[i + 2]) {
        3
    } else {
        0
    }
}

fn is_white_triple(a: u8, b: u8, c: u8) -> (r: bool)
    ensures
        r == is_white3(a, b, c),
{
    (a == 0xe1 && b == 0x9a && c == 0x80) || (a == 0xe2 && b == 0x80 && ((0x80 <= c && c <= 0x8a)
        || c == 0xa8 || c == 0xa9 || c == 0xaf)) || (a == 0xe2 && b == 0x81 && c == 0x9f) || (a
        == 0xe3 && b == 0x80 && c == 0x80)
}

fn white_len_before(v: &[u8], start: usize, end: usize) -> (r: usize)
    requires
        start <= end <= v@.len(),
    ensures
        r == white_before(v@, start as int, end as int),
        start + r <= end,
{
    let left: usize = end - start;
    if left >= 1 && ((0x09 <= v[end - 1] && v[end - 1] <= 0x0d) || v[end - 1] == SPACE) {
        1
    } else if left >= 2 && v[end - 2] == 0xc2 && (v[end - 1] == 0x85 || v[end - 1] == 0xa0) {
        2
    } else if left >= 3 && is_white_triple(v[end - 3], v[end - 2], v[end - 1]) {
        3
    } else {
        0
    }
}

/// A value without white space at its ends.
pub fn trim(v: &[u8]) -> (r: &[u8])
    ensures
        r@ == trimmed(v@),
{
    let mut start: usize = 0;
    loop
        invariant
            start <= v@.len(),
            after_white(v@, 0) == after_white(v@, start as int),
        ensures
            start <= v@.len(),
            start == after_white(v@, 0),
        decreases v@.len() - start,
    {
        let n = white_len_at(v, start);
        if n == 0 {
            break;
        }
        start = start + n;
    }
    let mut end: usize = v.len();
    loop
        invariant
            start <= end <= v@.len(),
            before_white(v@, start as int, v@.len() as int) == before_white(
                v@,
                start as int,
                end as int,
            ),
        ensures
            start <= end <= v@.len(),
            end == before_white(v@, start as int, v@.len() as int),
        decreases end,
    {
        let n = white_len_before(v, start, end);
        if n == 0 {
            break;
        }
        end = end - n;
    }
    &v[start..end]
}

fn length_from_last_line(headers: &[u8]) -> (r: Option<usize>)
    ensures
        match r {
            Some(n) => length_in_last_line(headers@) == Some(n as int),
            None => length_in_last_line(headers@) is None,
        },
{
    if headers.len() < 4 {
        return None;
    }
    let scan = &headers[0..headers.len() - 4];
    match memchr::memrchr(NEWLINE, scan) {
        Some(nl) => {
            proof {
                assert forall|j: int| nl < j < headers@.len() - 4 implies headers@[j] != NEWLINE by {
                    assert(scan@[j] != NEWLINE);
                }
                lemma_last_before(headers@, NEWLINE, headers@.len() - 4, nl as int);
                reveal_strlit("content-length: ");
            }
            let line = &headers[nl + 1..headers.len()];
            assert(line@ =~= headers@.skip(nl + 1));
            if is_named_as(line, ascii_bytes("content-length: ")) {
                let digits = &line[16..line.len()];
                assert(digits@ =~= line@.skip(16));
                parse_digits(digits)
            } else {
                None
            }
        },
        None => {
            proof {
                assert forall|j: int| 0 <= j < headers@.len() - 4 implies headers@[j] != NEWLINE by {
                    assert(scan@[j] == headers@[j]);
                }
                lemma_last_before_none(headers@, NEWLINE, headers@.len() - 4);
            }
            None
        },
    }
}

fn parse_content_length_slow(headers: &[u8]) -> (r: Option<usize>)
    ensures
        match r {
            Some(n) => length_in_lines(headers@, 0) == Some(n as int),
            None => length_in_lines(headers@, 0) is None,
        },
{
    proof {
        reveal_strlit("content-length:");
    }
    let name = ascii_bytes("content-length:");
    let mut i: usize = 0;
    while i < headers.len()
        invariant
            name@ == ascii("content-length:"@),
            name@.len() == 15,
            length_in_lines(headers@, 0) == length_in_lines(headers@, i as int),
        decreases headers@.len() - i,
    {
        let end: usize = match find_byte(headers, NEWLINE, i) {
            Some(e) => e,
            None => headers.len(),
        };
        proof {
            lemma_first_from(headers@, NEWLINE, i as int);
        }
        assert(end == line_end(headers@, i as int));
        let line = &headers[i..end];
        if is_named_as(line, name) {
            let value = &line[15..line.len()];
            assert(value@ =~= line@.skip(15));
            return match parse_unsigned(trim(strip_value(value)), usize::MAX as u64) {
                Some(n) => Some(n as usize),
                None => None,
            };
        }
        if end == headers.len() {
            assert(length_in_lines(headers@, end + 1) is None);
            return None;
        }
        i = end + 1;
    }
    None
}

/// The length of the body that a header declares.
pub fn parse_content_length(headers: &[u8]) -> (r: Option<usize>)
    ensures
        match r {
            Some(n) => declared_length(headers@) == Some(n as int),
            None => declared_length(headers@) is None,
        },
{
    match length_from_last_line(headers) {
        Some(n) => Some(n),
        None => parse_content_length_slow(headers),
    }
}

/// What the first line of a request asks for.
pub open spec fn route_of(line: Seq<u8>) -> Route {
    if occurs_at(line, ascii("POST /fraud-score"@), 0) {
        Route::FraudScore
    } else if occurs_at(line, ascii("GET /ready"@), 0) {
        Route::Ready
    } else {
        Route::NotFound
    }
}

/// What the first line of a request asks for.
pub fn detect_route(first_line: &[u8]) -> (r: Route)
    ensures
        r == route_of(first_line@),
{
    proof {
        reveal_strlit("POST /fraud-score");
        reveal_strlit("GET /ready");
    }
    if matches_at(first_line, ascii_bytes("POST /fraud-score"), 0) {
        Route::FraudScore
    } else if matches_at(first_line, ascii_bytes("GET /ready"), 0) {
        Route::Ready
    } else {
        Route::NotFound
    }
}

/// What the request asks for whose header `h` is.
pub open spec fn route_in(h: Seq<u8>) -> Route {
    match first_from(h, RETURN, 0) {
        Some(e) => route_of(h.take(e)),
        None => route_of(h),
    }
}

/// What the request asks for whose header `header` is.
pub fn route_in_header(header: &[u8]) -> (r: Route)
    ensures
        r == route_in(header@),
{
    match find_byte(header, RETURN, 0) {
        Some(e) => {
            let line = &header[0..e];
            assert(line@ =~= header@.take(e as int));
            detect_route(line)
        },
        None => detect_route(header),
    }
}

} // verus!
