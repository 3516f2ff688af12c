//! What holds of the length that a header declares.

use vstd::prelude::*;

use crate::fraud::numerals::{
    digits_end, digits_value, is_digit, lowered, unsigned_digits, unsigned_value,
};
use crate::net::http::{
    after_white, before_white, declared_length, empty_line, is_named, is_white1, is_white2,
    is_white3, last_before, leading_number, length_in_last_line, length_in_lines, line_end,
    route_in, route_of, spaces_end, stripped, text_end, trimmed, NEWLINE, RETURN, SPACE,
};
use crate::net::response::ascii;
use crate::scan::{first_from, lemma_first_from, occurs_at};

verus! {

/// Whether a line of `h` starts at `i`.
pub open spec fn is_line_start(h: Seq<u8>, i: int) -> bool {
    0 <= i < h.len() && (i == 0 || h[i - 1] == NEWLINE)
}

/// The line that starts at `i`.
pub open spec fn line_at(h: Seq<u8>, i: int) -> Seq<u8> {
    h.subrange(i, line_end(h, i))
}

pub open spec fn are_digits(d: Seq<u8>) -> bool {
    d.len() > 0 && forall|i: int| 0 <= i < d.len() ==> is_digit(#[trigger] d[i])
}

/// Whether a line declares the length that `digits` spell: the name in letters
/// of either case, a space, the digits and a carriage return.
pub open spec fn is_length_line(line: Seq<u8>, digits: Seq<u8>) -> bool {
    &&& line.len() == 17 + digits.len()
    &&& forall|i: int|
        0 <= i < 16 ==> lowered(#[trigger] line[i]) == ascii("content-length: "@)[i]
    &&& line.subrange(16, 16 + digits.len() as int) == digits
    &&& line.last() == RETURN
    &&& are_digits(digits)
}

/// The two names differ in the space that one of them ends with.
proof fn lemma_names()
    ensures
        ascii("content-length: "@).len() == 16,
        ascii("content-length:"@).len() == 15,
        forall|i: int|
            0 <= i < 15 ==> #[trigger] ascii("content-length:"@)[i] == ascii(
                "content-length: "@,
            )[i],
        ascii("content-length: "@)[15] == SPACE,
        forall|i: int|
            0 <= i < 16 ==> #[trigger] ascii("content-length: "@)[i] != NEWLINE && ascii(
                "content-length: "@,
            )[i] != RETURN,
{
    reveal_strlit("content-length: ");
    reveal_strlit("content-length:");
}

/// Lines that declare nothing are passed over.
proof fn lemma_passed_over(h: Seq<u8>, j: int, i: int)
    requires
        is_line_start(h, j),
        is_line_start(h, i),
        j <= i,
        forall|s: int|
            #![trigger is_line_start(h, s)]
            j <= s < i && is_line_start(h, s) ==> !is_named(
                line_at(h, s),
                ascii("content-length:"@),
            ),
    ensures
        length_in_lines(h, j) == length_in_lines(h, i),
    decreases i - j,
{
    if j < i {
        lemma_first_from(h, NEWLINE, j);
        let e = line_end(h, j);
        assert(first_from(h, NEWLINE, j) is Some && e <= i - 1);
        assert(is_line_start(h, e + 1));
        lemma_passed_over(h, e + 1, i);
    }
}

proof fn lemma_digits_end(b: Seq<u8>, from: int, e: int)
    requires
        0 <= from <= e <= b.len(),
        forall|i: int| from <= i < e ==> is_digit(#[trigger] b[i]),
        e < b.len() ==> !is_digit(b[e]),
    ensures
        digits_end(b, from) == e,
    decreases e - from,
{
    if from < e {
        assert(is_digit(b[from]));
        lemma_digits_end(b, from + 1, e);
    }
}

/// What is left of a value between a space and a carriage return.
proof fn lemma_stripped(v: Seq<u8>, digits: Seq<u8>)
    requires
        are_digits(digits),
        v == seq![SPACE] + digits + seq![RETURN],
    ensures
        trimmed(stripped(v)) == digits,
{
    assert(v[0] == SPACE);
    assert(v[1] == digits[0]);
    assert(is_digit(digits[0]));
    assert(spaces_end(v, 1) == 1);
    assert(spaces_end(v, 0) == 1);
    let w = v.skip(1);
    assert(w =~= digits + seq![RETURN]);
    let n = digits.len() as int;
    assert(w[n] == RETURN);
    assert(w[n - 1] == digits[n - 1]);
    assert(is_digit(digits[n - 1]));
    assert(text_end(w, n) == n);
    assert(text_end(w, n + 1) == n);
    assert(w.take(n) =~= digits);
    assert(stripped(v) == digits);
    assert(after_white(digits, 0) == 0);
    assert(before_white(digits, 0, n) == n);
    assert(digits.subrange(0, n) =~= digits);
}

/// The line that declares a length declares it to whoever reads all lines.
proof fn lemma_length_line(h: Seq<u8>, i: int, digits: Seq<u8>)
    requires
        is_line_start(h, i),
        is_length_line(line_at(h, i), digits),
        digits_value(digits) <= usize::MAX,
    ensures
        length_in_lines(h, i) == Some(digits_value(digits)),
{
    let line = line_at(h, i);
    lemma_names();
    lemma_first_from(h, NEWLINE, i);
    assert(is_named(line, ascii("content-length:"@))) by {
        assert forall|k: int| 0 <= k < 15 implies lowered(#[trigger] line[k]) == ascii(
            "content-length:"@,
        )[k] by {
            assert(lowered(line[k]) == ascii("content-length: "@)[k]);
        }
    }
    let v = line.skip(15);
    assert(lowered(line[15]) == SPACE);
    assert(line[15] == SPACE);
    assert forall|k: int| 0 <= k < digits.len() implies line[16 + k] == digits[k] by {
        assert(line.subrange(16, 16 + digits.len() as int)[k] == digits[k]);
    }
    assert(v =~= seq![SPACE] + digits + seq![RETURN]);
    lemma_stripped(v, digits);
    assert(is_digit(digits[0]));
    assert(unsigned_digits(digits) == digits);
    assert(unsigned_value(digits, usize::MAX as int) == Some(digits_value(digits)));
}

/// Where the last line of a header starts.
proof fn lemma_last_line(h: Seq<u8>, end: int)
    requires
        0 <= end <= h.len(),
    ensures
        match last_before(h, NEWLINE, end) {
            Some(nl) => 0 <= nl < end && h[nl] == NEWLINE && forall|j: int|
                nl < j < end ==> h[j] != NEWLINE,
            None => true,
        },
    decreases end,
{
    if end > 0 && h[end - 1] != NEWLINE {
        lemma_last_line(h, end - 1);
    }
}

/// A last line that declares a length is a line that does.
proof fn lemma_last_is_named(h: Seq<u8>, nl: int)
    requires
        h.len() >= 4,
        occurs_at(h, empty_line(), h.len() - 4),
        0 <= nl < h.len() - 4,
        h[nl] == NEWLINE,
        forall|j: int| nl < j < h.len() - 4 ==> h[j] != NEWLINE,
        is_named(h.skip(nl + 1), ascii("content-length: "@)),
    ensures
        is_line_start(h, nl + 1),
        is_named(line_at(h, nl + 1), ascii("content-length:"@)),
{
    lemma_names();
    let s = nl + 1;
    let rest = h.skip(s);
    let tail = h.subrange(h.len() - 4, h.len() as int);
    assert(tail == empty_line());
    assert(h[h.len() - 4] == tail[0] && h[h.len() - 3] == tail[1]);
    lemma_first_from(h, NEWLINE, s);
    let e = line_end(h, s);
    assert(e == h.len() - 3);
    assert forall|j: int| s <= j < s + 16 implies #[trigger] h[j] != NEWLINE && h[j] != RETURN by {
        assert(rest[j - s] == h[j]);
        assert(lowered(rest[j - s]) == ascii("content-length: "@)[j - s]);
    }
    assert(s + 16 <= e) by {
        assert(h[e] == NEWLINE);
    }
    let line = line_at(h, s);
    assert forall|k: int| 0 <= k < 15 implies lowered(#[trigger] line[k]) == ascii(
        "content-length:"@,
    )[k] by {
        assert(rest[k] == line[k]);
        assert(lowered(rest[k]) == ascii("content-length: "@)[k]);
    }
}

/// A header in which one line declares a length declares that length, wherever
/// the line stands and in whichever case its letters are.
pub proof fn the_length_line_counts(h: Seq<u8>, i: int, digits: Seq<u8>)
    requires
        h.len() >= 4,
        occurs_at(h, empty_line(), h.len() - 4),
        is_line_start(h, i),
        is_length_line(line_at(h, i), digits),
        digits_value(digits) <= usize::MAX,
        forall|s: int|
            #![trigger is_line_start(h, s)]
            is_line_start(h, s) && s != i ==> !is_named(line_at(h, s), ascii("content-length:"@)),
    ensures
        declared_length(h) == Some(digits_value(digits)),
{
    assert(is_line_start(h, 0));
    lemma_passed_over(h, 0, i);
    lemma_length_line(h, i, digits);
    lemma_last_line(h, h.len() - 4);
    if let Some(nl) = last_before(h, NEWLINE, h.len() - 4) {
        let rest = h.skip(nl + 1);
        if is_named(rest, ascii("content-length: "@)) {
            lemma_last_is_named(h, nl);
            assert(i == nl + 1);
            let line = line_at(h, i);
            lemma_first_from(h, NEWLINE, i);
            let b = rest.skip(16);
            let n = digits.len() as int;
            assert forall|k: int| 0 <= k < n implies #[trigger] b[k] == digits[k] by {
                assert(line.subrange(16, 16 + n)[k] == digits[k]);
                assert(line[16 + k] == h[i + 16 + k]);
            }
            assert(b[n] == line.last());
            assert forall|k: int| 0 <= k < n implies is_digit(#[trigger] b[k]) by {
                assert(is_digit(digits[k]));
            }
            lemma_digits_end(b, 0, n);
            assert(b.take(n) =~= digits);
            if digits_value(digits) > 0 {
                assert(leading_number(b) == Some(digits_value(digits)));
                assert(length_in_last_line(h) == Some(digits_value(digits)));
            }
        }
    }
}

/// A header in which no line declares a length declares none.
pub proof fn without_a_length_line_there_is_no_length(h: Seq<u8>)
    requires
        h.len() >= 4,
        occurs_at(h, empty_line(), h.len() - 4),
        forall|s: int|
            #![trigger is_line_start(h, s)]
            is_line_start(h, s) ==> !is_named(line_at(h, s), ascii("content-length:"@)),
    ensures
        declared_length(h) is None,
{
    assert(is_line_start(h, 0));
    lemma_no_line(h, 0);
    lemma_last_line(h, h.len() - 4);
    if let Some(nl) = last_before(h, NEWLINE, h.len() - 4) {
        if is_named(h.skip(nl + 1), ascii("content-length: "@)) {
            lemma_last_is_named(h, nl);
        }
    }
}

proof fn lemma_no_line(h: Seq<u8>, i: int)
    requires
        is_line_start(h, i) || i > h.len() || (i == h.len() && i > 0),
        forall|s: int|
            #![trigger is_line_start(h, s)]
            i <= s && is_line_start(h, s) ==> !is_named(line_at(h, s), ascii("content-length:"@)),
    ensures
        length_in_lines(h, i) is None,
    decreases h.len() + 1 - i,
{
    if i < h.len() {
        lemma_first_from(h, NEWLINE, i);
        lemma_no_line(h, line_end(h, i) + 1);
    }
}

/// What a request asks for is told by how its first line begins: with a post to
/// the score's path, with a get of the path that says whether the server is ready,
/// or with anything else.
pub proof fn first_bytes_tell_the_route(line: Seq<u8>, rest: Seq<u8>)
    ensures
        route_of(ascii("POST /fraud-score"@) + rest) is FraudScore,
        route_of(ascii("GET /ready"@) + rest) is Ready,
        route_of(line) is FraudScore <==> line.len() >= 17 && line.take(17) == ascii(
            "POST /fraud-score"@,
        ),
        route_of(line) is Ready <==> line.len() >= 10 && line.take(10) == ascii("GET /ready"@),
{
    reveal_strlit("POST /fraud-score");
    reveal_strlit("GET /ready");
    let post = ascii("POST /fraud-score"@);
    let get = ascii("GET /ready"@);
    assert(post.len() == 17 && get.len() == 10);
    assert(post[0] == 0x50 && get[0] == 0x47);
    assert((post + rest).subrange(0, 17) =~= post);
    assert((get + rest).subrange(0, 10) =~= get);
    assert((get + rest)[0] == get[0]);
    if occurs_at(get + rest, post, 0) {
        assert((get + rest).subrange(0, 17)[0] == post[0]);
    }
    if line.len() >= 17 {
        assert(line.take(17) =~= line.subrange(0, 17));
        assert(line.take(17)[0] == line[0]);
    }
    if line.len() >= 10 {
        assert(line.take(10) =~= line.subrange(0, 10));
        assert(line.take(10)[0] == line[0]);
    }
}

/// Only the first line of a header counts, up to its carriage return.
pub proof fn the_first_line_tells_the_route(line: Seq<u8>, rest: Seq<u8>)
    requires
        forall|i: int| 0 <= i < line.len() ==> #[trigger] line[i] != 0x0d,
    ensures
        route_in(line + seq![0x0du8] + rest) == route_of(line),
        route_in(line) == route_of(line),
{
    let h = line + seq![0x0du8] + rest;
    let e = line.len() as int;
    assert(h[e] == 0x0d);
    assert forall|j: int| 0 <= j < e implies h[j] != 0x0d by {
        assert(h[j] == line[j]);
    }
    lemma_first_from(h, RETURN, 0);
    lemma_first_from(line, RETURN, 0);
    assert(first_from(h, RETURN, 0) == Some(e));
    assert(h.take(e) =~= line);
}

/// Whether a line declares the length that `digits` spell after `pad` spaces: the
/// name in letters of either case, the spaces, the digits, and behind them nothing
/// but spaces and carriage returns.
pub open spec fn is_spaced_length_line(line: Seq<u8>, pad: int, digits: Seq<u8>) -> bool {
    &&& 0 <= pad
    &&& are_digits(digits)
    &&& 15 + pad + digits.len() <= line.len()
    &&& forall|i: int|
        0 <= i < 15 ==> lowered(#[trigger] line[i]) == ascii("content-length:"@)[i]
    &&& forall|i: int| 15 <= i < 15 + pad ==> #[trigger] line[i] == 0x20
    &&& line.subrange(15 + pad, 15 + pad + digits.len()) == digits
    &&& forall|i: int|
        15 + pad + digits.len() <= i < line.len() ==> #[trigger] line[i] == 0x20 || line[i] == 0x0d
}

proof fn lemma_spaces_end(v: Seq<u8>, i: int, e: int)
    requires
        0 <= i <= e < v.len(),
        forall|j: int| i <= j < e ==> #[trigger] v[j] == SPACE,
        v[e] != SPACE,
    ensures
        spaces_end(v, i) == e,
    decreases e - i,
{
    if i < e {
        assert(v[i] == SPACE);
        lemma_spaces_end(v, i + 1, e);
    }
}

proof fn lemma_text_end(v: Seq<u8>, e: int, end: int)
    requires
        0 < e <= end <= v.len(),
        forall|j: int| e <= j < end ==> #[trigger] v[j] == SPACE || v[j] == RETURN,
        v[e - 1] != SPACE,
        v[e - 1] != RETURN,
    ensures
        text_end(v, end) == e,
    decreases end - e,
{
    if e < end {
        assert(v[end - 1] == SPACE || v[end - 1] == RETURN);
        lemma_text_end(v, e, end - 1);
    }
}

/// What is left of a value between spaces, and carriage returns behind it.
proof fn lemma_stripped_of_spaces(v: Seq<u8>, pad: int, digits: Seq<u8>)
    requires
        are_digits(digits),
        0 <= pad,
        pad + digits.len() <= v.len(),
        forall|i: int| 0 <= i < pad ==> #[trigger] v[i] == SPACE,
        forall|i: int| 0 <= i < digits.len() ==> #[trigger] v[pad + i] == digits[i],
        forall|i: int|
            pad + digits.len() <= i < v.len() ==> #[trigger] v[i] == SPACE || v[i] == RETURN,
    ensures
        trimmed(stripped(v)) == digits,
{
    let n = digits.len() as int;
    assert(is_digit(digits[0]));
    assert(v[pad + 0] == digits[0]);
    lemma_spaces_end(v, 0, pad);
    let w = v.skip(pad);
    assert(is_digit(digits[n - 1]));
    assert(v[pad + (n - 1)] == digits[n - 1]);
    assert(w[n - 1] == digits[n - 1]);
    assert forall|j: int| n <= j < w.len() implies #[trigger] w[j] == SPACE || w[j] == RETURN by {
        assert(w[j] == v[pad + j]);
    }
    lemma_text_end(w, n, w.len() as int);
    assert(w.take(n) =~= digits) by {
        assert forall|i: int| 0 <= i < n implies w[i] == digits[i] by {
            assert(v[pad + i] == digits[i]);
        }
    }
    assert(stripped(v) == digits);
    assert(after_white(digits, 0) == 0);
    assert(before_white(digits, 0, n) == n);
    assert(digits.subrange(0, n) =~= digits);
}

/// The line that declares a length declares it to whoever reads all lines.
proof fn lemma_spaced_line(h: Seq<u8>, i: int, pad: int, digits: Seq<u8>)
    requires
        is_line_start(h, i),
        is_spaced_length_line(line_at(h, i), pad, digits),
    ensures
        is_named(line_at(h, i), ascii("content-length:"@)),
        length_in_lines(h, i) == unsigned_value(digits, usize::MAX as int),
        unsigned_value(digits, usize::MAX as int) == (if digits_value(digits) <= usize::MAX {
            Some(digits_value(digits))
        } else {
            None
        }),
{
    let line = line_at(h, i);
    lemma_names();
    lemma_first_from(h, NEWLINE, i);
    assert(is_named(line, ascii("content-length:"@)));
    let v = line.skip(15);
    let n = digits.len() as int;
    assert forall|k: int| 0 <= k < n implies #[trigger] v[pad + k] == digits[k] by {
        assert(line.subrange(15 + pad, 15 + pad + n)[k] == digits[k]);
    }
    assert forall|k: int| 0 <= k < pad implies #[trigger] v[k] == SPACE by {
        assert(line[15 + k] == 0x20);
    }
    assert forall|k: int| pad + n <= k < v.len() implies #[trigger] v[k] == SPACE || v[k]
        == RETURN by {
        assert(line[15 + k] == v[k]);
    }
    lemma_stripped_of_spaces(v, pad, digits);
    assert(is_digit(digits[0]));
    assert(unsigned_digits(digits) == digits);
}

/// A header in which one line declares a length declares that length, wherever
/// the line stands, in whichever case its letters are and however many spaces
/// stand around the digits. A length that is too large to be one is none.
pub proof fn the_spaced_length_line_counts(h: Seq<u8>, i: int, pad: int, digits: Seq<u8>)
    requires
        h.len() >= 4,
        occurs_at(h, empty_line(), h.len() - 4),
        is_line_start(h, i),
        is_spaced_length_line(line_at(h, i), pad, digits),
        forall|s: int|
            #![trigger is_line_start(h, s)]
            is_line_start(h, s) && s != i ==> !is_named(line_at(h, s), ascii("content-length:"@)),
    ensures
        declared_length(h) == (if digits_value(digits) <= usize::MAX {
            Some(digits_value(digits))
        } else {
            None
        }),
{
    assert(is_line_start(h, 0));
    lemma_passed_over(h, 0, i);
    lemma_spaced_line(h, i, pad, digits);
    lemma_last_line(h, h.len() - 4);
    if let Some(nl) = last_before(h, NEWLINE, h.len() - 4) {
        let rest = h.skip(nl + 1);
        if is_named(rest, ascii("content-length: "@)) {
            lemma_last_is_named(h, nl);
            assert(i == nl + 1);
            lemma_names();
            let line = line_at(h, i);
            lemma_first_from(h, NEWLINE, i);
            let e = line_end(h, i);
            let b = rest.skip(16);
            let n = digits.len() as int;
            assert(is_digit(digits[0]));
            assert(line.subrange(15 + pad, 15 + pad + n)[0] == digits[0]);
            assert(lowered(rest[15]) == SPACE);
            assert(rest[15] == line[15]);
            assert(pad >= 1);
            if pad == 1 {
                assert forall|k: int| 0 <= k < n implies #[trigger] b[k] == digits[k] by {
                    assert(line.subrange(16, 16 + n)[k] == digits[k]);
                    assert(line[16 + k] == h[i + 16 + k]);
                }
                assert forall|k: int| 0 <= k < n implies is_digit(#[trigger] b[k]) by {
                    assert(is_digit(digits[k]));
                }
                assert(n < b.len() ==> !is_digit(b[n])) by {
                    if i + 16 + n < e {
                        assert(line[16 + n] == b[n]);
                    } else if n < b.len() {
                        assert(h[e] == b[n]);
                    }
                }
                lemma_digits_end(b, 0, n);
                assert(b.take(n) =~= digits);
            } else {
                assert(line[16] == 0x20);
                assert(b[0] == line[16]);
                assert(digits_end(b, 0) == 0);
                assert(b.take(0) =~= Seq::<u8>::empty());
                assert(leading_number(b) is None);
            }
        }
    }
}

/// White space is what Unicode counts as such: of the characters of one byte the
/// tab, the line ends between it and the carriage return, and the blank; of those
/// of two bytes the next line and the no-break space; and of those of three bytes
/// the Ogham space, the spaces from the en quad to the hair space, the line and
/// paragraph separators, the narrow and the mathematical space, and the ideographic
/// one.
pub proof fn white_space_is_unicode(a: u8, b: u8, c: u8)
    ensures
        is_white1(a) <==> a == 9 || a == 10 || a == 11 || a == 12 || a == 13 || a == 32,
        0xc2 <= a < 0xe0 && 0x80 <= b < 0xc0 ==> {
            let point = (a - 0xc0) * 64 + (b - 0x80);
            is_white2(a, b) <==> point == 0x85 || point == 0xa0
        },
        is_white2(a, b) ==> 0xc2 <= a < 0xe0 && 0x80 <= b < 0xc0,
        0xe0 <= a < 0xf0 && 0x80 <= b < 0xc0 && 0x80 <= c < 0xc0 ==> {
            let point = (a - 0xe0) * 4096 + (b - 0x80) * 64 + (c - 0x80);
            is_white3(a, b, c) <==> point == 0x1680 || 0x2000 <= point <= 0x200a || point == 0x2028
                || point == 0x2029 || point == 0x202f || point == 0x205f || point == 0x3000
        },
        is_white3(a, b, c) ==> 0xe0 <= a < 0xf0 && 0x80 <= b < 0xc0 && 0x80 <= c < 0xc0,
{
}

proof fn lemma_last_before_is(h: Seq<u8>, nl: int, end: int)
    requires
        0 <= nl < end <= h.len(),
        h[nl] == NEWLINE,
        forall|j: int| nl < j < end ==> h[j] != NEWLINE,
    ensures
        last_before(h, NEWLINE, end) == Some(nl),
    decreases end - nl,
{
    if nl < end - 1 {
        assert(h[end - 1] != NEWLINE);
        lemma_last_before_is(h, nl, end - 1);
    }
}

/// Where the last line of a header declares a length over 0, that is the length,
/// whatever stands behind its digits and whatever other lines say.
pub proof fn the_last_line_counts_first(h: Seq<u8>, i: int, digits: Seq<u8>)
    requires
        0 < i,
        i + 16 + digits.len() < h.len(),
        i <= h.len() - 4,
        h[i - 1] == 0x0a,
        forall|j: int| i <= j < h.len() - 4 ==> h[j] != 0x0a,
        forall|k: int|
            0 <= k < 16 ==> lowered(#[trigger] h[i + k]) == ascii("content-length: "@)[k],
        are_digits(digits),
        h.subrange(i + 16, i + 16 + digits.len()) == digits,
        !(0x30 <= h[i + 16 + digits.len()] <= 0x39),
        0 < digits_value(digits) <= usize::MAX,
    ensures
        declared_length(h) == Some(digits_value(digits)),
{
    lemma_last_before_is(h, i - 1, h.len() - 4);
    lemma_names();
    let rest = h.skip(i);
    assert(is_named(rest, ascii("content-length: "@))) by {
        assert forall|k: int| 0 <= k < 16 implies lowered(#[trigger] rest[k]) == ascii(
            "content-length: "@,
        )[k] by {
            assert(rest[k] == h[i + k]);
        }
    }
    let b = rest.skip(16);
    let n = digits.len() as int;
    assert forall|k: int| 0 <= k < n implies #[trigger] b[k] == digits[k] by {
        assert(h.subrange(i + 16, i + 16 + n)[k] == h[i + 16 + k]);
    }
    assert forall|k: int| 0 <= k < n implies is_digit(#[trigger] b[k]) by {
        assert(is_digit(digits[k]));
    }
    assert(b[n] == h[i + 16 + n]);
    lemma_digits_end(b, 0, n);
    assert(b.take(n) =~= digits);
}

/// Where several lines declare a length and the last line of the header is none of
/// them, the first of them counts.
pub proof fn the_first_of_other_lines_counts(
    h: Seq<u8>,
    i: int,
    pad: int,
    digits: Seq<u8>,
    last: int,
)
    requires
        h.len() >= 4,
        occurs_at(h, empty_line(), h.len() - 4),
        is_line_start(h, i),
        is_spaced_length_line(line_at(h, i), pad, digits),
        forall|s: int|
            #![trigger is_line_start(h, s)]
            is_line_start(h, s) && s < i ==> !is_named(line_at(h, s), ascii("content-length:"@)),
        0 < last <= h.len() - 4,
        h[last - 1] == 0x0a,
        forall|j: int| last <= j < h.len() - 4 ==> h[j] != 0x0a,
        !is_named(line_at(h, last), ascii("content-length:"@)),
    ensures
        declared_length(h) == (if digits_value(digits) <= usize::MAX {
            Some(digits_value(digits))
        } else {
            None
        }),
{
    assert(is_line_start(h, 0));
    lemma_passed_over(h, 0, i);
    lemma_spaced_line(h, i, pad, digits);
    lemma_last_before_is(h, last - 1, h.len() - 4);
    if is_named(h.skip(last), ascii("content-length: "@)) {
        lemma_last_is_named(h, last - 1);
    }
}

} // verus!
