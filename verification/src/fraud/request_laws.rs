//! What a request says, told from the bytes that spell it.

use vstd::prelude::*;

use crate::fraud::calendar::{minutes_from, weekday, Moment};
use crate::fraud::json::{
    after_separators, after_space, digits2, digits4, ends_token, is_known, is_space, moment_at,
    last_part, next_list, null_word, request, strings_from, value_start, PayloadView, COLON,
    OPEN_BRACKET, QUOTE,
};
use crate::fraud::json_laws::{
    ids_of, is_quotable, is_timestamp, other_values_are_not_read, values_in_order_are_read,
    RequestText,
};
use crate::fraud::numerals::{
    fractions_are_spelled_with_few_bytes, is_fraction_byte, is_fraction_text, numeral,
    numerals_are_read, only_digits_are_numbers,
};
use crate::scan::{first_from, lemma_first_from};

verus! {

/// White space is a blank, a line feed, a carriage return or a tab; an unquoted
/// value ends before white space, a comma, a closing brace or a closing bracket,
/// and before nothing else.
pub proof fn few_bytes_end_a_value(c: u8)
    ensures
        is_space(c) <==> c == 0x20 || c == 0x0a || c == 0x0d || c == 0x09,
        ends_token(c) <==> c == 0x20 || c == 0x0a || c == 0x0d || c == 0x09 || c == 0x2c || c
            == 0x7d || c == 0x5d,
{
}

/// Two digits at a position spell a number.
pub open spec fn spells_two(s: Seq<u8>, at: int, n: int) -> bool {
    &&& 0 <= n <= 99
    &&& s[at] == 0x30 + n / 10
    &&& s[at + 1] == 0x30 + n % 10
}

/// A text begins with the digits of a moment: four of the year, two each of the
/// month, the day, the hour and the minute, and one byte between each two of them.
pub open spec fn spells_moment(s: Seq<u8>, m: Moment) -> bool {
    &&& s.len() >= 16
    &&& spells_two(s, 0, m.year as int / 100)
    &&& spells_two(s, 2, m.year as int % 100)
    &&& spells_two(s, 5, m.month as int)
    &&& spells_two(s, 8, m.day as int)
    &&& spells_two(s, 11, m.hour as int)
    &&& spells_two(s, 14, m.minute as int)
}

proof fn lemma_two(s: Seq<u8>, at: int, n: int)
    requires
        0 <= at,
        at + 2 <= s.len(),
    ensures
        spells_two(s, at, n) <==> digits2(s, at) == Some(n),
{
    if digits2(s, at) == Some(n) {
        let tens = s[at] - 0x30;
        let ones = s[at + 1] - 0x30;
        assert(n == tens * 10 + ones && 0 <= ones < 10 && 0 <= tens < 10);
        assert(n / 10 == tens && n % 10 == ones);
    }
}

/// A text is read as a moment exactly where it begins with the digits of that
/// moment and there is such a moment; a string of at least 19 bytes that does is a
/// timestamp.
pub proof fn moments_are_read_from_their_digits(s: Seq<u8>, m: Moment)
    ensures
        moment_at(s, 0) == Some(m) <==> spells_moment(s, m) && m.is_real(),
        is_quotable(s) && s.len() >= 19 && spells_moment(s, m) && m.is_real() ==> is_timestamp(s),
{
    if s.len() >= 16 {
        let y = m.year as int;
        lemma_two(s, 0, y / 100);
        lemma_two(s, 2, y % 100);
        lemma_two(s, 5, m.month as int);
        lemma_two(s, 8, m.day as int);
        lemma_two(s, 11, m.hour as int);
        lemma_two(s, 14, m.minute as int);
        if moment_at(s, 0) == Some(m) {
            let hundreds = digits2(s, 0)->0;
            let rest = digits2(s, 2)->0;
            assert(0 <= hundreds <= 99 && 0 <= rest <= 99);
            assert(digits4(s, 0) == Some(hundreds * 100 + rest));
            assert(y == hundreds * 100 + rest);
            assert(y / 100 == hundreds && y % 100 == rest);
        }
        if spells_moment(s, m) && m.is_real() {
            assert((y / 100) * 100 + y % 100 == y);
            assert(digits4(s, 0) == Some(y));
        }
    }
}

/// A merchant is known exactly where its id stands among the ids, byte for byte.
pub proof fn merchants_are_known_by_their_ids(ids: Seq<Seq<u8>>, id: Seq<u8>)
    ensures
        is_known(ids, id) <==> exists|i: int|
            0 <= i < ids.len() && (#[trigger] ids[i]).len() == id.len() && forall|j: int|
                0 <= j < id.len() ==> ids[i][j] == #[trigger] id[j],
{
    if exists|i: int|
        0 <= i < ids.len() && (#[trigger] ids[i]).len() == id.len() && forall|j: int|
            0 <= j < id.len() ==> ids[i][j] == #[trigger] id[j] {
        let i = choose|i: int|
            0 <= i < ids.len() && (#[trigger] ids[i]).len() == id.len() && forall|j: int|
                0 <= j < id.len() ==> ids[i][j] == #[trigger] id[j];
        assert(ids[i] =~= id);
        assert(ids.contains(id));
    }
    if is_known(ids, id) {
        let i = ids.index_of(id);
        assert(ids.contains(id));
        assert(ids[i] == id);
    }
}

/// The word that says whether something is so.
pub open spec fn word_of(flag: bool) -> Seq<u8> {
    if flag {
        seq![0x74u8, 0x72, 0x75, 0x65]
    } else {
        seq![0x66u8, 0x61, 0x6c, 0x73, 0x65]
    }
}

/// The values of a request, apart from its fractions and ids.
pub struct Written {
    pub installments: nat,
    pub count: nat,
    pub mcc: nat,
    pub online: bool,
    pub card: bool,
    pub at: Moment,
    pub prev: Moment,
}

/// The counts and the category code of a request are written in digits, the flags
/// as words and the moments by their digits. The transaction's date is not in the
/// first two months of year 0.
pub open spec fn writes(r: RequestText, w: Written) -> bool {
    &&& r.transaction.installments == numeral(w.installments) && w.installments <= 255
    &&& r.customer.tx_count == numeral(w.count) && w.count <= 255
    &&& r.merchant.mcc == numeral(w.mcc) && w.mcc <= 4294967295
    &&& r.terminal.is_online == word_of(w.online)
    &&& r.terminal.card_present == word_of(w.card)
    &&& spells_moment(r.transaction.requested_at, w.at) && w.at.is_real()
    &&& w.at.year > 0 || w.at.month > 2
    &&& r.last matches Some(last) ==> spells_moment(last.timestamp, w.prev) && w.prev.is_real()
}

/// All fractions of a request are fractions.
pub open spec fn has_fractions(r: RequestText) -> bool {
    &&& is_fraction_text(r.transaction.amount)
    &&& is_fraction_text(r.customer.avg_amount)
    &&& is_fraction_text(r.merchant.avg_amount)
    &&& is_fraction_text(r.terminal.km_from_home)
    &&& r.last matches Some(last) ==> is_fraction_text(last.km_from_current)
}

/// A payload says the values `w` and the fractions that `r` holds, each in the
/// place of its own name.
pub open spec fn tells(p: PayloadView, r: RequestText, w: Written) -> bool {
    &&& p.amount == r.transaction.amount
    &&& p.installments == w.installments
    &&& p.hour == w.at.hour
    &&& p.weekday == weekday(w.at.year as int, w.at.month as int, w.at.day as int)
    &&& p.customer_avg_amount == r.customer.avg_amount
    &&& p.tx_count_24h == w.count
    &&& p.is_unknown_merchant <==> forall|i: int|
        0 <= i < r.customer.known.len() ==> (#[trigger] r.customer.known[i]).0 != r.merchant.id
    &&& p.mcc == w.mcc
    &&& p.merchant_avg_amount == r.merchant.avg_amount
    &&& p.is_online == w.online
    &&& p.card_present == w.card
    &&& p.km_from_home == r.terminal.km_from_home
    &&& p.has_last_tx <==> r.last is Some
    &&& r.last matches Some(last) ==> p.minutes_since_last == minutes_from(w.prev, w.at)
        && p.km_from_current == last.km_from_current
    &&& r.last is None ==> p.minutes_since_last == 0 && p.km_from_current == seq![0x30u8]
}

/// A request that writes its values, and whose fractions are fractions, is read,
/// and tells those values and fractions.
pub proof fn requests_say_what_is_written(r: RequestText, w: Written)
    requires
        r.is_formed(),
        writes(r, w),
        has_fractions(r),
    ensures
        request(r.text()) matches Some(p) && tells(p, r, w),
{
    lemma_says(r, w);
    values_in_order_are_read(r);
}

proof fn lemma_says(r: RequestText, w: Written)
    requires
        writes(r, w),
        has_fractions(r),
    ensures
        r.is_meant(),
        tells(r.says(), r, w),
{
    numerals_are_read(w.installments, 0xff);
    numerals_are_read(w.count, 0xff);
    numerals_are_read(w.mcc, 0xffff_ffff);
    moments_are_read_from_their_digits(r.transaction.requested_at, w.at);
    if r.last is Some {
        moments_are_read_from_their_digits(r.last->0.timestamp, w.prev);
    }
    lemma_words_differ();
    lemma_unknown(r.customer.known, r.merchant.id);
}

proof fn lemma_words_differ()
    ensures
        seq![0x74u8, 0x72, 0x75, 0x65] != seq![0x66u8, 0x61, 0x6c, 0x73, 0x65],
{
    assert(seq![0x74u8, 0x72, 0x75, 0x65].len() != seq![0x66u8, 0x61, 0x6c, 0x73, 0x65].len());
}

/// A merchant is unknown whose id is none of those in the list.
proof fn lemma_unknown(items: Seq<(Seq<u8>, Seq<u8>)>, id: Seq<u8>)
    ensures
        !is_known(ids_of(items), id) <==> forall|i: int|
            0 <= i < items.len() ==> (#[trigger] items[i]).0 != id,
{
    let ids = ids_of(items);
    if is_known(ids, id) {
        let i = ids.index_of(id);
        assert(ids.contains(id) && ids[i] == id);
        assert(items[i].0 == id);
    }
    if exists|i: int| 0 <= i < items.len() && (#[trigger] items[i]).0 == id {
        let i = choose|i: int| 0 <= i < items.len() && (#[trigger] items[i]).0 == id;
        assert(ids[i] == id);
        assert(ids.contains(id));
    }
}

/// A request is not read in which a count is over what a byte holds, a category
/// code over what four bytes hold, a count or a code no number, a flag neither of
/// the words, or a fraction written with a byte that is none of a fraction's.
pub proof fn requests_with_other_values_are_refused(r: RequestText, n: nat, i: int)
    requires
        r.is_formed(),
        ({
            ||| n > 255 && (r.transaction.installments == numeral(n) || r.customer.tx_count
                == numeral(n))
            ||| n > 4294967295 && r.merchant.mcc == numeral(n)
            ||| 0 <= i < r.transaction.installments.len() && !(0x30
                <= r.transaction.installments[i] <= 0x39) && (i > 0
                || r.transaction.installments[i] != 0x2b)
            ||| 0 <= i < r.customer.tx_count.len() && !(0x30 <= r.customer.tx_count[i] <= 0x39) && (
            i > 0 || r.customer.tx_count[i] != 0x2b)
            ||| 0 <= i < r.merchant.mcc.len() && !(0x30 <= r.merchant.mcc[i] <= 0x39) && (i > 0
                || r.merchant.mcc[i] != 0x2b)
            ||| r.terminal.is_online != seq![0x74u8, 0x72, 0x75, 0x65] && r.terminal.is_online
                != seq![0x66u8, 0x61, 0x6c, 0x73, 0x65]
            ||| r.terminal.card_present != seq![0x74u8, 0x72, 0x75, 0x65]
                && r.terminal.card_present != seq![0x66u8, 0x61, 0x6c, 0x73, 0x65]
            ||| 0 <= i < r.transaction.amount.len() && !is_fraction_byte(r.transaction.amount[i])
            ||| 0 <= i < r.customer.avg_amount.len() && !is_fraction_byte(r.customer.avg_amount[i])
            ||| 0 <= i < r.merchant.avg_amount.len() && !is_fraction_byte(r.merchant.avg_amount[i])
            ||| 0 <= i < r.terminal.km_from_home.len() && !is_fraction_byte(
                r.terminal.km_from_home[i],
            )
        }),
    ensures
        request(r.text()) is None,
{
    numerals_are_read(n, 0xff);
    numerals_are_read(n, 0xffff_ffff);
    if r.is_meant() {
        only_digits_are_numbers(r.transaction.installments, 0xff);
        only_digits_are_numbers(r.customer.tx_count, 0xff);
        only_digits_are_numbers(r.merchant.mcc, 0xffff_ffff);
        fractions_are_spelled_with_few_bytes(r.transaction.amount);
        fractions_are_spelled_with_few_bytes(r.customer.avg_amount);
        fractions_are_spelled_with_few_bytes(r.merchant.avg_amount);
        fractions_are_spelled_with_few_bytes(r.terminal.km_from_home);
    }
    other_values_are_not_read(r);
}

/// A request is not read whose moments are none: whatever moment the digits would
/// spell, there is no such moment.
pub proof fn requests_at_no_moment_are_refused(r: RequestText)
    requires
        r.is_formed(),
        ({
            ||| forall|m: Moment|
                m.is_real() ==> !#[trigger] spells_moment(r.transaction.requested_at, m)
            ||| r.last matches Some(last) && forall|m: Moment|
                m.is_real() ==> !#[trigger] spells_moment(last.timestamp, m)
        }),
    ensures
        request(r.text()) is None,
{
    if r.is_meant() {
        let m = moment_at(r.transaction.requested_at, 0)->0;
        moments_are_read_from_their_digits(r.transaction.requested_at, m);
        if r.last is Some {
            let last = moment_at(r.last->0.timestamp, 0)->0;
            moments_are_read_from_their_digits(r.last->0.timestamp, last);
        }
    }
    other_values_are_not_read(r);
}

/// In a list, whatever is neither a quote nor a closing bracket is stepped over; a
/// closing bracket ends the list, and a quoted string is one of its strings.
pub proof fn lists_hold_their_strings(b: Seq<u8>, p: int, e: int, seen: Seq<Seq<u8>>)
    requires
        0 <= p < b.len(),
    ensures
        b[p] != 0x22 && b[p] != 0x5d ==> strings_from(b, p, seen) == strings_from(b, p + 1, seen),
        b[p] == 0x5d ==> strings_from(b, p, seen) == Some((seen, p + 1)),
        b[p] == 0x22 && p < e < b.len() && b[e] == 0x22 && (forall|j: int|
            p < j < e ==> #[trigger] b[j] != 0x22) ==> strings_from(b, p, seen) == strings_from(
            b,
            e + 1,
            seen.push(b.subrange(p + 1, e)),
        ),
        strings_from(b, b.len() as int, seen) is None,
{
    if b[p] != 0x22 && b[p] != 0x5d {
        if !(is_space(b[p]) || b[p] == 0x2c) {
            assert(after_separators(b, p) == p);
        } else {
            assert(after_separators(b, p) == after_separators(b, p + 1));
        }
    }
    if b[p] == 0x22 && p < e < b.len() && b[e] == 0x22 && (forall|j: int|
        p < j < e ==> #[trigger] b[j] != 0x22) {
        lemma_first_from(b, QUOTE, p + 1);
        assert(first_from(b, QUOTE, p + 1) == Some(e));
        assert(after_separators(b, p) == p);
    }
    assert(after_separators(b, b.len() as int) == b.len());
}

/// A list starts behind the next opening bracket after its name, whatever stands
/// before it.
pub proof fn lists_start_at_their_bracket(b: Seq<u8>, p: int, at: int)
    requires
        0 <= p,
        value_start(b, p) is Some,
        value_start(b, p)->0 <= at < b.len(),
        b[at] == 0x5b,
        forall|j: int| value_start(b, p)->0 <= j < at ==> #[trigger] b[j] != 0x5b,
        0 <= value_start(b, p)->0,
    ensures
        next_list(b, p) == strings_from(b, at + 1, Seq::empty()),
{
    let q = value_start(b, p)->0;
    lemma_first_from(b, OPEN_BRACKET, q);
    assert(first_from(b, OPEN_BRACKET, q) == Some(at));
}

/// A value starts behind the next colon and the white space that follows it.
pub proof fn values_start_behind_a_colon(b: Seq<u8>, p: int, c: int, q: int)
    requires
        0 <= p <= c < q <= b.len(),
        b[c] == 0x3a,
        forall|j: int| p <= j < c ==> #[trigger] b[j] != 0x3a,
        forall|j: int|
            c < j < q ==> #[trigger] b[j] == 0x20 || b[j] == 0x0a || b[j] == 0x0d || b[j] == 0x09,
        q < b.len() ==> b[q] != 0x20 && b[q] != 0x0a && b[q] != 0x0d && b[q] != 0x09,
    ensures
        value_start(b, p) == Some(q),
{
    lemma_first_from(b, COLON, p);
    assert(first_from(b, COLON, p) == Some(c));
    lemma_after_space(b, c + 1, q);
}

proof fn lemma_after_space(b: Seq<u8>, p: int, q: int)
    requires
        0 <= p <= q <= b.len(),
        forall|j: int|
            p <= j < q ==> #[trigger] b[j] == 0x20 || b[j] == 0x0a || b[j] == 0x0d || b[j] == 0x09,
        q < b.len() ==> b[q] != 0x20 && b[q] != 0x0a && b[q] != 0x0d && b[q] != 0x09,
    ensures
        after_space(b, p) == q,
    decreases q - p,
{
    if p < q {
        assert(b[p] == 0x20 || b[p] == 0x0a || b[p] == 0x0d || b[p] == 0x09);
        lemma_after_space(b, p + 1, q);
    }
}

/// A request has no last transaction exactly where the word null, in small letters,
/// stands in its place; a last transaction starts with an opening brace.
pub proof fn the_last_transaction_is_null_or_an_object(b: Seq<u8>, p: int, q: int, cur: Moment)
    requires
        value_start(b, p) == Some(q),
        0 <= q,
    ensures
        q + 4 <= b.len() && b[q] == 0x6e && b[q + 1] == 0x75 && b[q + 2] == 0x6c && b[q + 3] == 0x6c
            <==> (last_part(b, p, cur) matches Some((false, _, _))),
        last_part(b, p, cur) matches Some((true, _, _)) ==> q < b.len() && b[q] == 0x7b,
{
    let word = null_word();
    assert(word[0] == 0x6e && word[1] == 0x75 && word[2] == 0x6c && word[3] == 0x6c);
    if q + 4 <= b.len() {
        let s = b.subrange(q, q + 4);
        assert(s[0] == b[q] && s[1] == b[q + 1] && s[2] == b[q + 2] && s[3] == b[q + 3]);
        if b[q] == 0x6e && b[q + 1] == 0x75 && b[q + 2] == 0x6c && b[q + 3] == 0x6c {
            assert(s =~= word);
        }
    }
}

} // verus!
