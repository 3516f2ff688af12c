//! Reading a fraud-score request.
//!
//! A request body has its fields in a fixed order, so it is read in one pass
//! and by position: the name of a field is stepped over, not compared.
//! Fractions are handed on as the text that spells them.

use vstd::prelude::*;

use crate::fraud::calendar::{
    date_weekday, has_weekday, minutes_between, minutes_from, weekday, Moment,
};
use crate::fraud::numerals::{
    digits_end, is_digit, is_fraction_text, lemma_unsigned_value_bounded, parse_unsigned,
    spells_fraction, unsigned_value, NINE, ZERO,
};
use crate::scan::{find_byte, first_from, lemma_first_from, matches_at, occurs_at, same_bytes};

verus! {

pub const QUOTE: u8 = 0x22;

pub const COLON: u8 = 0x3a;

pub const COMMA: u8 = 0x2c;

pub const OPEN_BRACE: u8 = 0x7b;

pub const CLOSE_BRACE: u8 = 0x7d;

pub const OPEN_BRACKET: u8 = 0x5b;

pub const CLOSE_BRACKET: u8 = 0x5d;

/// What a request says. The fractions are spelled as the request spells them.
#[derive(Debug, Clone, Copy)]
pub struct Payload<'a> {
    pub amount: &'a [u8],
    pub installments: u8,
    pub hour: u8,
    pub weekday: u8,
    pub customer_avg_amount: &'a [u8],
    pub tx_count_24h: u8,
    pub is_unknown_merchant: bool,
    pub mcc: u32,
    pub merchant_avg_amount: &'a [u8],
    pub is_online: bool,
    pub card_present: bool,
    pub km_from_home: &'a [u8],
    pub has_last_tx: bool,
    /// Whole minutes; 0 where there is no last transaction.
    pub minutes_since_last: i64,
    /// The text "0" where there is no last transaction.
    pub km_from_current: &'a [u8],
}

/// What a request says, over byte strings and integers.
#[verifier::ext_equal]
pub struct PayloadView {
    pub amount: Seq<u8>,
    pub installments: int,
    pub hour: int,
    pub weekday: int,
    pub customer_avg_amount: Seq<u8>,
    pub tx_count_24h: int,
    pub is_unknown_merchant: bool,
    pub mcc: int,
    pub merchant_avg_amount: Seq<u8>,
    pub is_online: bool,
    pub card_present: bool,
    pub km_from_home: Seq<u8>,
    pub has_last_tx: bool,
    pub minutes_since_last: int,
    pub km_from_current: Seq<u8>,
}

impl<'a> View for Payload<'a> {
    type V = PayloadView;

    open spec fn view(&self) -> PayloadView {
        PayloadView {
            amount: self.amount@,
            installments: self.installments as int,
            hour: self.hour as int,
            weekday: self.weekday as int,
            customer_avg_amount: self.customer_avg_amount@,
            tx_count_24h: self.tx_count_24h as int,
            is_unknown_merchant: self.is_unknown_merchant,
            mcc: self.mcc as int,
            merchant_avg_amount: self.merchant_avg_amount@,
            is_online: self.is_online,
            card_present: self.card_present,
            km_from_home: self.km_from_home@,
            has_last_tx: self.has_last_tx,
            minutes_since_last: self.minutes_since_last as int,
            km_from_current: self.km_from_current@,
        }
    }
}

pub open spec fn is_space(c: u8) -> bool {
    c == 0x20 || c == 0x0a || c == 0x0d || c == 0x09
}

/// Whether `c` ends an unquoted value.
pub open spec fn ends_token(c: u8) -> bool {
    c == COMMA || c == CLOSE_BRACE || c == CLOSE_BRACKET || is_space(c)
}

/// The first position at or after `p` that holds no white space.
pub open spec fn after_space(b: Seq<u8>, p: int) -> int
    decreases b.len() - p,
{
    if 0 <= p < b.len() && is_space(b[p]) {
        after_space(b, p + 1)
    } else {
        p
    }
}

/// The first position at or after `p` that holds neither white space nor a
/// comma.
pub open spec fn after_separators(b: Seq<u8>, p: int) -> int
    decreases b.len() - p,
{
    if 0 <= p < b.len() && (is_space(b[p]) || b[p] == COMMA) {
        after_separators(b, p + 1)
    } else {
        p
    }
}

/// Where the next value starts: after the next colon and the space behind it.
pub open spec fn value_start(b: Seq<u8>, p: int) -> Option<int> {
    match first_from(b, COLON, p) {
        Some(i) => Some(after_space(b, i + 1)),
        None => None,
    }
}

/// The string that starts at `p`, and the position after its closing quote.
pub open spec fn string_at(b: Seq<u8>, p: int) -> Option<(Seq<u8>, int)> {
    if 0 <= p < b.len() && b[p] == QUOTE {
        match first_from(b, QUOTE, p + 1) {
            Some(e) => Some((b.subrange(p + 1, e), e + 1)),
            None => None,
        }
    } else {
        None
    }
}

/// The end of the unquoted value that starts at `p`.
pub open spec fn token_end(b: Seq<u8>, p: int) -> int
    decreases b.len() - p,
{
    if 0 <= p < b.len() && !ends_token(b[p]) {
        token_end(b, p + 1)
    } else {
        p
    }
}

/// The unquoted value that starts at `p`, and its end.
pub open spec fn token_at(b: Seq<u8>, p: int) -> Option<(Seq<u8>, int)> {
    let e = token_end(b, p);
    if e == p {
        None
    } else {
        Some((b.subrange(p, e), e))
    }
}

/// The next value, if it is unquoted.
pub open spec fn next_token(b: Seq<u8>, p: int) -> Option<(Seq<u8>, int)> {
    match value_start(b, p) {
        Some(q) => token_at(b, q),
        None => None,
    }
}

/// The next value, if it is a string.
pub open spec fn next_string(b: Seq<u8>, p: int) -> Option<(Seq<u8>, int)> {
    match value_start(b, p) {
        Some(q) => string_at(b, q),
        None => None,
    }
}

/// The next value, if it spells a fraction.
pub open spec fn next_fraction(b: Seq<u8>, p: int) -> Option<(Seq<u8>, int)> {
    match next_token(b, p) {
        Some((t, q)) => if is_fraction_text(t) {
            Some((t, q))
        } else {
            None
        },
        None => None,
    }
}

/// The next value, if it spells an integer that fits in a byte.
pub open spec fn next_count(b: Seq<u8>, p: int) -> Option<(int, int)> {
    match next_token(b, p) {
        Some((t, q)) => match unsigned_value(t, 0xff) {
            Some(v) => Some((v, q)),
            None => None,
        },
        None => None,
    }
}

/// Which of the words true and false the next value is, if it is one of them.
pub open spec fn next_flag(b: Seq<u8>, p: int) -> Option<(bool, int)> {
    match next_token(b, p) {
        Some((t, q)) => if t == true_word() || t == false_word() {
            Some((t == true_word(), q))
        } else {
            None
        },
        None => None,
    }
}

pub open spec fn true_word() -> Seq<u8> {
    seq![0x74u8, 0x72, 0x75, 0x65]
}

pub open spec fn false_word() -> Seq<u8> {
    seq![0x66u8, 0x61, 0x6c, 0x73, 0x65]
}

pub open spec fn null_word() -> Seq<u8> {
    seq![0x6eu8, 0x75, 0x6c, 0x6c]
}

/// The number that two digits spell.
pub open spec fn digits2(d: Seq<u8>, off: int) -> Option<int> {
    if 0 <= off && off + 2 <= d.len() && is_digit(d[off]) && is_digit(d[off + 1]) {
        Some((d[off] - ZERO) * 10 + (d[off + 1] - ZERO))
    } else {
        None
    }
}

/// The number that four digits spell.
pub open spec fn digits4(d: Seq<u8>, off: int) -> Option<int> {
    match (digits2(d, off), digits2(d, off + 2)) {
        (Some(hundreds), Some(rest)) => Some(hundreds * 100 + rest),
        _ => None,
    }
}

/// The moment that the text at `p` spells, as `YYYY-MM-DDTHH:MM`, if there is
/// such a moment.
pub open spec fn moment_at(b: Seq<u8>, p: int) -> Option<Moment> {
    match (
        digits4(b, p),
        digits2(b, p + 5),
        digits2(b, p + 8),
        digits2(b, p + 11),
        digits2(b, p + 14),
    ) {
        (Some(y), Some(mo), Some(d), Some(h), Some(mi)) => {
            let m = Moment {
                year: y as u16,
                month: mo as u8,
                day: d as u8,
                hour: h as u8,
                minute: mi as u8,
            };
            if m.is_real() {
                Some(m)
            } else {
                None
            }
        },
        _ => None,
    }
}

/// A timestamp of a string that starts at `p`: the moment it spells, and the
/// position after its closing quote.
pub open spec fn timestamp_at(b: Seq<u8>, p: int) -> Option<(Moment, int)> {
    if 0 <= p < b.len() && b[p] == QUOTE {
        match (moment_at(b, p + 1), first_from(b, QUOTE, p + 1)) {
            (Some(m), Some(e)) => Some((m, e + 1)),
            _ => None,
        }
    } else {
        None
    }
}

/// The strings of the list whose items start at `p`, after those in `seen`,
/// and the position after the closing bracket. What is neither a string nor
/// a separator is stepped over.
pub open spec fn strings_from(b: Seq<u8>, p: int, seen: Seq<Seq<u8>>) -> Option<
    (Seq<Seq<u8>>, int),
>
    decreases b.len() - p,
    when 0 <= p
    via strings_from_decreases
{
    let q = after_separators(b, p);
    if q >= b.len() {
        None
    } else if b[q] == CLOSE_BRACKET {
        Some((seen, q + 1))
    } else if b[q] == QUOTE {
        match string_at(b, q) {
            Some((s, e)) => strings_from(b, e, seen.push(s)),
            None => None,
        }
    } else {
        strings_from(b, q + 1, seen)
    }
}

#[via_fn]
proof fn strings_from_decreases(b: Seq<u8>, p: int, seen: Seq<Seq<u8>>) {
    lemma_after_separators(b, p);
    let q = after_separators(b, p);
    if q < b.len() {
        lemma_first_from(b, QUOTE, q + 1);
    }
}

/// Whether a merchant is known: its id is among the ids.
pub open spec fn is_known(ids: Seq<Seq<u8>>, id: Seq<u8>) -> bool {
    ids.contains(id)
}

/// The first part of a request: the id, then the transaction's amount,
/// instalments and moment.
pub open spec fn transaction_part(b: Seq<u8>, p: int) -> Option<((Seq<u8>, int, Moment), int)> {
    match next_string(b, p) {
        None => None,
        Some((_, p)) => match value_start(b, p) {
            None => None,
            Some(p) => match next_fraction(b, p) {
                None => None,
                Some((amount, p)) => match next_count(b, p) {
                    None => None,
                    Some((installments, p)) => match next_dated(b, p) {
                        None => None,
                        Some((at, p)) => Some(((amount, installments, at), p)),
                    },
                },
            },
        },
    }
}

/// The next value, if it is a timestamp of at least nineteen bytes on a date
/// that has a weekday.
pub open spec fn next_dated(b: Seq<u8>, p: int) -> Option<(Moment, int)> {
    match value_start(b, p) {
        None => None,
        Some(p) => match timestamp_at(b, p) {
            None => None,
            Some((at, q)) => if p + 20 <= b.len() && has_weekday(at.year as int, at.month as int) {
                Some((at, q))
            } else {
                None
            },
        },
    }
}

/// The customer's part: average amount, transactions of the day, and the ids
/// of known merchants.
pub open spec fn customer_part(b: Seq<u8>, p: int) -> Option<
    ((Seq<u8>, int, Seq<Seq<u8>>), int),
> {
    match value_start(b, p) {
        None => None,
        Some(p) => match next_fraction(b, p) {
            None => None,
            Some((avg, p)) => match next_count(b, p) {
                None => None,
                Some((count, p)) => match next_list(b, p) {
                    None => None,
                    Some((ids, p)) => Some(((avg, count, ids), p)),
                },
            },
        },
    }
}

/// The strings of the next list.
pub open spec fn next_list(b: Seq<u8>, p: int) -> Option<(Seq<Seq<u8>>, int)> {
    match value_start(b, p) {
        None => None,
        Some(p) => match first_from(b, OPEN_BRACKET, p) {
            None => None,
            Some(i) => strings_from(b, i + 1, Seq::empty()),
        },
    }
}

/// The merchant's part: id, category code and average amount.
pub open spec fn merchant_part(b: Seq<u8>, p: int) -> Option<((Seq<u8>, int, Seq<u8>), int)> {
    match value_start(b, p) {
        None => None,
        Some(p) => match next_string(b, p) {
            None => None,
            Some((id, p)) => match next_string(b, p) {
                None => None,
                Some((code, p)) => match unsigned_value(code, 0xffff_ffff) {
                    None => None,
                    Some(mcc) => match next_fraction(b, p) {
                        None => None,
                        Some((avg, p)) => Some(((id, mcc, avg), p)),
                    },
                },
            },
        },
    }
}

/// The terminal's part: whether it is online, whether the card is there, and
/// how far from home it stands.
pub open spec fn terminal_part(b: Seq<u8>, p: int) -> Option<((bool, bool, Seq<u8>), int)> {
    match value_start(b, p) {
        None => None,
        Some(p) => match next_flag(b, p) {
            None => None,
            Some((online, p)) => match next_flag(b, p) {
                None => None,
                Some((card, p)) => match next_fraction(b, p) {
                    None => None,
                    Some((km, p)) => Some(((online, card, km), p)),
                },
            },
        },
    }
}

/// The last transaction's part: null, or a moment and a distance. The moment
/// is given as the minutes that passed until `cur`.
pub open spec fn last_part(b: Seq<u8>, p: int, cur: Moment) -> Option<(bool, int, Seq<u8>)> {
    match value_start(b, p) {
        None => None,
        Some(p) => if occurs_at(b, null_word(), p) {
            Some((false, 0, seq![ZERO]))
        } else if p < b.len() && b[p] == OPEN_BRACE {
            match value_start(b, p + 1) {
                None => None,
                Some(p) => match timestamp_at(b, p) {
                    None => None,
                    Some((prev, p)) => match next_fraction(b, p) {
                        None => None,
                        Some((km, _)) => Some((true, minutes_from(prev, cur), km)),
                    },
                },
            }
        } else {
            None
        },
    }
}

/// What the request `b` says, if it can be read.
pub open spec fn request(b: Seq<u8>) -> Option<PayloadView> {
    match first_from(b, OPEN_BRACE, 0) {
        None => None,
        Some(i) => match transaction_part(b, i + 1) {
            None => None,
            Some(((amount, installments, at), p)) => match customer_part(b, p) {
                None => None,
                Some(((customer_avg, count, known), p)) => match merchant_part(b, p) {
                    None => None,
                    Some(((id, mcc, merchant_avg), p)) => match terminal_part(b, p) {
                        None => None,
                        Some(((online, card, km_home), p)) => match last_part(b, p, at) {
                            None => None,
                            Some((has_last, minutes, km_last)) => Some(
                                PayloadView {
                                    amount: amount,
                                    installments: installments,
                                    hour: at.hour as int,
                                    weekday: weekday(
                                        at.year as int,
                                        at.month as int,
                                        at.day as int,
                                    ),
                                    customer_avg_amount: customer_avg,
                                    tx_count_24h: count,
                                    is_unknown_merchant: !is_known(known, id),
                                    mcc: mcc,
                                    merchant_avg_amount: merchant_avg,
                                    is_online: online,
                                    card_present: card,
                                    km_from_home: km_home,
                                    has_last_tx: has_last,
                                    minutes_since_last: minutes,
                                    km_from_current: km_last,
                                },
                            ),
                        },
                    },
                },
            },
        },
    }
}

proof fn lemma_after_separators(b: Seq<u8>, p: int)
    requires
        0 <= p,
    ensures
        after_separators(b, p) >= p,
        p <= b.len() ==> after_separators(b, p) <= b.len(),
    decreases b.len() - p,
{
    if p < b.len() && (is_space(b[p]) || b[p] == COMMA) {
        lemma_after_separators(b, p + 1);
    }
}

fn skip_space(buf: &[u8], pos: usize) -> (r: usize)
    requires
        pos <= buf@.len(),
    ensures
        r == after_space(buf@, pos as int),
        pos <= r <= buf@.len(),
{
    let mut p: usize = pos;
    while p < buf.len() && (buf[p] == 0x20 || buf[p] == 0x0a || buf[p] == 0x0d || buf[p] == 0x09)
        invariant
            pos <= p <= buf@.len(),
            after_space(buf@, pos as int) == after_space(buf@, p as int),
        decreases buf@.len() - p,
    {
        p = p + 1;
    }
    p
}

fn skip_separators(buf: &[u8], pos: usize) -> (r: usize)
    requires
        pos <= buf@.len(),
    ensures
        r == after_separators(buf@, pos as int),
        pos <= r <= buf@.len(),
{
    let mut p: usize = pos;
    while p < buf.len() && (buf[p] == 0x20 || buf[p] == 0x0a || buf[p] == 0x0d || buf[p] == 0x09
        || buf[p] == COMMA)
        invariant
            pos <= p <= buf@.len(),
            after_separators(buf@, pos as int) == after_separators(buf@, p as int),
        decreases buf@.len() - p,
    {
        p = p + 1;
    }
    p
}

/// Steps over a field's name to its value.
pub fn skip_to_value(buf: &[u8], pos: usize) -> (r: Option<usize>)
    requires
        pos <= buf@.len(),
    ensures
        match r {
            Some(q) => value_start(buf@, pos as int) == Some(q as int) && q <= buf@.len(),
            None => value_start(buf@, pos as int) is None,
        },
{
    match find_byte(buf, COLON, pos) {
        Some(i) => Some(skip_space(buf, i + 1)),
        None => None,
    }
}

/// Reads a quoted string, and gives the position after it.
pub fn read_string<'a>(buf: &'a [u8], pos: usize) -> (r: Option<(&'a [u8], usize)>)
    ensures
        match r {
            Some((s, q)) => string_at(buf@, pos as int) == Some((s@, q as int)) && pos < q
                <= buf@.len(),
            None => string_at(buf@, pos as int) is None,
        },
{
    if pos >= buf.len() || buf[pos] != QUOTE {
        return None;
    }
    match find_byte(buf, QUOTE, pos + 1) {
        Some(e) => {
            proof {
                lemma_first_from(buf@, QUOTE, pos + 1);
            }
            Some((&buf[pos + 1..e], e + 1))
        },
        None => None,
    }
}

/// Reads an unquoted value, and gives its end.
pub fn read_token<'a>(buf: &'a [u8], pos: usize) -> (r: Option<(&'a [u8], usize)>)
    ensures
        match r {
            Some((t, q)) => token_at(buf@, pos as int) == Some((t@, q as int)) && pos < q
                <= buf@.len(),
            None => token_at(buf@, pos as int) is None,
        },
{
    let mut p: usize = pos;
    while p < buf.len() && !(buf[p] == COMMA || buf[p] == CLOSE_BRACE || buf[p] == CLOSE_BRACKET
        || buf[p] == 0x20 || buf[p] == 0x0a || buf[p] == 0x0d || buf[p] == 0x09)
        invariant
            pos <= p,
            p <= buf@.len() || p == pos,
            token_end(buf@, pos as int) == token_end(buf@, p as int),
        decreases buf@.len() - p,
    {
        p = p + 1;
    }
    if p == pos {
        return None;
    }
    Some((&buf[pos..p], p))
}

fn read_next_token<'a>(buf: &'a [u8], pos: usize) -> (r: Option<(&'a [u8], usize)>)
    requires
        pos <= buf@.len(),
    ensures
        match r {
            Some((t, q)) => next_token(buf@, pos as int) == Some((t@, q as int)) && q <= buf@.len(),
            None => next_token(buf@, pos as int) is None,
        },
{
    let start = skip_to_value(buf, pos)?;
    read_token(buf, start)
}

fn read_next_string<'a>(buf: &'a [u8], pos: usize) -> (r: Option<(&'a [u8], usize)>)
    requires
        pos <= buf@.len(),
    ensures
        match r {
            Some((s, q)) => next_string(buf@, pos as int) == Some((s@, q as int)) && q <= buf@.len(),
            None => next_string(buf@, pos as int) is None,
        },
{
    let start = skip_to_value(buf, pos)?;
    read_string(buf, start)
}

fn read_fraction<'a>(buf: &'a [u8], pos: usize) -> (r: Option<(&'a [u8], usize)>)
    requires
        pos <= buf@.len(),
    ensures
        match r {
            Some((t, q)) => next_fraction(buf@, pos as int) == Some((t@, q as int)) && q
                <= buf@.len(),
            None => next_fraction(buf@, pos as int) is None,
        },
{
    let (t, q) = read_next_token(buf, pos)?;
    if spells_fraction(t) {
        Some((t, q))
    } else {
        None
    }
}

fn read_count(buf: &[u8], pos: usize) -> (r: Option<(u8, usize)>)
    requires
        pos <= buf@.len(),
    ensures
        match r {
            Some((v, q)) => next_count(buf@, pos as int) == Some((v as int, q as int)) && q
                <= buf@.len(),
            None => next_count(buf@, pos as int) is None,
        },
{
    let (t, q) = read_next_token(buf, pos)?;
    let v = parse_unsigned(t, 0xff)?;
    Some((v as u8, q))
}

fn read_flag(buf: &[u8], pos: usize) -> (r: Option<(bool, usize)>)
    requires
        pos <= buf@.len(),
    ensures
        match r {
            Some((v, q)) => next_flag(buf@, pos as int) == Some((v, q as int)) && q <= buf@.len(),
            None => next_flag(buf@, pos as int) is None,
        },
{
    let (t, q) = read_next_token(buf, pos)?;
    let yes: [u8; 4] = [0x74, 0x72, 0x75, 0x65];
    let no: [u8; 5] = [0x66, 0x61, 0x6c, 0x73, 0x65];
    assert(yes@ =~= true_word());
    assert(no@ =~= false_word());
    if same_bytes(t, &yes) {
        Some((true, q))
    } else if same_bytes(t, &no) {
        Some((false, q))
    } else {
        None
    }
}

/// The number that two digits spell.
pub fn parse_digits2(d: &[u8], off: usize) -> (r: Option<u8>)
    ensures
        match r {
            Some(v) => digits2(d@, off as int) == Some(v as int),
            None => digits2(d@, off as int) is None,
        },
{
    if off >= d.len() || d.len() - off < 2 || d[off] < ZERO || d[off] > NINE || d[off + 1] < ZERO
        || d[off + 1] > NINE {
        return None;
    }
    Some((d[off] - ZERO) * 10 + (d[off + 1] - ZERO))
}

/// The number that four digits spell.
pub fn parse_digits4(d: &[u8], off: usize) -> (r: Option<u16>)
    ensures
        match r {
            Some(v) => digits4(d@, off as int) == Some(v as int),
            None => digits4(d@, off as int) is None,
        },
{
    if off >= d.len() || d.len() - off < 4 {
        return None;
    }
    let hundreds = parse_digits2(d, off)?;
    let rest = parse_digits2(d, off + 2)?;
    Some(hundreds as u16 * 100 + rest as u16)
}

fn read_moment(buf: &[u8], pos: usize) -> (r: Option<Moment>)
    requires
        pos <= buf@.len(),
    ensures
        r == moment_at(buf@, pos as int),
{
    if buf.len() - pos < 16 {
        return None;
    }
    let year = parse_digits4(buf, pos)?;
    let month = parse_digits2(buf, pos + 5)?;
    let day = parse_digits2(buf, pos + 8)?;
    let hour = parse_digits2(buf, pos + 11)?;
    let minute = parse_digits2(buf, pos + 14)?;
    let m = Moment { year, month, day, hour, minute };
    if m.is_possible() {
        Some(m)
    } else {
        None
    }
}

/// Reads "YYYY-MM-DDTHH:MM:SS", of which the seconds are not looked at.
pub fn parse_iso(buf: &[u8], pos: usize) -> (r: Option<Moment>)
    ensures
        r == (if pos + 19 <= buf@.len() {
            moment_at(buf@, pos as int)
        } else {
            None
        }),
{
    if pos > buf.len() || buf.len() - pos < 19 {
        return None;
    }
    read_moment(buf, pos)
}

fn read_timestamp(buf: &[u8], pos: usize) -> (r: Option<(Moment, usize)>)
    requires
        pos <= buf@.len(),
    ensures
        match r {
            Some((m, q)) => timestamp_at(buf@, pos as int) == Some((m, q as int)) && q <= buf@.len(),
            None => timestamp_at(buf@, pos as int) is None,
        },
{
    if pos >= buf.len() || buf[pos] != QUOTE {
        return None;
    }
    let m = read_moment(buf, pos + 1)?;
    let e = find_byte(buf, QUOTE, pos + 1)?;
    Some((m, e + 1))
}

fn read_dated(buf: &[u8], pos: usize) -> (r: Option<(Moment, usize)>)
    requires
        pos <= buf@.len(),
    ensures
        match r {
            Some((m, q)) => next_dated(buf@, pos as int) == Some((m, q as int)) && q <= buf@.len()
                && has_weekday(m.year as int, m.month as int),
            None => next_dated(buf@, pos as int) is None,
        },
{
    let start = skip_to_value(buf, pos)?;
    let (m, q) = read_timestamp(buf, start)?;
    if buf.len() - start < 20 || (m.month < 3 && m.year < 1) {
        return None;
    }
    Some((m, q))
}

/// Reads a list of strings: where its items start, and the position after it.
fn read_list(buf: &[u8], pos: usize) -> (r: Option<(usize, usize)>)
    requires
        pos <= buf@.len(),
    ensures
        match r {
            Some((items, q)) => {
                &&& items <= buf@.len()
                &&& q <= buf@.len()
                &&& next_list(buf@, pos as int) == strings_from(buf@, items as int, Seq::empty())
                &&& next_list(buf@, pos as int) matches Some((_, e)) && e == q
            },
            None => next_list(buf@, pos as int) is None,
        },
{
    let start = skip_to_value(buf, pos)?;
    let open = find_byte(buf, OPEN_BRACKET, start)?;
    let ghost mut seen: Seq<Seq<u8>> = Seq::empty();
    let mut p: usize = open + 1;
    loop
        invariant
            p <= buf@.len(),
            open < buf@.len(),
            next_list(buf@, pos as int) == strings_from(buf@, open + 1, Seq::empty()),
            next_list(buf@, pos as int) == strings_from(buf@, p as int, seen),
        decreases buf@.len() - p,
    {
        p = skip_separators(buf, p);
        if p >= buf.len() {
            return None;
        }
        if buf[p] == CLOSE_BRACKET {
            return Some((open + 1, p + 1));
        }
        if buf[p] == QUOTE {
            let (s, q) = read_string(buf, p)?;
            proof {
                lemma_first_from(buf@, QUOTE, p + 1);
                seen = seen.push(s@);
            }
            p = q;
        } else {
            p = p + 1;
        }
    }
}

/// The strings of a list come after those that were seen.
proof fn lemma_strings_from(b: Seq<u8>, p: int, seen: Seq<Seq<u8>>)
    requires
        0 <= p,
        strings_from(b, p, seen) is Some,
    ensures
        seen.len() <= (strings_from(b, p, seen)->0).0.len(),
        forall|i: int|
            0 <= i < seen.len() ==> #[trigger] (strings_from(b, p, seen)->0).0[i] == seen[i],
    decreases b.len() - p,
{
    lemma_after_separators(b, p);
    let q = after_separators(b, p);
    if b[q] == CLOSE_BRACKET {
    } else if b[q] == QUOTE {
        lemma_first_from(b, QUOTE, q + 1);
        let (s, e) = string_at(b, q)->0;
        lemma_strings_from(b, e, seen.push(s));
        assert forall|i: int| 0 <= i < seen.len() implies #[trigger] (strings_from(b, p, seen)->0).0[i]
            == seen[i] by {
            assert(seen.push(s)[i] == seen[i]);
        }
    } else {
        lemma_strings_from(b, q + 1, seen);
    }
}

/// Whether `id` is in the list whose items start at `items`. The ids stay where
/// they stand in the request.
fn list_has(buf: &[u8], items: usize, id: &[u8]) -> (r: bool)
    requires
        items <= buf@.len(),
        strings_from(buf@, items as int, Seq::empty()) is Some,
    ensures
        r == is_known((strings_from(buf@, items as int, Seq::empty())->0).0, id@),
{
    let ghost ids = (strings_from(buf@, items as int, Seq::empty())->0).0;
    let ghost mut seen: Seq<Seq<u8>> = Seq::empty();
    let mut p: usize = items;
    loop
        invariant
            p <= buf@.len(),
            strings_from(buf@, p as int, seen) is Some,
            (strings_from(buf@, p as int, seen)->0).0 == ids,
            ids == (strings_from(buf@, items as int, Seq::empty())->0).0,
            !seen.contains(id@),
        decreases buf@.len() - p,
    {
        p = skip_separators(buf, p);
        if p >= buf.len() || buf[p] == CLOSE_BRACKET {
            return false;
        }
        if buf[p] == QUOTE {
            match read_string(buf, p) {
                None => {
                    return false;
                },
                Some((s, q)) => {
                    let ghost before = seen;
                    proof {
                        lemma_first_from(buf@, QUOTE, p + 1);
                        seen = seen.push(s@);
                        lemma_strings_from(buf@, q as int, seen);
                        assert(ids[before.len() as int] == seen[before.len() as int]);
                    }
                    if same_bytes(s, id) {
                        assert(ids[before.len() as int] == id@);
                        return true;
                    }
                    proof {
                        assert forall|i: int| 0 <= i < seen.len() implies seen[i] != id@ by {
                            if i < before.len() {
                                assert(before[i] == seen[i]);
                            }
                        }
                    }
                    p = q;
                },
            }
        } else {
            p = p + 1;
        }
    }
}

/// Reads a request. `None` is returned for what cannot be read.
pub fn parse<'a>(buf: &'a [u8]) -> (r: Option<Payload<'a>>)
    ensures
        match r {
            Some(p) => request(buf@) == Some(p@),
            None => request(buf@) is None,
        },
{
    let pos = find_byte(buf, OPEN_BRACE, 0)? + 1;

    let (_, pos) = read_next_string(buf, pos)?;
    let pos = skip_to_value(buf, pos)?;
    let (amount, pos) = read_fraction(buf, pos)?;
    let (installments, pos) = read_count(buf, pos)?;
    let (at, pos) = read_dated(buf, pos)?;
    let weekday = date_weekday(at.year, at.month, at.day);

    let pos = skip_to_value(buf, pos)?;
    let (customer_avg_amount, pos) = read_fraction(buf, pos)?;
    let (tx_count_24h, pos) = read_count(buf, pos)?;
    let (known, pos) = read_list(buf, pos)?;

    let pos = skip_to_value(buf, pos)?;
    let (id, pos) = read_next_string(buf, pos)?;
    let is_unknown_merchant = !list_has(buf, known, id);
    let (code, pos) = read_next_string(buf, pos)?;
    let mcc = parse_unsigned(code, 0xffff_ffff)? as u32;
    let (merchant_avg_amount, pos) = read_fraction(buf, pos)?;

    let pos = skip_to_value(buf, pos)?;
    let (is_online, pos) = read_flag(buf, pos)?;
    let (card_present, pos) = read_flag(buf, pos)?;
    let (km_from_home, pos) = read_fraction(buf, pos)?;

    let (has_last_tx, minutes_since_last, km_from_current) = read_last(buf, pos, at)?;
    Some(
        Payload {
            amount,
            installments,
            hour: at.hour,
            weekday,
            customer_avg_amount,
            tx_count_24h,
            is_unknown_merchant,
            mcc,
            merchant_avg_amount,
            is_online,
            card_present,
            km_from_home,
            has_last_tx,
            minutes_since_last,
            km_from_current,
        },
    )
}

fn read_last<'a>(buf: &'a [u8], pos: usize, cur: Moment) -> (r: Option<(bool, i64, &'a [u8])>)
    requires
        pos <= buf@.len(),
    ensures
        match r {
            Some((has, minutes, km)) => last_part(buf@, pos as int, cur) == Some(
                (has, minutes as int, km@),
            ),
            None => last_part(buf@, pos as int, cur) is None,
        },
{
    let start = skip_to_value(buf, pos)?;
    let null: [u8; 4] = [0x6e, 0x75, 0x6c, 0x6c];
    assert(null@ =~= null_word());
    if matches_at(buf, &null, start) {
        return Some((false, 0, zero_text()));
    }
    if start >= buf.len() || buf[start] != OPEN_BRACE {
        return None;
    }
    let value = skip_to_value(buf, start + 1)?;
    let (prev, pos) = read_timestamp(buf, value)?;
    let (km, _) = read_fraction(buf, pos)?;
    Some((true, minutes_between(cur, prev), km))
}

/// The text "0".
fn zero_text() -> (r: &'static [u8])
    ensures
        r@ == seq![ZERO],
{
    let text = "0";
    proof {
        reveal_strlit("0");
        vstd::utf8::is_ascii_chars_encode_utf8(text@);
    }
    let r = text.as_bytes();
    assert(r@ =~= seq![ZERO]);
    r
}

/// Every fraction of a request that was read is spelled as a fraction, and
/// its counts, its hour and its weekday are in range.
pub proof fn read_fields_are_in_range(b: Seq<u8>)
    requires
        request(b) is Some,
    ensures
        is_fraction_text(request(b)->0.amount),
        is_fraction_text(request(b)->0.customer_avg_amount),
        is_fraction_text(request(b)->0.merchant_avg_amount),
        is_fraction_text(request(b)->0.km_from_home),
        is_fraction_text(request(b)->0.km_from_current),
        0 <= request(b)->0.installments <= 0xff,
        0 <= request(b)->0.tx_count_24h <= 0xff,
        0 <= request(b)->0.hour < 24,
        0 <= request(b)->0.weekday < 7,
        0 <= request(b)->0.mcc <= 0xffff_ffff,
{
    let i = first_from(b, OPEN_BRACE, 0)->0;
    let (head, p1) = transaction_part(b, i + 1)->0;
    let (customer, p2) = customer_part(b, p1)->0;
    let (merchant, p3) = merchant_part(b, p2)->0;
    let (terminal, p4) = terminal_part(b, p3)->0;
    lemma_transaction_part(b, i + 1);
    lemma_customer_part(b, p1);
    lemma_merchant_part(b, p2);
    lemma_terminal_part(b, p3);
    lemma_last_part(b, p4, head.2);
}

proof fn lemma_next_count(b: Seq<u8>, p: int)
    ensures
        next_count(b, p) matches Some((v, _)) ==> 0 <= v <= 0xff,
{
    if let Some((t, _)) = next_token(b, p) {
        lemma_unsigned_value_bounded(t, 0xff);
    }
}

proof fn lemma_transaction_part(b: Seq<u8>, p: int)
    ensures
        transaction_part(b, p) matches Some(((amount, installments, at), _)) ==> is_fraction_text(
            amount,
        ) && 0 <= installments <= 0xff && at.is_real(),
{
    if transaction_part(b, p) is Some {
        let p1 = (next_string(b, p)->0).1;
        let p2 = value_start(b, p1)->0;
        let p3 = (next_fraction(b, p2)->0).1;
        lemma_next_count(b, p3);
    }
}

proof fn lemma_customer_part(b: Seq<u8>, p: int)
    ensures
        customer_part(b, p) matches Some(((avg, count, _), _)) ==> is_fraction_text(avg) && 0
            <= count <= 0xff,
{
    if customer_part(b, p) is Some {
        let p1 = value_start(b, p)->0;
        let p2 = (next_fraction(b, p1)->0).1;
        lemma_next_count(b, p2);
    }
}

proof fn lemma_merchant_part(b: Seq<u8>, p: int)
    ensures
        merchant_part(b, p) matches Some(((_, mcc, avg), _)) ==> is_fraction_text(avg) && 0 <= mcc
            <= 0xffff_ffff,
{
    if merchant_part(b, p) is Some {
        let p1 = value_start(b, p)->0;
        let p2 = (next_string(b, p1)->0).1;
        let code = (next_string(b, p2)->0).0;
        lemma_unsigned_value_bounded(code, 0xffff_ffff);
    }
}

proof fn lemma_terminal_part(b: Seq<u8>, p: int)
    ensures
        terminal_part(b, p) matches Some(((_, _, km), _)) ==> is_fraction_text(km),
{
}

proof fn lemma_last_part(b: Seq<u8>, p: int, cur: Moment)
    ensures
        last_part(b, p, cur) matches Some((_, _, km)) ==> is_fraction_text(km),
{
    let zero = seq![ZERO];
    assert(is_fraction_text(zero)) by {
        reveal_with_fuel(digits_end, 3);
    }
}

/// Without a last transaction, nothing is said of it.
pub proof fn no_last_transaction_means_zero(b: Seq<u8>)
    requires
        request(b) is Some,
        !request(b)->0.has_last_tx,
    ensures
        request(b)->0.minutes_since_last == 0,
        request(b)->0.km_from_current == seq![ZERO],
{
}

} // verus!
