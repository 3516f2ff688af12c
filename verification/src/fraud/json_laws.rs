//! What is read of a request whose values stand in their order: what they say,
//! whatever its fields are called and however it is spaced.

use vstd::prelude::*;

use crate::fraud::calendar::{has_weekday, minutes_from, weekday, Moment};
use crate::fraud::json::{
    after_separators, after_space, customer_part, digits2, digits4, ends_token, false_word, is_known,
    is_space,
    last_part, merchant_part, moment_at, next_count, next_dated, next_flag, next_fraction,
    next_list, next_string, next_token, null_word, request, string_at, strings_from, terminal_part,
    timestamp_at, token_at, token_end, transaction_part, true_word, value_start, PayloadView,
    CLOSE_BRACKET, COLON, COMMA, OPEN_BRACE, OPEN_BRACKET, QUOTE,
};
use crate::fraud::numerals::{is_fraction_text, unsigned_value, ZERO};
use crate::scan::{first_from, is_first, lemma_first_from, lemma_first_is_found, occurs_at};

verus! {

/// What stands before a value: anything up to its only colon, and white space.
pub open spec fn is_name(k: Seq<u8>) -> bool {
    first_from(k, COLON, 0) matches Some(c) && forall|i: int|
        c < i < k.len() ==> is_space(#[trigger] k[i])
}

/// What an unquoted value can be.
pub open spec fn is_token(t: Seq<u8>) -> bool {
    t.len() > 0 && forall|i: int| 0 <= i < t.len() ==> !ends_token(#[trigger] t[i])
}

/// One of the words true and false.
pub open spec fn is_flag(t: Seq<u8>) -> bool {
    t == true_word() || t == false_word()
}

/// What a string can hold.
pub open spec fn is_quotable(s: Seq<u8>) -> bool {
    forall|i: int| 0 <= i < s.len() ==> #[trigger] s[i] != QUOTE
}

/// What can stand between the items of a list.
pub open spec fn is_separator(s: Seq<u8>) -> bool {
    forall|i: int| 0 <= i < s.len() ==> is_space(#[trigger] s[i]) || s[i] == COMMA
}

/// A name that can follow a name.
pub open spec fn is_inner_name(k: Seq<u8>) -> bool {
    is_name(k) && !is_space(k[0])
}

/// A name that can follow an unquoted value.
pub open spec fn is_next_name(k: Seq<u8>) -> bool {
    is_name(k) && ends_token(k[0])
}

pub open spec fn quoted(s: Seq<u8>) -> Seq<u8> {
    seq![QUOTE] + (s + seq![QUOTE])
}

/// A string has the length of a timestamp to the minute.
pub open spec fn is_long_enough(s: Seq<u8>) -> bool {
    is_quotable(s) && s.len() >= 16
}

/// A timestamp can be read: it has the length of one, and spells a moment.
pub open spec fn is_timestamp(s: Seq<u8>) -> bool {
    is_quotable(s) && s.len() >= 19 && moment_at(s, 0) is Some
}

/// The id and the transaction of a request, as they are written.
pub struct TransactionText {
    pub id_name: Seq<u8>,
    pub id: Seq<u8>,
    pub transaction_name: Seq<u8>,
    pub amount_name: Seq<u8>,
    pub amount: Seq<u8>,
    pub installments_name: Seq<u8>,
    pub installments: Seq<u8>,
    pub requested_at_name: Seq<u8>,
    pub requested_at: Seq<u8>,
}

impl TransactionText {
    pub open spec fn text(self) -> Seq<u8> {
        self.id_name + (quoted(self.id) + (self.transaction_name + (self.amount_name + (self.amount
            + (self.installments_name + (self.installments + (self.requested_at_name + quoted(
            self.requested_at,
        ))))))))
    }

    /// What stands between the values names them and ends them.
    pub open spec fn is_formed(self) -> bool {
        &&& is_name(self.id_name) && is_quotable(self.id)
        &&& is_name(self.transaction_name)
        &&& is_inner_name(self.amount_name) && is_token(self.amount)
        &&& is_next_name(self.installments_name) && is_token(self.installments)
        &&& is_next_name(self.requested_at_name) && is_long_enough(self.requested_at)
    }

    /// The values are such values.
    pub open spec fn is_meant(self) -> bool {
        &&& is_fraction_text(self.amount)
        &&& unsigned_value(self.installments, 0xff) is Some
        &&& moment_at(self.requested_at, 0) is Some
        &&& has_weekday(self.moment().year as int, self.moment().month as int)
    }

    pub open spec fn is_valid(self) -> bool {
        self.is_formed() && self.is_meant()
    }

    pub open spec fn moment(self) -> Moment {
        moment_at(self.requested_at, 0)->0
    }
}

/// The customer of a request, as it is written. Behind each known merchant's id
/// stands what separates it from the next.
pub struct CustomerText {
    pub customer_name: Seq<u8>,
    pub avg_amount_name: Seq<u8>,
    pub avg_amount: Seq<u8>,
    pub tx_count_name: Seq<u8>,
    pub tx_count: Seq<u8>,
    pub known_name: Seq<u8>,
    pub known_lead: Seq<u8>,
    pub known: Seq<(Seq<u8>, Seq<u8>)>,
}

/// The items of a list and its end, as they are written.
pub open spec fn items_text(items: Seq<(Seq<u8>, Seq<u8>)>) -> Seq<u8>
    decreases items.len(),
{
    if items.len() == 0 {
        seq![CLOSE_BRACKET]
    } else {
        quoted(items[0].0) + (items[0].1 + items_text(items.drop_first()))
    }
}

/// The ids in a list.
pub open spec fn ids_of(items: Seq<(Seq<u8>, Seq<u8>)>) -> Seq<Seq<u8>> {
    Seq::new(items.len(), |i: int| items[i].0)
}

impl CustomerText {
    pub open spec fn text(self) -> Seq<u8> {
        self.customer_name + (self.avg_amount_name + (self.avg_amount + (self.tx_count_name + (
        self.tx_count + (self.known_name + (seq![OPEN_BRACKET] + (self.known_lead + items_text(
            self.known,
        ))))))))
    }

    /// What stands between the values names them and ends them.
    pub open spec fn is_formed(self) -> bool {
        &&& is_name(self.customer_name)
        &&& is_inner_name(self.avg_amount_name) && is_token(self.avg_amount)
        &&& is_next_name(self.tx_count_name) && is_token(self.tx_count)
        &&& is_next_name(self.known_name) && is_separator(self.known_lead)
        &&& forall|i: int|
            0 <= i < self.known.len() ==> is_quotable((#[trigger] self.known[i]).0) && is_separator(
                self.known[i].1,
            )
    }

    /// The values are such values.
    pub open spec fn is_meant(self) -> bool {
        is_fraction_text(self.avg_amount) && unsigned_value(self.tx_count, 0xff) is Some
    }

    pub open spec fn is_valid(self) -> bool {
        self.is_formed() && self.is_meant()
    }
}

/// The merchant of a request, as it is written.
pub struct MerchantText {
    pub merchant_name: Seq<u8>,
    pub id_name: Seq<u8>,
    pub id: Seq<u8>,
    pub mcc_name: Seq<u8>,
    pub mcc: Seq<u8>,
    pub avg_amount_name: Seq<u8>,
    pub avg_amount: Seq<u8>,
}

impl MerchantText {
    pub open spec fn text(self) -> Seq<u8> {
        self.merchant_name + (self.id_name + (quoted(self.id) + (self.mcc_name + (quoted(self.mcc)
            + (self.avg_amount_name + self.avg_amount)))))
    }

    /// What stands between the values names them and ends them.
    pub open spec fn is_formed(self) -> bool {
        &&& is_name(self.merchant_name)
        &&& is_inner_name(self.id_name) && is_quotable(self.id)
        &&& is_name(self.mcc_name) && is_quotable(self.mcc)
        &&& is_name(self.avg_amount_name) && is_token(self.avg_amount)
    }

    /// The values are such values.
    pub open spec fn is_meant(self) -> bool {
        unsigned_value(self.mcc, 0xffff_ffff) is Some && is_fraction_text(self.avg_amount)
    }

    pub open spec fn is_valid(self) -> bool {
        self.is_formed() && self.is_meant()
    }
}

/// The terminal of a request, as it is written.
pub struct TerminalText {
    pub terminal_name: Seq<u8>,
    pub is_online_name: Seq<u8>,
    pub is_online: Seq<u8>,
    pub card_present_name: Seq<u8>,
    pub card_present: Seq<u8>,
    pub km_from_home_name: Seq<u8>,
    pub km_from_home: Seq<u8>,
}

impl TerminalText {
    pub open spec fn text(self) -> Seq<u8> {
        self.terminal_name + (self.is_online_name + (self.is_online + (self.card_present_name + (
        self.card_present + (self.km_from_home_name + self.km_from_home)))))
    }

    /// What stands between the values names them and ends them.
    pub open spec fn is_formed(self) -> bool {
        &&& is_next_name(self.terminal_name)
        &&& is_inner_name(self.is_online_name) && is_token(self.is_online)
        &&& is_next_name(self.card_present_name) && is_token(self.card_present)
        &&& is_next_name(self.km_from_home_name) && is_token(self.km_from_home)
    }

    /// The values are such values.
    pub open spec fn is_meant(self) -> bool {
        is_flag(self.is_online) && is_flag(self.card_present) && is_fraction_text(
            self.km_from_home,
        )
    }

    pub open spec fn is_valid(self) -> bool {
        self.is_formed() && self.is_meant()
    }
}

/// A last transaction, as it is written.
pub struct LastText {
    pub timestamp_name: Seq<u8>,
    pub timestamp: Seq<u8>,
    pub km_from_current_name: Seq<u8>,
    pub km_from_current: Seq<u8>,
}

impl LastText {
    pub open spec fn text(self) -> Seq<u8> {
        seq![OPEN_BRACE] + (self.timestamp_name + (quoted(self.timestamp) + (
        self.km_from_current_name + self.km_from_current)))
    }

    /// What stands between the values names them and ends them.
    pub open spec fn is_formed(self) -> bool {
        &&& is_name(self.timestamp_name) && is_long_enough(self.timestamp)
        &&& is_name(self.km_from_current_name) && is_token(self.km_from_current)
    }

    /// The values are such values.
    pub open spec fn is_meant(self) -> bool {
        moment_at(self.timestamp, 0) is Some && is_fraction_text(self.km_from_current)
    }

    pub open spec fn is_valid(self) -> bool {
        self.is_formed() && self.is_meant()
    }
}

/// A request, as it is written.
pub struct RequestText {
    pub head: Seq<u8>,
    pub transaction: TransactionText,
    pub customer: CustomerText,
    pub merchant: MerchantText,
    pub terminal: TerminalText,
    pub last_name: Seq<u8>,
    pub last: Option<LastText>,
    pub tail: Seq<u8>,
}

impl RequestText {
    pub open spec fn last_text(self) -> Seq<u8> {
        match self.last {
            Some(last) => last.text(),
            None => null_word(),
        }
    }

    pub open spec fn text(self) -> Seq<u8> {
        self.head + (self.transaction.text() + (self.customer.text() + (self.merchant.text() + (
        self.terminal.text() + (self.last_name + (self.last_text() + self.tail))))))
    }

    /// The head ends with the first brace, and what stands between the values
    /// names them and ends them.
    pub open spec fn is_formed(self) -> bool {
        &&& first_from(self.head, OPEN_BRACE, 0) == Some(self.head.len() - 1)
        &&& self.transaction.is_formed()
        &&& self.customer.is_formed()
        &&& self.merchant.is_formed()
        &&& self.terminal.is_formed()
        &&& is_next_name(self.last_name)
        &&& self.last matches Some(last) ==> last.is_formed()
        &&& self.tail.len() > 0 ==> ends_token(self.tail[0])
    }

    /// The values are such values.
    pub open spec fn is_meant(self) -> bool {
        &&& self.transaction.is_meant()
        &&& self.customer.is_meant()
        &&& self.merchant.is_meant()
        &&& self.terminal.is_meant()
        &&& self.last matches Some(last) ==> last.is_meant()
    }

    pub open spec fn is_valid(self) -> bool {
        self.is_formed() && self.is_meant()
    }

    /// What the values say.
    pub open spec fn says(self) -> PayloadView {
        let at = self.transaction.moment();
        PayloadView {
            amount: self.transaction.amount,
            installments: unsigned_value(self.transaction.installments, 0xff)->0,
            hour: at.hour as int,
            weekday: weekday(at.year as int, at.month as int, at.day as int),
            customer_avg_amount: self.customer.avg_amount,
            tx_count_24h: unsigned_value(self.customer.tx_count, 0xff)->0,
            is_unknown_merchant: !is_known(ids_of(self.customer.known), self.merchant.id),
            mcc: unsigned_value(self.merchant.mcc, 0xffff_ffff)->0,
            merchant_avg_amount: self.merchant.avg_amount,
            is_online: self.terminal.is_online == true_word(),
            card_present: self.terminal.card_present == true_word(),
            km_from_home: self.terminal.km_from_home,
            has_last_tx: self.last is Some,
            minutes_since_last: match self.last {
                Some(last) => minutes_from(moment_at(last.timestamp, 0)->0, at),
                None => 0,
            },
            km_from_current: match self.last {
                Some(last) => last.km_from_current,
                None => seq![ZERO],
            },
        }
    }
}

/// Two parts that occur one after the other each occur in their place.
proof fn lemma_split(b: Seq<u8>, x: Seq<u8>, y: Seq<u8>, p: int)
    requires
        occurs_at(b, x + y, p),
    ensures
        occurs_at(b, x, p),
        occurs_at(b, y, p + x.len()),
{
    let both = x + y;
    assert(b.subrange(p, p + both.len()) == both);
    assert forall|i: int| 0 <= i < both.len() implies b[p + i] == #[trigger] both[i] by {
        assert(b.subrange(p, p + both.len())[i] == b[p + i]);
    }
    assert(b.subrange(p, p + x.len()) =~= x) by {
        assert forall|i: int| 0 <= i < x.len() implies b[p + i] == x[i] by {
            assert(both[i] == x[i]);
        }
    }
    assert(b.subrange(p + x.len(), p + x.len() + y.len()) =~= y) by {
        assert forall|i: int| 0 <= i < y.len() implies b[p + x.len() + i] == y[i] by {
            assert(both[x.len() + i] == y[i]);
        }
    }
}

/// The bytes of a part that occurs.
proof fn lemma_bytes(b: Seq<u8>, x: Seq<u8>, p: int)
    requires
        occurs_at(b, x, p),
    ensures
        forall|i: int| 0 <= i < x.len() ==> b[p + i] == #[trigger] x[i],
{
    assert forall|i: int| 0 <= i < x.len() implies b[p + i] == #[trigger] x[i] by {
        assert(b.subrange(p, p + x.len())[i] == b[p + i]);
    }
}

proof fn lemma_spaces(b: Seq<u8>, p: int, e: int)
    requires
        0 <= p <= e <= b.len(),
        forall|i: int| p <= i < e ==> is_space(#[trigger] b[i]),
        e < b.len() ==> !is_space(b[e]),
    ensures
        after_space(b, p) == e,
    decreases e - p,
{
    if p < e {
        assert(is_space(b[p]));
        lemma_spaces(b, p + 1, e);
    }
}

proof fn lemma_separators(b: Seq<u8>, p: int, e: int)
    requires
        0 <= p <= e <= b.len(),
        forall|i: int| p <= i < e ==> is_space(#[trigger] b[i]) || b[i] == COMMA,
        e < b.len() ==> !is_space(b[e]) && b[e] != COMMA,
    ensures
        after_separators(b, p) == e,
    decreases e - p,
{
    if p < e {
        assert(is_space(b[p]) || b[p] == COMMA);
        lemma_separators(b, p + 1, e);
    }
}

/// A value starts behind its name.
proof fn lemma_value(b: Seq<u8>, p: int, k: Seq<u8>)
    requires
        occurs_at(b, k, p),
        is_name(k),
        p + k.len() < b.len() ==> !is_space(b[p + k.len()]),
    ensures
        value_start(b, p) == Some(p + k.len()),
{
    let c = first_from(k, COLON, 0)->0;
    lemma_first_from(k, COLON, 0);
    lemma_bytes(b, k, p);
    assert forall|j: int| p <= j < p + c implies b[j] != COLON by {
        assert(b[p + (j - p)] == k[j - p]);
    }
    assert(b[p + c] == k[c]);
    assert(is_first(b, COLON, p, p + c));
    lemma_first_is_found(b, COLON, p, p + c);
    assert forall|i: int| p + c + 1 <= i < p + k.len() implies is_space(#[trigger] b[i]) by {
        assert(b[p + (i - p)] == k[i - p]);
    }
    lemma_spaces(b, p + c + 1, (p + k.len()) as int);
}

/// A name begins with something.
proof fn lemma_name_begins(b: Seq<u8>, k: Seq<u8>, p: int)
    requires
        occurs_at(b, k, p),
        is_name(k),
    ensures
        k.len() > 0,
        p < b.len(),
        b[p] == k[0],
{
    lemma_first_from(k, COLON, 0);
    lemma_bytes(b, k, p);
    assert(b[p + 0] == k[0]);
}

/// An unquoted value is read.
proof fn lemma_token(b: Seq<u8>, p: int, t: Seq<u8>)
    requires
        occurs_at(b, t, p),
        is_token(t),
        p + t.len() < b.len() ==> ends_token(b[p + t.len()]),
    ensures
        token_at(b, p) == Some((t, p + t.len())),
        !is_space(b[p]),
{
    lemma_bytes(b, t, p);
    assert forall|i: int| p <= i < p + t.len() implies !ends_token(#[trigger] b[i]) by {
        assert(b[p + (i - p)] == t[i - p]);
    }
    lemma_token_end(b, p, (p + t.len()) as int);
}

proof fn lemma_token_end(b: Seq<u8>, p: int, e: int)
    requires
        0 <= p <= e <= b.len(),
        forall|i: int| p <= i < e ==> !ends_token(#[trigger] b[i]),
        e < b.len() ==> ends_token(b[e]),
    ensures
        token_end(b, p) == e,
    decreases e - p,
{
    if p < e {
        assert(!ends_token(b[p]));
        lemma_token_end(b, p + 1, e);
    }
}

/// A string is read.
proof fn lemma_string(b: Seq<u8>, p: int, s: Seq<u8>)
    requires
        occurs_at(b, quoted(s), p),
        is_quotable(s),
    ensures
        string_at(b, p) == Some((s, p + s.len() + 2)),
        first_from(b, QUOTE, p + 1) == Some(p + 1 + s.len()),
        occurs_at(b, s, p + 1),
        b[p] == QUOTE,
        p + s.len() + 2 <= b.len(),
{
    lemma_split(b, seq![QUOTE], s + seq![QUOTE], p);
    lemma_split(b, s, seq![QUOTE], p + 1);
    lemma_bytes(b, seq![QUOTE], p);
    assert(b[p + 0] == seq![QUOTE][0]);
    lemma_bytes(b, s, p + 1);
    let e = p + 1 + s.len();
    lemma_bytes(b, seq![QUOTE], e);
    assert(b[e + 0] == seq![QUOTE][0]);
    assert forall|j: int| p + 1 <= j < e implies b[j] != QUOTE by {
        assert(b[p + 1 + (j - p - 1)] == s[j - p - 1]);
    }
    assert(is_first(b, QUOTE, p + 1, e));
    lemma_first_is_found(b, QUOTE, p + 1, e);
    assert(b.subrange(p + 1, e) =~= s);
}

/// A named value that is not quoted is read.
proof fn lemma_named_token(b: Seq<u8>, p: int, k: Seq<u8>, t: Seq<u8>)
    requires
        occurs_at(b, k, p),
        is_name(k),
        occurs_at(b, t, p + k.len()),
        is_token(t),
        p + k.len() + t.len() < b.len() ==> ends_token(b[p + k.len() + t.len()]),
    ensures
        next_token(b, p) == Some((t, p + k.len() + t.len())),
{
    lemma_token(b, (p + k.len()) as int, t);
    lemma_value(b, p, k);
}

/// A named string is read.
proof fn lemma_named_string(b: Seq<u8>, p: int, k: Seq<u8>, s: Seq<u8>)
    requires
        occurs_at(b, k, p),
        is_name(k),
        occurs_at(b, quoted(s), p + k.len()),
        is_quotable(s),
    ensures
        next_string(b, p) == Some((s, p + k.len() + quoted(s).len())),
{
    lemma_string(b, (p + k.len()) as int, s);
    lemma_value(b, p, k);
}

/// The moment that a text spells is that of the text alone.
proof fn lemma_moment(b: Seq<u8>, p: int, s: Seq<u8>)
    requires
        occurs_at(b, s, p),
        s.len() >= 16,
    ensures
        moment_at(b, p) == moment_at(s, 0),
{
    lemma_bytes(b, s, p);
    assert(b[p + 0] == s[0] && b[p + 1] == s[1] && b[p + 2] == s[2] && b[p + 3] == s[3]);
    assert(b[p + 5] == s[5] && b[p + 6] == s[6] && b[p + 8] == s[8] && b[p + 9] == s[9]);
    assert(b[p + 11] == s[11] && b[p + 12] == s[12] && b[p + 14] == s[14] && b[p + 15] == s[15]);
    assert(digits4(b, p) == digits4(s, 0));
    assert(digits2(b, p + 5) == digits2(s, 5));
    assert(digits2(b, p + 8) == digits2(s, 8));
    assert(digits2(b, p + 11) == digits2(s, 11));
    assert(digits2(b, p + 14) == digits2(s, 14));
}

/// A timestamp is read.
proof fn lemma_timestamp(b: Seq<u8>, p: int, s: Seq<u8>)
    requires
        occurs_at(b, quoted(s), p),
        is_long_enough(s),
    ensures
        timestamp_at(b, p) == (match moment_at(s, 0) {
            Some(m) => Some((m, (p + quoted(s).len()) as int)),
            None => None,
        }),
        p + 18 <= b.len(),
        b[p] == QUOTE,
{
    lemma_string(b, p, s);
    lemma_moment(b, p + 1, s);
}

proof fn lemma_transaction_is_read(b: Seq<u8>, p: int, t: TransactionText)
    requires
        occurs_at(b, t.text(), p),
        t.is_formed(),
        p + t.text().len() + 2 <= b.len(),
    ensures
        t.is_meant() ==> transaction_part(b, p) == Some(
            (
                (t.amount, unsigned_value(t.installments, 0xff)->0, t.moment()),
                p + t.text().len(),
            ),
        ),
        !t.is_meant() ==> transaction_part(b, p) is None,
{
    let r7 = t.requested_at_name + quoted(t.requested_at);
    let r6 = t.installments + r7;
    let r5 = t.installments_name + r6;
    let r4 = t.amount + r5;
    let r3 = t.amount_name + r4;
    let r2 = t.transaction_name + r3;
    let r1 = quoted(t.id) + r2;
    let p1 = p + t.id_name.len();
    let p2 = p1 + quoted(t.id).len();
    let p3 = p2 + t.transaction_name.len();
    let p4 = p3 + t.amount_name.len();
    let p5 = p4 + t.amount.len();
    let p6 = p5 + t.installments_name.len();
    let p7 = p6 + t.installments.len();
    let p8 = p7 + t.requested_at_name.len();
    lemma_split(b, t.id_name, r1, p);
    lemma_split(b, quoted(t.id), r2, p1);
    lemma_split(b, t.transaction_name, r3, p2);
    lemma_split(b, t.amount_name, r4, p3);
    lemma_split(b, t.amount, r5, p4);
    lemma_split(b, t.installments_name, r6, p5);
    lemma_split(b, t.installments, r7, p6);
    lemma_split(b, t.requested_at_name, quoted(t.requested_at), p7);
    lemma_named_string(b, p, t.id_name, t.id);
    lemma_name_begins(b, t.amount_name, p3);
    lemma_value(b, p2, t.transaction_name);
    lemma_name_begins(b, t.installments_name, p5);
    lemma_named_token(b, p3, t.amount_name, t.amount);
    assert(is_fraction_text(t.amount) ==> next_fraction(b, p3) == Some((t.amount, p5)));
    lemma_name_begins(b, t.requested_at_name, p7);
    lemma_named_token(b, p5, t.installments_name, t.installments);
    assert(unsigned_value(t.installments, 0xff) is Some ==> next_count(b, p5) == Some(
        (unsigned_value(t.installments, 0xff)->0, p7),
    ));
    lemma_timestamp(b, p8, t.requested_at);
    lemma_value(b, p7, t.requested_at_name);
    assert(t.is_meant() ==> next_dated(b, p7) == Some(
        (t.moment(), p8 + quoted(t.requested_at).len()),
    ));
}

/// The items of a list are read.
proof fn lemma_items(
    b: Seq<u8>,
    p: int,
    lead: Seq<u8>,
    items: Seq<(Seq<u8>, Seq<u8>)>,
    seen: Seq<Seq<u8>>,
)
    requires
        occurs_at(b, lead + items_text(items), p),
        is_separator(lead),
        forall|i: int|
            0 <= i < items.len() ==> is_quotable((#[trigger] items[i]).0) && is_separator(
                items[i].1,
            ),
    ensures
        strings_from(b, p, seen) == Some(
            (seen + ids_of(items), p + lead.len() + items_text(items).len()),
        ),
    decreases items.len(),
{
    let q = p + lead.len();
    lemma_split(b, lead, items_text(items), p);
    lemma_bytes(b, lead, p);
    assert forall|i: int| p <= i < q implies is_space(#[trigger] b[i]) || b[i] == COMMA by {
        assert(b[p + (i - p)] == lead[i - p]);
    }
    if items.len() == 0 {
        lemma_bytes(b, items_text(items), q);
        assert(b[q + 0] == items_text(items)[0]);
        lemma_separators(b, p, q);
        assert(seen + ids_of(items) =~= seen);
    } else {
        let id = items[0].0;
        let rest = items.drop_first();
        lemma_split(b, quoted(id), items[0].1 + items_text(rest), q);
        lemma_string(b, q, id);
        lemma_separators(b, p, q);
        assert forall|i: int| 0 <= i < rest.len() implies is_quotable((#[trigger] rest[i]).0)
            && is_separator(rest[i].1) by {
            assert(rest[i] == items[i + 1]);
        }
        lemma_items(b, (q + quoted(id).len()) as int, items[0].1, rest, seen.push(id));
        assert(seen.push(id) + ids_of(rest) =~= seen + ids_of(items));
    }
}

proof fn lemma_customer_is_read(b: Seq<u8>, p: int, t: CustomerText)
    requires
        occurs_at(b, t.text(), p),
        t.is_formed(),
    ensures
        t.is_meant() ==> customer_part(b, p) == Some(
            (
                (t.avg_amount, unsigned_value(t.tx_count, 0xff)->0, ids_of(t.known)),
                p + t.text().len(),
            ),
        ),
        !t.is_meant() ==> customer_part(b, p) is None,
{
    let r7 = t.known_lead + items_text(t.known);
    let r6 = seq![OPEN_BRACKET] + r7;
    let r5 = t.known_name + r6;
    let r4 = t.tx_count + r5;
    let r3 = t.tx_count_name + r4;
    let r2 = t.avg_amount + r3;
    let r1 = t.avg_amount_name + r2;
    let p1 = p + t.customer_name.len();
    let p2 = p1 + t.avg_amount_name.len();
    let p3 = p2 + t.avg_amount.len();
    let p4 = p3 + t.tx_count_name.len();
    let p5 = p4 + t.tx_count.len();
    let p6 = p5 + t.known_name.len();
    lemma_split(b, t.customer_name, r1, p);
    lemma_split(b, t.avg_amount_name, r2, p1);
    lemma_split(b, t.avg_amount, r3, p2);
    lemma_split(b, t.tx_count_name, r4, p3);
    lemma_split(b, t.tx_count, r5, p4);
    lemma_split(b, t.known_name, r6, p5);
    lemma_split(b, seq![OPEN_BRACKET], r7, p6);
    lemma_name_begins(b, t.avg_amount_name, p1);
    lemma_value(b, p, t.customer_name);
    lemma_name_begins(b, t.tx_count_name, p3);
    lemma_named_token(b, p1, t.avg_amount_name, t.avg_amount);
    assert(is_fraction_text(t.avg_amount) ==> next_fraction(b, p1) == Some((t.avg_amount, p3)));
    lemma_name_begins(b, t.known_name, p5);
    lemma_named_token(b, p3, t.tx_count_name, t.tx_count);
    assert(unsigned_value(t.tx_count, 0xff) is Some ==> next_count(b, p3) == Some(
        (unsigned_value(t.tx_count, 0xff)->0, p5),
    ));
    lemma_bytes(b, seq![OPEN_BRACKET], p6);
    assert(b[p6 + 0] == seq![OPEN_BRACKET][0]);
    lemma_value(b, p5, t.known_name);
    assert(is_first(b, OPEN_BRACKET, p6, p6));
    lemma_first_is_found(b, OPEN_BRACKET, p6, p6);
    lemma_items(b, p6 + 1, t.known_lead, t.known, Seq::empty());
    assert(Seq::<Seq<u8>>::empty() + ids_of(t.known) =~= ids_of(t.known));
    assert(next_list(b, p5) == Some((ids_of(t.known), p6 + 1 + r7.len())));
}

proof fn lemma_merchant_is_read(b: Seq<u8>, p: int, t: MerchantText)
    requires
        occurs_at(b, t.text(), p),
        t.is_formed(),
        p + t.text().len() < b.len() ==> ends_token(b[p + t.text().len()]),
    ensures
        t.is_meant() ==> merchant_part(b, p) == Some(
            ((t.id, unsigned_value(t.mcc, 0xffff_ffff)->0, t.avg_amount), p + t.text().len()),
        ),
        !t.is_meant() ==> merchant_part(b, p) is None,
{
    let r5 = t.avg_amount_name + t.avg_amount;
    let r4 = quoted(t.mcc) + r5;
    let r3 = t.mcc_name + r4;
    let r2 = quoted(t.id) + r3;
    let r1 = t.id_name + r2;
    let p1 = p + t.merchant_name.len();
    let p2 = p1 + t.id_name.len();
    let p3 = p2 + quoted(t.id).len();
    let p4 = p3 + t.mcc_name.len();
    let p5 = p4 + quoted(t.mcc).len();
    let p6 = p5 + t.avg_amount_name.len();
    lemma_split(b, t.merchant_name, r1, p);
    lemma_split(b, t.id_name, r2, p1);
    lemma_split(b, quoted(t.id), r3, p2);
    lemma_split(b, t.mcc_name, r4, p3);
    lemma_split(b, quoted(t.mcc), r5, p4);
    lemma_split(b, t.avg_amount_name, t.avg_amount, p5);
    assert(p6 + t.avg_amount.len() == p + t.text().len());
    lemma_name_begins(b, t.id_name, p1);
    lemma_value(b, p, t.merchant_name);
    lemma_named_string(b, p1, t.id_name, t.id);
    lemma_named_string(b, p3, t.mcc_name, t.mcc);
    lemma_named_token(b, p5, t.avg_amount_name, t.avg_amount);
    assert(is_fraction_text(t.avg_amount) ==> next_fraction(b, p5) == Some(
        (t.avg_amount, p6 + t.avg_amount.len()),
    ));
}

proof fn lemma_terminal_is_read(b: Seq<u8>, p: int, t: TerminalText)
    requires
        occurs_at(b, t.text(), p),
        t.is_formed(),
        p + t.text().len() < b.len() ==> ends_token(b[p + t.text().len()]),
    ensures
        t.is_meant() ==> terminal_part(b, p) == Some(
            (
                (t.is_online == true_word(), t.card_present == true_word(), t.km_from_home),
                p + t.text().len(),
            ),
        ),
        !t.is_meant() ==> terminal_part(b, p) is None,
{
    let r5 = t.km_from_home_name + t.km_from_home;
    let r4 = t.card_present + r5;
    let r3 = t.card_present_name + r4;
    let r2 = t.is_online + r3;
    let r1 = t.is_online_name + r2;
    let p1 = p + t.terminal_name.len();
    let p2 = p1 + t.is_online_name.len();
    let p3 = p2 + t.is_online.len();
    let p4 = p3 + t.card_present_name.len();
    let p5 = p4 + t.card_present.len();
    let p6 = p5 + t.km_from_home_name.len();
    lemma_split(b, t.terminal_name, r1, p);
    lemma_split(b, t.is_online_name, r2, p1);
    lemma_split(b, t.is_online, r3, p2);
    lemma_split(b, t.card_present_name, r4, p3);
    lemma_split(b, t.card_present, r5, p4);
    lemma_split(b, t.km_from_home_name, t.km_from_home, p5);
    assert(p6 + t.km_from_home.len() == p + t.text().len());
    lemma_name_begins(b, t.is_online_name, p1);
    lemma_value(b, p, t.terminal_name);
    lemma_name_begins(b, t.card_present_name, p3);
    lemma_named_token(b, p1, t.is_online_name, t.is_online);
    assert(is_flag(t.is_online) ==> next_flag(b, p1) == Some((t.is_online == true_word(), p3)));
    lemma_name_begins(b, t.km_from_home_name, p5);
    lemma_named_token(b, p3, t.card_present_name, t.card_present);
    assert(is_flag(t.card_present) ==> next_flag(b, p3) == Some(
        (t.card_present == true_word(), p5),
    ));
    lemma_named_token(b, p5, t.km_from_home_name, t.km_from_home);
    assert(is_fraction_text(t.km_from_home) ==> next_fraction(b, p5) == Some(
        (t.km_from_home, p6 + t.km_from_home.len()),
    ));
}

proof fn lemma_last_is_read(b: Seq<u8>, p: int, name: Seq<u8>, t: LastText, cur: Moment)
    requires
        occurs_at(b, name, p),
        is_name(name),
        occurs_at(b, t.text(), p + name.len()),
        t.is_formed(),
        p + name.len() + t.text().len() < b.len() ==> ends_token(
            b[p + name.len() + t.text().len()],
        ),
    ensures
        t.is_meant() ==> last_part(b, p, cur) == Some(
            (true, minutes_from(moment_at(t.timestamp, 0)->0, cur), t.km_from_current),
        ),
        !t.is_meant() ==> last_part(b, p, cur) is None,
{
    let r3 = t.km_from_current_name + t.km_from_current;
    let r2 = quoted(t.timestamp) + r3;
    let r1 = t.timestamp_name + r2;
    let q = p + name.len();
    let p2 = q + 1 + t.timestamp_name.len();
    let p3 = p2 + quoted(t.timestamp).len();
    let p4 = p3 + t.km_from_current_name.len();
    lemma_split(b, seq![OPEN_BRACE], r1, q);
    lemma_split(b, t.timestamp_name, r2, q + 1);
    lemma_split(b, quoted(t.timestamp), r3, p2);
    lemma_split(b, t.km_from_current_name, t.km_from_current, p3);
    assert(p4 + t.km_from_current.len() == q + t.text().len());
    lemma_bytes(b, seq![OPEN_BRACE], q);
    assert(b[q + 0] == seq![OPEN_BRACE][0]);
    lemma_value(b, p, name);
    assert(!occurs_at(b, null_word(), q)) by {
        if occurs_at(b, null_word(), q) {
            lemma_bytes(b, null_word(), q);
            assert(b[q + 0] == null_word()[0]);
        }
    }
    lemma_timestamp(b, p2, t.timestamp);
    lemma_value(b, q + 1, t.timestamp_name);
    lemma_named_token(b, p3, t.km_from_current_name, t.km_from_current);
    assert(is_fraction_text(t.km_from_current) ==> next_fraction(b, p3) == Some(
        (t.km_from_current, p4 + t.km_from_current.len()),
    ));
}

proof fn lemma_null_is_read(b: Seq<u8>, p: int, name: Seq<u8>, cur: Moment)
    requires
        occurs_at(b, name, p),
        is_name(name),
        occurs_at(b, null_word(), p + name.len()),
    ensures
        last_part(b, p, cur) == Some((false, 0int, seq![ZERO])),
{
    let q = p + name.len();
    lemma_bytes(b, null_word(), q);
    assert(b[q + 0] == null_word()[0]);
    lemma_value(b, p, name);
}

/// Eight parts one after the other each occur in their place.
proof fn lemma_parts(
    x0: Seq<u8>,
    x1: Seq<u8>,
    x2: Seq<u8>,
    x3: Seq<u8>,
    x4: Seq<u8>,
    x5: Seq<u8>,
    x6: Seq<u8>,
    x7: Seq<u8>,
)
    ensures
        ({
            let b = x0 + (x1 + (x2 + (x3 + (x4 + (x5 + (x6 + x7))))));
            let p1 = x0.len() as int;
            let p2 = p1 + x1.len();
            let p3 = p2 + x2.len();
            let p4 = p3 + x3.len();
            let p5 = p4 + x4.len();
            let p6 = p5 + x5.len();
            &&& occurs_at(b, x0, 0)
            &&& occurs_at(b, x1, p1)
            &&& occurs_at(b, x2, p2)
            &&& occurs_at(b, x3, p3)
            &&& occurs_at(b, x4, p4)
            &&& occurs_at(b, x5, p5)
            &&& occurs_at(b, x6, p6)
            &&& occurs_at(b, x7, p6 + x6.len())
            &&& b.len() == p6 + x6.len() + x7.len()
        }),
{
    let r6 = x6 + x7;
    let r5 = x5 + r6;
    let r4 = x4 + r5;
    let r3 = x3 + r4;
    let r2 = x2 + r3;
    let r1 = x1 + r2;
    let b = x0 + r1;
    let p1 = x0.len() as int;
    let p2 = p1 + x1.len();
    let p3 = p2 + x2.len();
    let p4 = p3 + x3.len();
    let p5 = p4 + x4.len();
    let p6 = p5 + x5.len();
    assert(b.subrange(0, b.len() as int) =~= b);
    lemma_split(b, x0, r1, 0);
    lemma_split(b, x1, r2, p1);
    lemma_split(b, x2, r3, p2);
    lemma_split(b, x3, r4, p3);
    lemma_split(b, x4, r5, p4);
    lemma_split(b, x5, r6, p5);
    lemma_split(b, x6, x7, p6);
}

/// The first brace is the end of the head.
proof fn lemma_head(b: Seq<u8>, head: Seq<u8>)
    requires
        occurs_at(b, head, 0),
        first_from(head, OPEN_BRACE, 0) == Some(head.len() - 1),
    ensures
        first_from(b, OPEN_BRACE, 0) == Some(head.len() - 1),
{
    let e = head.len() - 1;
    lemma_first_from(head, OPEN_BRACE, 0);
    lemma_bytes(b, head, 0);
    assert forall|j: int| 0 <= j < e implies b[j] != OPEN_BRACE by {
        assert(b[0 + j] == head[j]);
    }
    assert(b[0 + e] == head[e]);
    assert(is_first(b, OPEN_BRACE, 0, e));
    lemma_first_is_found(b, OPEN_BRACE, 0, e);
}

/// What is written of a customer has two names at least.
proof fn lemma_customer_begins(b: Seq<u8>, p: int, t: CustomerText)
    requires
        occurs_at(b, t.text(), p),
        t.is_formed(),
    ensures
        p + 2 <= b.len(),
{
    let r2 = t.avg_amount + (t.tx_count_name + (t.tx_count + (t.known_name + (seq![OPEN_BRACKET] + (
    t.known_lead + items_text(t.known))))));
    lemma_split(b, t.customer_name, t.avg_amount_name + r2, p);
    lemma_split(b, t.avg_amount_name, r2, p + t.customer_name.len());
    lemma_name_begins(b, t.customer_name, p);
    lemma_name_begins(b, t.avg_amount_name, p + t.customer_name.len());
}

/// What is written of a terminal begins with the end of an unquoted value.
proof fn lemma_terminal_begins(b: Seq<u8>, p: int, t: TerminalText)
    requires
        occurs_at(b, t.text(), p),
        t.is_formed(),
    ensures
        p < b.len(),
        ends_token(b[p]),
{
    lemma_split(
        b,
        t.terminal_name,
        t.is_online_name + (t.is_online + (t.card_present_name + (t.card_present + (
        t.km_from_home_name + t.km_from_home)))),
        p,
    );
    lemma_name_begins(b, t.terminal_name, p);
}

/// The last part of a request is read.
proof fn lemma_last_part_is_read(b: Seq<u8>, p: int, r: RequestText)
    requires
        r.is_formed(),
        occurs_at(b, r.last_name, p),
        occurs_at(b, r.last_text(), p + r.last_name.len()),
        occurs_at(b, r.tail, p + r.last_name.len() + r.last_text().len()),
        b.len() == p + r.last_name.len() + r.last_text().len() + r.tail.len(),
    ensures
        (r.last matches Some(last) ==> last.is_meant()) ==> last_part(
            b,
            p,
            r.transaction.moment(),
        ) == Some((r.last is Some, r.says().minutes_since_last, r.says().km_from_current)),
        (r.last matches Some(last) && !last.is_meant()) ==> last_part(
            b,
            p,
            r.transaction.moment(),
        ) is None,
{
    let e = p + r.last_name.len() + r.last_text().len();
    if e < b.len() {
        lemma_bytes(b, r.tail, e);
        assert(b[e + 0] == r.tail[0]);
    }
    match r.last {
        Some(last) => {
            lemma_last_is_read(b, p, r.last_name, last, r.transaction.moment());
        },
        None => {
            lemma_null_is_read(b, p, r.last_name, r.transaction.moment());
        },
    }
}

/// The parts of a request before the last are read.
proof fn lemma_parts_are_read(r: RequestText)
    requires
        r.is_valid(),
    ensures
        ({
            let b = r.text();
            let p1 = r.head.len() as int;
            let p2 = p1 + r.transaction.text().len();
            let p3 = p2 + r.customer.text().len();
            let p4 = p3 + r.merchant.text().len();
            let p5 = p4 + r.terminal.text().len();
            let p6 = p5 + r.last_name.len();
            &&& first_from(b, OPEN_BRACE, 0) == Some(p1 - 1)
            &&& transaction_part(b, p1) == Some(
                (
                    (
                        r.transaction.amount,
                        unsigned_value(r.transaction.installments, 0xff)->0,
                        r.transaction.moment(),
                    ),
                    p2,
                ),
            )
            &&& customer_part(b, p2) == Some(
                (
                    (
                        r.customer.avg_amount,
                        unsigned_value(r.customer.tx_count, 0xff)->0,
                        ids_of(r.customer.known),
                    ),
                    p3,
                ),
            )
            &&& merchant_part(b, p3) == Some(
                (
                    (
                        r.merchant.id,
                        unsigned_value(r.merchant.mcc, 0xffff_ffff)->0,
                        r.merchant.avg_amount,
                    ),
                    p4,
                ),
            )
            &&& terminal_part(b, p4) == Some(
                (
                    (
                        r.terminal.is_online == true_word(),
                        r.terminal.card_present == true_word(),
                        r.terminal.km_from_home,
                    ),
                    p5,
                ),
            )
            &&& occurs_at(b, r.last_name, p5)
            &&& occurs_at(b, r.last_text(), p6)
            &&& occurs_at(b, r.tail, p6 + r.last_text().len())
            &&& b.len() == p6 + r.last_text().len() + r.tail.len()
        }),
{
    let b = r.text();
    let t = r.transaction.text();
    let c = r.customer.text();
    let m = r.merchant.text();
    let e = r.terminal.text();
    let p1 = r.head.len() as int;
    let p2 = p1 + t.len();
    let p3 = p2 + c.len();
    let p4 = p3 + m.len();
    let p5 = p4 + e.len();
    lemma_parts(r.head, t, c, m, e, r.last_name, r.last_text(), r.tail);
    lemma_head(b, r.head);
    lemma_customer_begins(b, p2, r.customer);
    lemma_transaction_is_read(b, p1, r.transaction);
    lemma_customer_is_read(b, p2, r.customer);
    lemma_terminal_begins(b, p4, r.terminal);
    lemma_merchant_is_read(b, p3, r.merchant);
    lemma_name_begins(b, r.last_name, p5);
    lemma_terminal_is_read(b, p4, r.terminal);
}

/// A request whose values stand in their order is read, and read as what the
/// values say.
pub proof fn values_in_order_are_read(r: RequestText)
    requires
        r.is_valid(),
    ensures
        request(r.text()) == Some(r.says()),
{
    let p = r.head.len() + r.transaction.text().len() + r.customer.text().len()
        + r.merchant.text().len() + r.terminal.text().len();
    lemma_parts_are_read(r);
    lemma_last_part_is_read(r.text(), p as int, r);
}

/// A request in which a value is not what it should be (a count that is no number
/// or too large, a flag that is neither word, a moment that is none, a fraction
/// that is none) is not read, whatever its other values are.
pub proof fn other_values_are_not_read(r: RequestText)
    requires
        r.is_formed(),
        !r.is_meant(),
    ensures
        request(r.text()) is None,
{
    let b = r.text();
    let t = r.transaction.text();
    let c = r.customer.text();
    let m = r.merchant.text();
    let e = r.terminal.text();
    let p1 = r.head.len() as int;
    let p2 = p1 + t.len();
    let p3 = p2 + c.len();
    let p4 = p3 + m.len();
    let p5 = p4 + e.len();
    lemma_parts(r.head, t, c, m, e, r.last_name, r.last_text(), r.tail);
    lemma_head(b, r.head);
    lemma_customer_begins(b, p2, r.customer);
    lemma_transaction_is_read(b, p1, r.transaction);
    lemma_customer_is_read(b, p2, r.customer);
    lemma_terminal_begins(b, p4, r.terminal);
    lemma_merchant_is_read(b, p3, r.merchant);
    lemma_name_begins(b, r.last_name, p5);
    lemma_terminal_is_read(b, p4, r.terminal);
    lemma_last_part_is_read(b, p5, r);
}

/// What is read of the start of a request: nothing, the same as of all of it,
/// or something that reaches to where it was cut.
spec fn agrees<T>(part: Option<(T, int)>, whole: Option<(T, int)>, n: int) -> bool {
    part matches Some((_, q)) ==> q <= n && (q == n || part == whole)
}

/// A byte that stands in the start of a request stands in the request.
proof fn lemma_cut_first(b: Seq<u8>, n: int, c: u8, p: int)
    requires
        0 <= n <= b.len(),
        0 <= p,
    ensures
        first_from(b.take(n), c, p) matches Some(i) ==> first_from(b, c, p) == Some(i) && p <= i
            < n,
        p >= n ==> first_from(b.take(n), c, p) is None,
{
    lemma_first_from(b.take(n), c, p);
    if let Some(i) = first_from(b.take(n), c, p) {
        assert forall|j: int| p <= j < i implies b[j] != c by {
            assert(b.take(n)[j] == b[j]);
        }
        assert(is_first(b, c, p, i));
        lemma_first_is_found(b, c, p, i);
    }
}

proof fn lemma_cut_space(b: Seq<u8>, n: int, p: int)
    requires
        0 <= p <= n <= b.len(),
    ensures
        p <= after_space(b.take(n), p) <= n,
        after_space(b.take(n), p) < n ==> after_space(b, p) == after_space(b.take(n), p),
    decreases n - p,
{
    if p < n {
        assert(b.take(n)[p] == b[p]);
        if is_space(b[p]) {
            lemma_cut_space(b, n, p + 1);
        }
    }
}

proof fn lemma_cut_separators(b: Seq<u8>, n: int, p: int)
    requires
        0 <= p <= n <= b.len(),
    ensures
        p <= after_separators(b.take(n), p) <= n,
        after_separators(b.take(n), p) < n ==> after_separators(b, p) == after_separators(
            b.take(n),
            p,
        ),
    decreases n - p,
{
    if p < n {
        assert(b.take(n)[p] == b[p]);
        if is_space(b[p]) || b[p] == COMMA {
            lemma_cut_separators(b, n, p + 1);
        }
    }
}

/// A value starts where it does in the whole, unless the cut is reached.
proof fn lemma_cut_value(b: Seq<u8>, n: int, p: int)
    requires
        0 <= p <= n <= b.len(),
    ensures
        value_start(b.take(n), p) matches Some(q) ==> p < q <= n && (q == n || value_start(b, p)
            == Some(q)),
        p == n ==> value_start(b.take(n), p) is None,
{
    lemma_cut_first(b, n, COLON, p);
    if let Some(i) = first_from(b.take(n), COLON, p) {
        lemma_cut_space(b, n, i + 1);
    }
}

proof fn lemma_cut_string(b: Seq<u8>, n: int, p: int)
    requires
        0 <= p <= n <= b.len(),
    ensures
        string_at(b.take(n), p) is Some ==> string_at(b, p) == string_at(b.take(n), p) && p < (
        string_at(b.take(n), p)->0).1 <= n,
{
    lemma_cut_first(b, n, QUOTE, p + 1);
    if let Some((s, q)) = string_at(b.take(n), p) {
        assert(b.take(n)[p] == b[p]);
        assert(b.take(n).subrange(p + 1, q - 1) =~= b.subrange(p + 1, q - 1));
    }
}

proof fn lemma_cut_token_end(b: Seq<u8>, n: int, p: int)
    requires
        0 <= p <= n <= b.len(),
    ensures
        p <= token_end(b.take(n), p) <= n,
        token_end(b.take(n), p) < n ==> token_end(b, p) == token_end(b.take(n), p),
    decreases n - p,
{
    if p < n {
        assert(b.take(n)[p] == b[p]);
        if !ends_token(b[p]) {
            lemma_cut_token_end(b, n, p + 1);
        }
    }
}

proof fn lemma_cut_token(b: Seq<u8>, n: int, p: int)
    requires
        0 <= p <= n <= b.len(),
    ensures
        agrees(next_token(b.take(n), p), next_token(b, p), n),
        p == n ==> next_token(b.take(n), p) is None,
        next_token(b.take(n), p) matches Some((_, q)) ==> p < q,
{
    lemma_cut_value(b, n, p);
    if let Some(s) = value_start(b.take(n), p) {
        lemma_cut_token_end(b, n, s);
        let e = token_end(b.take(n), s);
        if s < e < n {
            assert(b.take(n).subrange(s, e) =~= b.subrange(s, e));
        }
    }
}

proof fn lemma_cut_next_string(b: Seq<u8>, n: int, p: int)
    requires
        0 <= p <= n <= b.len(),
    ensures
        next_string(b.take(n), p) is Some ==> next_string(b, p) == next_string(b.take(n), p) && p
            < (next_string(b.take(n), p)->0).1 <= n,
{
    lemma_cut_value(b, n, p);
    if let Some(s) = value_start(b.take(n), p) {
        lemma_cut_string(b, n, s);
    }
}

proof fn lemma_cut_moment(b: Seq<u8>, n: int, p: int)
    requires
        0 <= p <= n <= b.len(),
    ensures
        moment_at(b.take(n), p) is Some ==> moment_at(b, p) == moment_at(b.take(n), p),
{
    let c = b.take(n);
    if moment_at(c, p) is Some {
        assert forall|i: int| p <= i < p + 16 implies #[trigger] c[i] == b[i] by {}
        assert(digits4(b, p) == digits4(c, p));
        assert(digits2(b, p + 5) == digits2(c, p + 5));
        assert(digits2(b, p + 8) == digits2(c, p + 8));
        assert(digits2(b, p + 11) == digits2(c, p + 11));
        assert(digits2(b, p + 14) == digits2(c, p + 14));
    }
}

proof fn lemma_cut_dated(b: Seq<u8>, n: int, p: int)
    requires
        0 <= p <= n <= b.len(),
    ensures
        next_dated(b.take(n), p) is Some ==> next_dated(b, p) == next_dated(b.take(n), p) && p < (
        next_dated(b.take(n), p)->0).1 <= n,
{
    lemma_cut_value(b, n, p);
    if let Some(s) = value_start(b.take(n), p) {
        if s < n {
            assert(b.take(n)[s] == b[s]);
            lemma_cut_moment(b, n, s + 1);
            lemma_cut_first(b, n, QUOTE, s + 1);
        }
    }
}

proof fn lemma_cut_strings(b: Seq<u8>, n: int, p: int, seen: Seq<Seq<u8>>)
    requires
        0 <= p <= n <= b.len(),
    ensures
        strings_from(b.take(n), p, seen) is Some ==> strings_from(b, p, seen) == strings_from(
            b.take(n),
            p,
            seen,
        ) && p < (strings_from(b.take(n), p, seen)->0).1 <= n,
    decreases n - p,
{
    let c = b.take(n);
    lemma_cut_separators(b, n, p);
    let q = after_separators(c, p);
    if q < n {
        assert(c[q] == b[q]);
        if c[q] == CLOSE_BRACKET {
        } else if c[q] == QUOTE {
            lemma_cut_string(b, n, q);
            if let Some((s, e)) = string_at(c, q) {
                lemma_cut_strings(b, n, e, seen.push(s));
            }
        } else {
            lemma_cut_strings(b, n, q + 1, seen);
        }
    }
}

proof fn lemma_cut_list(b: Seq<u8>, n: int, p: int)
    requires
        0 <= p <= n <= b.len(),
    ensures
        next_list(b.take(n), p) is Some ==> next_list(b, p) == next_list(b.take(n), p) && p < (
        next_list(b.take(n), p)->0).1 <= n,
{
    lemma_cut_value(b, n, p);
    if let Some(s) = value_start(b.take(n), p) {
        lemma_cut_first(b, n, OPEN_BRACKET, s);
        if let Some(i) = first_from(b.take(n), OPEN_BRACKET, s) {
            lemma_cut_strings(b, n, i + 1, Seq::empty());
        }
    }
}

proof fn lemma_cut_transaction(b: Seq<u8>, n: int, p: int)
    requires
        0 <= p <= n <= b.len(),
    ensures
        transaction_part(b.take(n), p) is Some ==> transaction_part(b, p) == transaction_part(
            b.take(n),
            p,
        ) && p < (transaction_part(b.take(n), p)->0).1 <= n,
{
    let c = b.take(n);
    if transaction_part(c, p) is Some {
        lemma_cut_next_string(b, n, p);
        let p1 = (next_string(c, p)->0).1;
        lemma_cut_value(b, n, p1);
        let p2 = value_start(c, p1)->0;
        lemma_cut_token(b, n, p2);
        let p3 = (next_fraction(c, p2)->0).1;
        lemma_cut_token(b, n, p3);
        let p4 = (next_count(c, p3)->0).1;
        lemma_cut_dated(b, n, p4);
    }
}

proof fn lemma_cut_customer(b: Seq<u8>, n: int, p: int)
    requires
        0 <= p <= n <= b.len(),
    ensures
        customer_part(b.take(n), p) is Some ==> customer_part(b, p) == customer_part(b.take(n), p)
            && p < (customer_part(b.take(n), p)->0).1 <= n,
{
    let c = b.take(n);
    if customer_part(c, p) is Some {
        lemma_cut_value(b, n, p);
        let p1 = value_start(c, p)->0;
        lemma_cut_token(b, n, p1);
        let p2 = (next_fraction(c, p1)->0).1;
        lemma_cut_token(b, n, p2);
        let p3 = (next_count(c, p2)->0).1;
        lemma_cut_list(b, n, p3);
    }
}

proof fn lemma_cut_merchant(b: Seq<u8>, n: int, p: int)
    requires
        0 <= p <= n <= b.len(),
    ensures
        agrees(merchant_part(b.take(n), p), merchant_part(b, p), n),
        merchant_part(b.take(n), p) matches Some((_, q)) ==> p < q,
{
    let c = b.take(n);
    if merchant_part(c, p) is Some {
        lemma_cut_value(b, n, p);
        let p1 = value_start(c, p)->0;
        lemma_cut_next_string(b, n, p1);
        let p2 = (next_string(c, p1)->0).1;
        lemma_cut_next_string(b, n, p2);
        let p3 = (next_string(c, p2)->0).1;
        lemma_cut_token(b, n, p3);
    }
}

proof fn lemma_cut_terminal(b: Seq<u8>, n: int, p: int)
    requires
        0 <= p <= n <= b.len(),
    ensures
        agrees(terminal_part(b.take(n), p), terminal_part(b, p), n),
        terminal_part(b.take(n), p) matches Some((_, q)) ==> p < q,
        p == n ==> terminal_part(b.take(n), p) is None,
{
    let c = b.take(n);
    lemma_cut_value(b, n, p);
    if terminal_part(c, p) is Some {
        let p1 = value_start(c, p)->0;
        lemma_cut_token(b, n, p1);
        let p2 = (next_flag(c, p1)->0).1;
        lemma_cut_token(b, n, p2);
        let p3 = (next_flag(c, p2)->0).1;
        lemma_cut_token(b, n, p3);
    }
}

/// Where the last part starts in a request that can be read.
spec fn last_start(b: Seq<u8>) -> int {
    let i = first_from(b, OPEN_BRACE, 0)->0;
    let p1 = (transaction_part(b, i + 1)->0).1;
    let p2 = (customer_part(b, p1)->0).1;
    let p3 = (merchant_part(b, p2)->0).1;
    (terminal_part(b, p3)->0).1
}

/// If the start of a request can be read, its parts before the last are those
/// of the whole.
proof fn lemma_cut_parts(b: Seq<u8>, n: int)
    requires
        0 <= n <= b.len(),
        request(b.take(n)) is Some,
    ensures
        first_from(b.take(n), OPEN_BRACE, 0) == first_from(b, OPEN_BRACE, 0),
        last_start(b.take(n)) == last_start(b),
        0 <= last_start(b) < n,
        ({
            let i = first_from(b, OPEN_BRACE, 0)->0;
            let p1 = (transaction_part(b, i + 1)->0).1;
            let p2 = (customer_part(b, p1)->0).1;
            let p3 = (merchant_part(b, p2)->0).1;
            &&& first_from(b, OPEN_BRACE, 0) is Some
            &&& transaction_part(b.take(n), i + 1) == transaction_part(b, i + 1)
            &&& customer_part(b.take(n), p1) == customer_part(b, p1)
            &&& merchant_part(b.take(n), p2) == merchant_part(b, p2)
            &&& terminal_part(b.take(n), p3) == terminal_part(b, p3)
        }),
{
    let c = b.take(n);
    lemma_cut_first(b, n, OPEN_BRACE, 0);
    let i = first_from(c, OPEN_BRACE, 0)->0;
    lemma_cut_transaction(b, n, i + 1);
    let (head, p1) = transaction_part(c, i + 1)->0;
    lemma_cut_customer(b, n, p1);
    let p2 = (customer_part(c, p1)->0).1;
    lemma_cut_merchant(b, n, p2);
    let p3 = (merchant_part(c, p2)->0).1;
    lemma_cut_terminal(b, n, p3);
    let p4 = (terminal_part(c, p3)->0).1;
    lemma_cut_value(b, n, p4);
    assert(last_part(c, p4, head.2) is Some);
}

/// A null that is cut is not read.
proof fn lemma_cut_null(b: Seq<u8>, n: int, p: int, name: Seq<u8>, cur: Moment)
    requires
        0 <= p <= n <= b.len(),
        occurs_at(b, name, p),
        is_name(name),
        occurs_at(b, null_word(), p + name.len()),
        n < p + name.len() + null_word().len(),
    ensures
        last_part(b.take(n), p, cur) is None,
{
    let c = b.take(n);
    let q = p + name.len();
    lemma_bytes(b, null_word(), q);
    assert(b[q + 0] == null_word()[0]);
    lemma_value(b, p, name);
    lemma_cut_value(b, n, p);
    if let Some(s) = value_start(c, p) {
        if s < n {
            assert(c[s] == b[s]);
        }
    }
}

/// The last part starts behind the others.
proof fn lemma_last_start(r: RequestText)
    requires
        r.is_valid(),
    ensures
        last_start(r.text()) == r.text().len() - r.tail.len() - r.last_text().len()
            - r.last_name.len(),
        occurs_at(r.text(), r.last_name, last_start(r.text())),
        occurs_at(r.text(), r.last_text(), last_start(r.text()) + r.last_name.len()),
{
    lemma_parts_are_read(r);
}

/// A request without a last transaction can be read from its start alone only
/// if that reaches to the end of the word that says so: a body that was cut
/// before is never read.
pub proof fn cut_bodies_are_not_read(r: RequestText, n: int)
    requires
        r.is_valid(),
        r.last is None,
        0 <= n < r.text().len() - r.tail.len(),
    ensures
        request(r.text().take(n)) is None,
{
    let b = r.text();
    if request(b.take(n)) is Some {
        lemma_last_start(r);
        lemma_cut_parts(b, n);
        let i = first_from(b, OPEN_BRACE, 0)->0;
        let at = (transaction_part(b, i + 1)->0).0.2;
        lemma_cut_null(b, n, last_start(b), r.last_name, at);
        assert(last_part(b.take(n), last_start(b), at) is Some);
    }
}

/// A null that is read stands in the whole.
proof fn lemma_cut_keeps_null(b: Seq<u8>, n: int, p: int, cur: Moment)
    requires
        0 <= p <= n <= b.len(),
        last_part(b.take(n), p, cur) is Some,
        !(last_part(b.take(n), p, cur)->0).0,
    ensures
        last_part(b, p, cur) == last_part(b.take(n), p, cur),
{
    let c = b.take(n);
    lemma_cut_value(b, n, p);
    let s = value_start(c, p)->0;
    assert(occurs_at(c, null_word(), s));
    assert(c.subrange(s, s + 4) =~= b.subrange(s, s + 4));
}

/// What was read of the start of a request is what the request says, unless it
/// has a last transaction, whose distance may go on.
#[verifier::spinoff_prover]
pub proof fn a_longer_body_is_read_alike(b: Seq<u8>, n: int)
    requires
        0 <= n <= b.len(),
        request(b.take(n)) is Some,
        !request(b.take(n))->0.has_last_tx,
    ensures
        request(b) == request(b.take(n)),
{
    lemma_cut_parts(b, n);
    let i = first_from(b, OPEN_BRACE, 0)->0;
    let at = (transaction_part(b, i + 1)->0).0.2;
    lemma_cut_keeps_null(b, n, last_start(b), at);
}

} // verus!
