//! Turning a request into a query vector and a partition tag.
//!
//! A vector has fourteen dimensions and two of padding. Each dimension is a
//! fraction from 0 to 1 in ten-thousandths.

use vstd::prelude::*;

use crate::fraud::json::{Payload, PayloadView};

verus! {

/// One, in ten-thousandths.
pub const ONE: i16 = 10000;

/// What stands for a dimension that the request says nothing of.
pub const ABSENT: i16 = -10000;

/// The dimensions that come from fractions, in ten-thousandths: each is the
/// fraction over its scale, cut to the range from 0 to 1 and rounded.
#[derive(Debug, Clone, Copy, PartialEq, Eq, Structural)]
pub struct Scaled {
    /// The amount over 10000.
    pub amount: i16,
    /// The amount over ten times the customer's average; 0 where that average
    /// is not positive.
    pub amount_to_average: i16,
    /// The distance from the last transaction over 1000.
    pub km_from_current: i16,
    /// The distance from home over 1000.
    pub km_from_home: i16,
    /// The merchant's average amount over 10000.
    pub merchant_avg_amount: i16,
}

impl Scaled {
    /// Every dimension lies between 0 and 1.
    pub open spec fn in_range(&self) -> bool {
        &&& 0 <= self.amount <= ONE
        &&& 0 <= self.amount_to_average <= ONE
        &&& 0 <= self.km_from_current <= ONE
        &&& 0 <= self.km_from_home <= ONE
        &&& 0 <= self.merchant_avg_amount <= ONE
    }
}

/// `n` over `scale`, cut to the range from 0 to 1, in ten-thousandths, halves
/// rounded up.
pub open spec fn share(n: int, scale: int) -> int {
    let m = if n < 0 {
        0
    } else if n > scale {
        scale
    } else {
        n
    };
    (20000 * m + scale) / (2 * scale)
}

pub open spec fn flag(b: bool) -> int {
    if b {
        ONE as int
    } else {
        0
    }
}

/// The risk of a merchant category, in ten-thousandths.
pub open spec fn category_risk(mcc: int) -> int {
    if mcc == 5411 {
        1500
    } else if mcc == 5812 {
        3000
    } else if mcc == 5912 {
        2000
    } else if mcc == 5944 {
        4500
    } else if mcc == 7801 {
        8000
    } else if mcc == 7802 {
        7500
    } else if mcc == 7995 {
        8500
    } else if mcc == 4511 {
        3500
    } else if mcc == 5311 {
        2500
    } else {
        5000
    }
}

/// The vector of a request.
pub open spec fn vector_of(p: PayloadView, s: Scaled) -> Seq<int> {
    seq![
        s.amount as int,
        share(p.installments, 12),
        s.amount_to_average as int,
        share(p.hour, 23),
        share(p.weekday, 6),
        if p.has_last_tx { share(p.minutes_since_last, 1440) } else { ABSENT as int },
        if p.has_last_tx { s.km_from_current as int } else { ABSENT as int },
        s.km_from_home as int,
        share(p.tx_count_24h, 20),
        flag(p.is_online),
        flag(p.card_present),
        flag(p.is_unknown_merchant),
        category_risk(p.mcc),
        s.merchant_avg_amount as int,
        0,
        0,
    ]
}

/// The partition of a request: a bit for each of card present, online,
/// unknown merchant and a last transaction, from the highest to the lowest.
pub open spec fn tag_of(p: PayloadView) -> int {
    (if p.card_present {
        8int
    } else {
        0
    }) + (if p.is_online {
        4int
    } else {
        0
    }) + (if p.is_unknown_merchant {
        2int
    } else {
        0
    }) + (if p.has_last_tx {
        1int
    } else {
        0
    })
}

/// The values of a vector as integers.
pub open spec fn ints(v: Seq<i16>) -> Seq<int> {
    Seq::new(v.len(), |i: int| v[i] as int)
}

/// Integers as the values of a vector.
pub open spec fn shorts(v: Seq<int>) -> Seq<i16> {
    Seq::new(v.len(), |i: int| v[i] as i16)
}

fn scaled_share(n: i64, scale: i64) -> (r: i16)
    requires
        0 < scale <= 1440,
    ensures
        r == share(n as int, scale as int),
        0 <= r <= ONE,
{
    let m: i64 = if n < 0 {
        0
    } else if n > scale {
        scale
    } else {
        n
    };
    let r: i64 = (20000 * m + scale) / (2 * scale);
    proof {
        assert(0 <= (20000 * m + scale) / (2 * scale) <= 10000) by (nonlinear_arith)
            requires
                0 <= m <= scale,
                0 < scale,
        ;
    }
    r as i16
}

/// The risk of a merchant category, in ten-thousandths.
pub fn mcc_risk(mcc: u32) -> (r: i16)
    ensures
        r == category_risk(mcc as int),
{
    match mcc {
        5411 => 1500,
        5812 => 3000,
        5912 => 2000,
        5944 => 4500,
        7801 => 8000,
        7802 => 7500,
        7995 => 8500,
        4511 => 3500,
        5311 => 2500,
        _ => 5000,
    }
}

/// The vector of a request, whose fractions `s` gives.
pub fn vectorize(p: &Payload, s: &Scaled) -> (r: [i16; 16])
    ensures
        ints(r@) == vector_of(p@, *s),
        r@[9] == (if p.is_online {
            10000int
        } else {
            0
        }),
        r@[10] == (if p.card_present {
            10000int
        } else {
            0
        }),
        r@[11] == (if p.is_unknown_merchant {
            10000int
        } else {
            0
        }),
{
    let mut v: [i16; 16] = [0; 16];
    v[0] = s.amount;
    v[1] = scaled_share(p.installments as i64, 12);
    v[2] = s.amount_to_average;
    v[3] = scaled_share(p.hour as i64, 23);
    v[4] = scaled_share(p.weekday as i64, 6);
    if p.has_last_tx {
        v[5] = scaled_share(p.minutes_since_last, 1440);
        v[6] = s.km_from_current;
    } else {
        v[5] = ABSENT;
        v[6] = ABSENT;
    }
    v[7] = s.km_from_home;
    v[8] = scaled_share(p.tx_count_24h as i64, 20);
    v[9] = if p.is_online {
        ONE
    } else {
        0
    };
    v[10] = if p.card_present {
        ONE
    } else {
        0
    };
    v[11] = if p.is_unknown_merchant {
        ONE
    } else {
        0
    };
    v[12] = mcc_risk(p.mcc);
    v[13] = s.merchant_avg_amount;
    assert(ints(v@) =~= vector_of(p@, *s));
    v
}

/// The partition of a request.
pub fn tag_from_request(p: &Payload) -> (r: usize)
    ensures
        r == tag_of(p@),
        r < 16,
        r / 8 == 1 <==> p.card_present,
        r / 4 % 2 == 1 <==> p.is_online,
        r / 2 % 2 == 1 <==> p.is_unknown_merchant,
        r % 2 == 1 <==> p.has_last_tx,
{
    let card: usize = if p.card_present {
        8
    } else {
        0
    };
    let online: usize = if p.is_online {
        4
    } else {
        0
    };
    let unknown: usize = if p.is_unknown_merchant {
        2
    } else {
        0
    };
    let last: usize = if p.has_last_tx {
        1
    } else {
        0
    };
    card + online + unknown + last
}

/// A share lies between 0 and 1, and grows with what it is a share of.
pub proof fn shares_are_monotonic(a: int, b: int, scale: int)
    requires
        0 < scale,
        a <= b,
    ensures
        0 <= share(a, scale) <= share(b, scale) <= 10000,
        a <= 0 ==> share(a, scale) == 0,
        b >= scale ==> share(b, scale) == 10000,
{
    let ma = if a < 0 {
        0
    } else if a > scale {
        scale
    } else {
        a
    };
    let mb = if b < 0 {
        0
    } else if b > scale {
        scale
    } else {
        b
    };
    assert(0 <= (20000 * ma + scale) / (2 * scale) <= (20000 * mb + scale) / (2 * scale) <= 10000)
        by (nonlinear_arith)
        requires
            0 <= ma <= mb <= scale,
            0 < scale,
    ;
    assert(scale / (2 * scale) == 0) by (nonlinear_arith)
        requires
            0 < scale,
    ;
    assert((20000 * scale + scale) / (2 * scale) == 10000) by (nonlinear_arith)
        requires
            0 < scale,
    ;
}

/// Every dimension of a vector lies between 0 and 1 or is absent; only the two
/// that speak of the last transaction can be absent, and they are so together
/// and exactly when there is none; the padding is 0.
pub proof fn dimensions_are_in_range(p: PayloadView, s: Scaled)
    requires
        s.in_range(),
    ensures
        forall|i: int|
            0 <= i < 16 && i != 5 && i != 6 ==> 0 <= #[trigger] vector_of(p, s)[i] <= ONE,
        p.has_last_tx ==> 0 <= vector_of(p, s)[5] <= ONE && 0 <= vector_of(p, s)[6] <= ONE,
        !p.has_last_tx ==> vector_of(p, s)[5] == ABSENT && vector_of(p, s)[6] == ABSENT,
        vector_of(p, s)[14] == 0,
        vector_of(p, s)[15] == 0,
{
    shares_are_monotonic(p.installments, p.installments, 12);
    shares_are_monotonic(p.hour, p.hour, 23);
    shares_are_monotonic(p.weekday, p.weekday, 6);
    shares_are_monotonic(p.minutes_since_last, p.minutes_since_last, 1440);
    shares_are_monotonic(p.tx_count_24h, p.tx_count_24h, 20);
}

/// Two requests have the same tag exactly when they agree in all four bits.
pub proof fn tags_tell_partitions_apart(p: PayloadView, q: PayloadView)
    ensures
        0 <= tag_of(p) < 16,
        tag_of(p) == tag_of(q) <==> (p.card_present == q.card_present && p.is_online == q.is_online
            && p.is_unknown_merchant == q.is_unknown_merchant && p.has_last_tx == q.has_last_tx),
{
}

/// Whether `v` is the ten-thousandth that is nearest to `n` over `scale`, the
/// upper one of two that are as near, where `n` is cut to the range from 0 to
/// `scale`.
pub open spec fn is_share(v: int, n: int, scale: int) -> bool {
    &&& n <= 0 ==> v == 0
    &&& n >= scale ==> v == 10000
    &&& 0 <= n <= scale ==> -scale < 2 * (v * scale - 10000 * n) <= scale
}

/// A share is the nearest ten-thousandth.
proof fn lemma_share(n: int, scale: int)
    requires
        0 < scale,
    ensures
        is_share(share(n, scale), n, scale),
{
    shares_are_monotonic(n, n, scale);
    if 0 <= n <= scale {
        let x = 20000 * n + scale;
        let v = x / (2 * scale);
        vstd::arithmetic::div_mod::lemma_fundamental_div_mod(x, 2 * scale);
        vstd::arithmetic::div_mod::lemma_mod_bound(x, 2 * scale);
        assert(2 * scale * v == 2 * (v * scale)) by (nonlinear_arith);
    }
}

/// The counts of a request, its hour and its weekday each decide their own
/// dimension: instalments as a share of twelve, the hour of 23, the weekday of
/// six, the transactions of the day of twenty, and the minutes since the last
/// transaction of a day.
pub proof fn counts_decide_their_own_dimensions(p: PayloadView, s: Scaled)
    ensures
        vector_of(p, s).len() == 16,
        is_share(vector_of(p, s)[1], p.installments, 12),
        is_share(vector_of(p, s)[3], p.hour, 23),
        is_share(vector_of(p, s)[4], p.weekday, 6),
        is_share(vector_of(p, s)[8], p.tx_count_24h, 20),
        p.has_last_tx ==> is_share(vector_of(p, s)[5], p.minutes_since_last, 1440),
{
    lemma_share(p.installments, 12);
    lemma_share(p.hour, 23);
    lemma_share(p.weekday, 6);
    lemma_share(p.tx_count_24h, 20);
    lemma_share(p.minutes_since_last, 1440);
}

/// Each flag of a request decides its own dimension: one where it is set, and
/// 0 elsewhere.
pub proof fn flags_decide_their_own_dimensions(p: PayloadView, s: Scaled)
    ensures
        vector_of(p, s)[9] == 10000 <==> p.is_online,
        vector_of(p, s)[9] == 0 <==> !p.is_online,
        vector_of(p, s)[10] == 10000 <==> p.card_present,
        vector_of(p, s)[10] == 0 <==> !p.card_present,
        vector_of(p, s)[11] == 10000 <==> p.is_unknown_merchant,
        vector_of(p, s)[11] == 0 <==> !p.is_unknown_merchant,
{
}

/// The scaled fractions stand in their dimensions as they are; where there is
/// no last transaction, what speaks of it is -1; and the padding is 0.
pub proof fn fractions_stand_in_their_dimensions(p: PayloadView, s: Scaled)
    ensures
        vector_of(p, s)[0] == s.amount,
        vector_of(p, s)[2] == s.amount_to_average,
        vector_of(p, s)[7] == s.km_from_home,
        vector_of(p, s)[13] == s.merchant_avg_amount,
        p.has_last_tx ==> vector_of(p, s)[6] == s.km_from_current,
        !p.has_last_tx ==> vector_of(p, s)[5] == -10000 && vector_of(p, s)[6] == -10000,
        vector_of(p, s)[14] == 0,
        vector_of(p, s)[15] == 0,
{
}

/// Nine categories have a risk of their own, and every other one has a risk of
/// one half. The risk of a request's category is its own dimension.
pub proof fn categories_have_their_risks(p: PayloadView, s: Scaled)
    ensures
        p.mcc == 5411 ==> vector_of(p, s)[12] == 1500,
        p.mcc == 5912 ==> vector_of(p, s)[12] == 2000,
        p.mcc == 5311 ==> vector_of(p, s)[12] == 2500,
        p.mcc == 5812 ==> vector_of(p, s)[12] == 3000,
        p.mcc == 4511 ==> vector_of(p, s)[12] == 3500,
        p.mcc == 5944 ==> vector_of(p, s)[12] == 4500,
        p.mcc == 7802 ==> vector_of(p, s)[12] == 7500,
        p.mcc == 7801 ==> vector_of(p, s)[12] == 8000,
        p.mcc == 7995 ==> vector_of(p, s)[12] == 8500,
        !(seq![5411int, 5912, 5311, 5812, 4511, 5944, 7802, 7801, 7995].contains(p.mcc))
            ==> vector_of(p, s)[12] == 5000,
        vector_of(p, s)[12] == category_risk(p.mcc),
{
    let known = seq![5411int, 5912, 5311, 5812, 4511, 5944, 7802, 7801, 7995];
    assert(known[0] == 5411 && known[1] == 5912 && known[2] == 5311 && known[3] == 5812 && known[4]
        == 4511 && known[5] == 5944 && known[6] == 7802 && known[7] == 7801 && known[8] == 7995);
}

/// A dimension does not depend on what another one is for: two requests that
/// agree in a field have the same value in its dimension. So two that differ
/// only in whether the terminal is online have vectors that differ by one in the
/// dimension for that, and nowhere else.
pub proof fn fields_keep_to_their_dimensions(
    p: PayloadView,
    s: Scaled,
    other: PayloadView,
    t: Scaled,
)
    ensures
        s.amount == t.amount ==> vector_of(p, s)[0] == vector_of(other, t)[0],
        p.installments == other.installments ==> vector_of(p, s)[1] == vector_of(other, t)[1],
        s.amount_to_average == t.amount_to_average ==> vector_of(p, s)[2] == vector_of(other, t)[2],
        p.hour == other.hour ==> vector_of(p, s)[3] == vector_of(other, t)[3],
        p.weekday == other.weekday ==> vector_of(p, s)[4] == vector_of(other, t)[4],
        p.has_last_tx == other.has_last_tx && p.minutes_since_last == other.minutes_since_last
            ==> vector_of(p, s)[5] == vector_of(other, t)[5],
        p.has_last_tx == other.has_last_tx && s.km_from_current == t.km_from_current ==> vector_of(
            p,
            s,
        )[6] == vector_of(other, t)[6],
        s.km_from_home == t.km_from_home ==> vector_of(p, s)[7] == vector_of(other, t)[7],
        p.tx_count_24h == other.tx_count_24h ==> vector_of(p, s)[8] == vector_of(other, t)[8],
        p.is_online == other.is_online ==> vector_of(p, s)[9] == vector_of(other, t)[9],
        p.is_online && !other.is_online ==> vector_of(p, s)[9] == vector_of(other, t)[9] + 10000,
        p.card_present == other.card_present ==> vector_of(p, s)[10] == vector_of(other, t)[10],
        p.card_present && !other.card_present ==> vector_of(p, s)[10] == vector_of(other, t)[10]
            + 10000,
        p.is_unknown_merchant == other.is_unknown_merchant ==> vector_of(p, s)[11] == vector_of(
            other,
            t,
        )[11],
        p.is_unknown_merchant && !other.is_unknown_merchant ==> vector_of(p, s)[11] == vector_of(
            other,
            t,
        )[11] + 10000,
        p.mcc == other.mcc ==> vector_of(p, s)[12] == vector_of(other, t)[12],
        s.merchant_avg_amount == t.merchant_avg_amount ==> vector_of(p, s)[13] == vector_of(
            other,
            t,
        )[13],
        vector_of(p, s).len() == vector_of(other, t).len(),
{
}

/// Each bit of a tag is the flag that the index files are numbered by.
pub proof fn bits_of_a_tag_are_flags(p: PayloadView)
    ensures
        tag_of(p) / 8 == 1 <==> p.card_present,
        tag_of(p) / 8 == 0 <==> !p.card_present,
        tag_of(p) / 4 % 2 == 1 <==> p.is_online,
        tag_of(p) / 2 % 2 == 1 <==> p.is_unknown_merchant,
        tag_of(p) % 2 == 1 <==> p.has_last_tx,
{
}

} // verus!
