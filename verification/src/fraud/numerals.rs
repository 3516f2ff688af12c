//! Numbers as text: which byte strings spell a decimal fraction, and what an
//! unsigned integer's digits are worth.

use vstd::prelude::*;

verus! {

pub const PLUS: u8 = 0x2b;

pub const MINUS: u8 = 0x2d;

pub const POINT: u8 = 0x2e;

pub const ZERO: u8 = 0x30;

pub const NINE: u8 = 0x39;

pub open spec fn is_digit(c: u8) -> bool {
    ZERO <= c <= NINE
}

pub open spec fn is_sign(c: u8) -> bool {
    c == PLUS || c == MINUS
}

/// The lower-case form of an ASCII letter; every other byte stays as it is.
pub open spec fn lowered(c: u8) -> u8 {
    if 0x41 <= c <= 0x5a {
        (c + 0x20) as u8
    } else {
        c
    }
}

/// The end of the run of digits in `t` that starts at `from`.
pub open spec fn digits_end(t: Seq<u8>, from: int) -> int
    decreases t.len() - from,
{
    if 0 <= from < t.len() && is_digit(t[from]) {
        digits_end(t, from + 1)
    } else {
        from
    }
}

/// The position after a sign at `from`, if there is one there.
pub open spec fn after_sign(t: Seq<u8>, from: int) -> int {
    if 0 <= from < t.len() && is_sign(t[from]) {
        from + 1
    } else {
        from
    }
}

/// Whether `t`, from `from` to its end, is `word` in letters of either case.
pub open spec fn spells(t: Seq<u8>, from: int, word: Seq<u8>) -> bool {
    &&& t.len() - from == word.len()
    &&& forall|i: int| 0 <= i < word.len() ==> lowered(#[trigger] t[from + i]) == word[i]
}

/// Whether `t`, from `from` to its end, is digits with at most one point
/// among, before or after them, at least one digit, and then nothing or an
/// exponent: the letter e, a sign or none, and at least one digit.
pub open spec fn is_plain_number(t: Seq<u8>, from: int) -> bool {
    let whole_end = digits_end(t, from);
    let pointed = whole_end < t.len() && t[whole_end] == POINT;
    let end = if pointed {
        digits_end(t, whole_end + 1)
    } else {
        whole_end
    };
    let digits = end - from - (if pointed {
        1int
    } else {
        0int
    });
    &&& digits > 0
    &&& (end == t.len() || (lowered(t[end]) == 0x65 && is_digits_to_end(t, after_sign(t, end + 1))))
}

/// Whether there is a digit at `from` and only digits follow.
pub open spec fn is_digits_to_end(t: Seq<u8>, from: int) -> bool {
    from < t.len() && digits_end(t, from) == t.len()
}

pub open spec fn inf_word() -> Seq<u8> {
    seq![0x69u8, 0x6e, 0x66]
}

pub open spec fn infinity_word() -> Seq<u8> {
    seq![0x69u8, 0x6e, 0x66, 0x69, 0x6e, 0x69, 0x74, 0x79]
}

pub open spec fn nan_word() -> Seq<u8> {
    seq![0x6eu8, 0x61, 0x6e]
}

/// Whether `t` spells a fraction: a sign or none, and then a plain number or
/// one of the words for infinity and for not-a-number.
pub open spec fn is_fraction_text(t: Seq<u8>) -> bool {
    let from = after_sign(t, 0);
    ||| is_plain_number(t, from)
    ||| spells(t, from, inf_word())
    ||| spells(t, from, infinity_word())
    ||| spells(t, from, nan_word())
}

/// What a string of digits is worth.
pub open spec fn digits_value(t: Seq<u8>) -> int
    decreases t.len(),
{
    if t.len() == 0 {
        0
    } else {
        digits_value(t.drop_last()) * 10 + (t.last() - ZERO)
    }
}

/// The digits of an unsigned integer: all of `t`, but for a leading plus.
pub open spec fn unsigned_digits(t: Seq<u8>) -> Seq<u8> {
    if t.len() > 0 && t[0] == PLUS {
        t.skip(1)
    } else {
        t
    }
}

/// The unsigned integer of at most `max` that `t` spells: a plus or none, and
/// then digits only, one at least.
pub open spec fn unsigned_value(t: Seq<u8>, max: int) -> Option<int> {
    let d = unsigned_digits(t);
    if d.len() > 0 && (forall|i: int| 0 <= i < d.len() ==> is_digit(#[trigger] d[i]))
        && digits_value(d) <= max {
        Some(digits_value(d))
    } else {
        None
    }
}

/// What `unsigned_value` gives is not negative and not over the bound.
pub proof fn lemma_unsigned_value_bounded(t: Seq<u8>, max: int)
    ensures
        unsigned_value(t, max) matches Some(v) ==> 0 <= v <= max,
{
    let d = unsigned_digits(t);
    if forall|i: int| 0 <= i < d.len() ==> is_digit(#[trigger] d[i]) {
        lemma_digits_value_nonneg(d);
    }
}

proof fn lemma_digits_value_nonneg(d: Seq<u8>)
    requires
        forall|i: int| 0 <= i < d.len() ==> is_digit(#[trigger] d[i]),
    ensures
        digits_value(d) >= 0,
    decreases d.len(),
{
    if d.len() > 0 {
        lemma_digits_value_nonneg(d.drop_last());
        assert(d.last() == d[d.len() - 1]);
    }
}

fn skip_digits(t: &[u8], from: usize) -> (r: usize)
    requires
        from <= t@.len(),
    ensures
        r == digits_end(t@, from as int),
        from <= r <= t@.len(),
{
    let mut i: usize = from;
    while i < t.len() && ZERO <= t[i] && t[i] <= NINE
        invariant
            from <= i <= t@.len(),
            digits_end(t@, from as int) == digits_end(t@, i as int),
        decreases t@.len() - i,
    {
        i = i + 1;
    }
    i
}

fn skip_sign(t: &[u8], from: usize) -> (r: usize)
    requires
        from <= t@.len(),
    ensures
        r == after_sign(t@, from as int),
        from <= r <= t@.len(),
{
    if from < t.len() && (t[from] == PLUS || t[from] == MINUS) {
        from + 1
    } else {
        from
    }
}

/// The lower-case form of an ASCII letter.
pub fn lower(c: u8) -> (r: u8)
    ensures
        r == lowered(c),
{
    if 0x41 <= c && c <= 0x5a {
        c + 0x20
    } else {
        c
    }
}

fn spells_word(t: &[u8], from: usize, word: &[u8]) -> (r: bool)
    requires
        from <= t@.len(),
    ensures
        r == spells(t@, from as int, word@),
{
    if t.len() - from != word.len() {
        return false;
    }
    let mut i: usize = 0;
    while i < word.len()
        invariant
            i <= word@.len(),
            from <= t.len(),
            t@.len() - from == word@.len(),
            forall|j: int| 0 <= j < i ==> lowered(#[trigger] t@[from + j]) == word@[j],
        decreases word@.len() - i,
    {
        if lower(t[from + i]) != word[i] {
            return false;
        }
        i = i + 1;
    }
    true
}

fn is_number_from(t: &[u8], from: usize) -> (r: bool)
    requires
        from <= t@.len(),
    ensures
        r == is_plain_number(t@, from as int),
{
    let whole_end = skip_digits(t, from);
    let pointed = whole_end < t.len() && t[whole_end] == POINT;
    let end = if pointed {
        skip_digits(t, whole_end + 1)
    } else {
        whole_end
    };
    let digits: usize = if pointed {
        end - from - 1
    } else {
        end - from
    };
    if digits == 0 {
        return false;
    }
    if end == t.len() {
        return true;
    }
    if lower(t[end]) != 0x65 {
        return false;
    }
    let exponent = skip_sign(t, end + 1);
    exponent < t.len() && skip_digits(t, exponent) == t.len()
}

/// Whether `t` spells a fraction.
pub fn spells_fraction(t: &[u8]) -> (r: bool)
    ensures
        r == is_fraction_text(t@),
{
    let from = skip_sign(t, 0);
    let inf: [u8; 3] = [0x69, 0x6e, 0x66];
    let infinity: [u8; 8] = [0x69, 0x6e, 0x66, 0x69, 0x6e, 0x69, 0x74, 0x79];
    let nan: [u8; 3] = [0x6e, 0x61, 0x6e];
    assert(inf@ =~= inf_word());
    assert(infinity@ =~= infinity_word());
    assert(nan@ =~= nan_word());
    is_number_from(t, from) || spells_word(t, from, &inf) || spells_word(t, from, &infinity)
        || spells_word(t, from, &nan)
}

/// The unsigned integer of at most `max` that `t` spells.
pub fn parse_unsigned(t: &[u8], max: u64) -> (r: Option<u64>)
    ensures
        match r {
            Some(v) => unsigned_value(t@, max as int) == Some(v as int),
            None => unsigned_value(t@, max as int) is None,
        },
{
    let start: usize = if t.len() > 0 && t[0] == PLUS {
        1
    } else {
        0
    };
    let ghost d = unsigned_digits(t@);
    assert(d =~= t@.skip(start as int));
    if start == t.len() {
        return None;
    }
    let mut v: u64 = 0;
    let mut over = false;
    let mut i: usize = start;
    while i < t.len()
        invariant
            start <= i <= t@.len(),
            d == t@.skip(start as int),
            d == unsigned_digits(t@),
            forall|j: int| 0 <= j < i - start ==> is_digit(#[trigger] d[j]),
            over ==> digits_value(d.take(i - start)) > max,
            !over ==> v == digits_value(d.take(i - start)) && v <= max,
        decreases t@.len() - i,
    {
        let c = t[i];
        assert(d[i - start] == c);
        if c < ZERO || c > NINE {
            return None;
        }
        let step: u64 = (c - ZERO) as u64;
        proof {
            assert(d.take(i + 1 - start).drop_last() =~= d.take(i - start));
            assert(d.take(i + 1 - start).last() == c);
        }
        if !over {
            if v > max / 10 || (v == max / 10 && step > max % 10) {
                over = true;
            } else {
                v = v * 10 + step;
            }
        }
        i = i + 1;
    }
    assert(d.take(i - start) =~= d);
    if over {
        None
    } else {
        Some(v)
    }
}

/// The digits of a number, without leading zeros.
pub open spec fn numeral(n: nat) -> Seq<u8>
    decreases n,
{
    if n < 10 {
        seq![(0x30 + n) as u8]
    } else {
        numeral(n / 10).push((0x30 + n % 10) as u8)
    }
}

/// Whether `t` is made of the digits from 0 to 9.
pub open spec fn all_digits(t: Seq<u8>) -> bool {
    forall|i: int| 0 <= i < t.len() ==> 0x30 <= #[trigger] t[i] <= 0x39
}

proof fn lemma_numeral(n: nat)
    ensures
        numeral(n).len() > 0,
        all_digits(numeral(n)),
        digits_value(numeral(n)) == n,
    decreases n,
{
    if n >= 10 {
        lemma_numeral(n / 10);
        let t = numeral(n / 10);
        let c = (0x30 + n % 10) as u8;
        assert(t.push(c).drop_last() =~= t);
        assert forall|i: int| 0 <= i < t.push(c).len() implies 0x30 <= #[trigger] t.push(c)[i]
            <= 0x39 by {
            if i < t.len() {
                assert(t.push(c)[i] == t[i]);
            }
        }
    } else {
        let t = seq![(0x30 + n) as u8];
        assert(t.drop_last() =~= Seq::<u8>::empty());
        reveal_with_fuel(digits_value, 2);
    }
}

/// The digits of a number are read as that number, with a plus before them or
/// without, wherever it is not over the bound; where it is, they are not read.
pub proof fn numerals_are_read(n: nat, max: int)
    ensures
        n <= max ==> unsigned_value(numeral(n), max) == Some(n as int),
        n > max ==> unsigned_value(numeral(n), max) is None,
        unsigned_value(seq![0x2bu8] + numeral(n), max) == unsigned_value(numeral(n), max),
{
    lemma_numeral(n);
    let t = numeral(n);
    let signed = seq![0x2bu8] + t;
    assert(0x30 <= t[0] <= 0x39);
    assert(unsigned_digits(t) == t);
    assert(signed.skip(1) =~= t);
    assert forall|i: int| 0 <= i < t.len() implies is_digit(#[trigger] t[i]) by {}
}

/// A digit behind a number counts as much as it says, and the number before it
/// ten times.
pub proof fn digits_add_up(t: Seq<u8>, c: u8, v: int, max: int)
    requires
        0x30 <= c <= 0x39,
        unsigned_value(t, v) == Some(v),
    ensures
        unsigned_value(t.push(c), max) == (if 10 * v + (c - 0x30) <= max {
            Some(10 * v + (c - 0x30))
        } else {
            None
        }),
        unsigned_value(seq![c], max) == (if c - 0x30 <= max {
            Some(c - 0x30)
        } else {
            None
        }),
{
    let d = unsigned_digits(t);
    let grown = unsigned_digits(t.push(c));
    assert(t.push(c)[0] == t[0]);
    assert(grown =~= d.push(c));
    assert(grown.drop_last() =~= d);
    assert forall|i: int| 0 <= i < grown.len() implies is_digit(#[trigger] grown[i]) by {
        if i < d.len() {
            assert(grown[i] == d[i]);
        }
    }
    let one = seq![c];
    assert(one.drop_last() =~= Seq::<u8>::empty());
    reveal_with_fuel(digits_value, 2);
    assert forall|i: int| 0 <= i < one.len() implies is_digit(#[trigger] one[i]) by {}
}

/// Nothing is read as a number but digits, one at least, and a plus before them.
pub proof fn only_digits_are_numbers(t: Seq<u8>, max: int)
    requires
        unsigned_value(t, max) is Some,
    ensures
        t.len() > 0,
        t[0] == 0x2b ==> t.len() > 1,
        forall|i: int|
            0 <= i < t.len() ==> 0x30 <= #[trigger] t[i] <= 0x39 || (i == 0 && t[0] == 0x2b),
{
    let d = unsigned_digits(t);
    assert forall|i: int| 0 <= i < t.len() implies 0x30 <= #[trigger] t[i] <= 0x39 || (i == 0 && t[0]
        == 0x2b) by {
        if t[0] == 0x2b {
            if i > 0 {
                assert(is_digit(d[i - 1]));
            }
        } else {
            assert(is_digit(d[i]));
        }
    }
}

proof fn lemma_digits_end_at(t: Seq<u8>, from: int, end: int)
    requires
        0 <= from <= end <= t.len(),
        forall|i: int| from <= i < end ==> 0x30 <= #[trigger] t[i] <= 0x39,
        end < t.len() ==> !is_digit(t[end]),
    ensures
        digits_end(t, from) == end,
    decreases end - from,
{
    if from < end {
        assert(0x30 <= t[from] <= 0x39);
        lemma_digits_end_at(t, from + 1, end);
    }
}

proof fn lemma_digits_end(t: Seq<u8>, from: int)
    requires
        0 <= from <= t.len(),
    ensures
        from <= digits_end(t, from) <= t.len(),
        forall|i: int| from <= i < digits_end(t, from) ==> 0x30 <= #[trigger] t[i] <= 0x39,
    decreases t.len() - from,
{
    if from < t.len() && is_digit(t[from]) {
        lemma_digits_end(t, from + 1);
    }
}

/// Whether `s` is a plus, a minus or nothing.
pub open spec fn is_optional_sign(s: Seq<u8>) -> bool {
    s.len() == 0 || (s.len() == 1 && (s[0] == 0x2b || s[0] == 0x2d))
}

/// Digits with a point among, before or behind them or with none, at least one
/// digit, a sign before them or none, and an exponent behind them or none, spell
/// a fraction. The exponent is the letter e in either case, a sign or none, and
/// at least one digit.
pub proof fn decimal_numbers_are_fractions(
    sign: Seq<u8>,
    whole: Seq<u8>,
    part: Seq<u8>,
    letter: u8,
    exponent_sign: Seq<u8>,
    exponent: Seq<u8>,
)
    requires
        is_optional_sign(sign),
        all_digits(whole),
        all_digits(part),
        letter == 0x65 || letter == 0x45,
        is_optional_sign(exponent_sign),
        all_digits(exponent),
        exponent.len() > 0,
    ensures
        whole.len() > 0 ==> is_fraction_text(sign + whole),
        whole.len() + part.len() > 0 ==> is_fraction_text(sign + whole + seq![0x2eu8] + part),
        whole.len() > 0 ==> is_fraction_text(
            sign + whole + (seq![letter] + exponent_sign + exponent),
        ),
        whole.len() + part.len() > 0 ==> is_fraction_text(
            sign + whole + seq![0x2eu8] + part + (seq![letter] + exponent_sign + exponent),
        ),
{
    let tail = seq![letter] + exponent_sign + exponent;
    let none = Seq::<u8>::empty();
    if whole.len() > 0 {
        lemma_plain(sign, whole, none, sign + whole);
        lemma_plain(sign, whole, tail, sign + whole + tail);
    }
    if whole.len() + part.len() > 0 {
        lemma_pointed(sign, whole, part, none, sign + whole + seq![0x2eu8] + part);
        lemma_pointed(sign, whole, part, tail, sign + whole + seq![0x2eu8] + part + tail);
    }
    if whole.len() > 0 {
        lemma_exponent(sign + whole + tail, (sign.len() + whole.len()) as int, exponent_sign, exponent);
    }
    if whole.len() + part.len() > 0 {
        lemma_exponent(
            sign + whole + seq![0x2eu8] + part + tail,
            (sign.len() + whole.len() + 1 + part.len()) as int,
            exponent_sign,
            exponent,
        );
    }
}

proof fn lemma_plain(sign: Seq<u8>, whole: Seq<u8>, tail: Seq<u8>, t: Seq<u8>)
    requires
        is_optional_sign(sign),
        all_digits(whole),
        whole.len() > 0,
        t == sign + whole + tail || (tail.len() == 0 && t == sign + whole),
        tail.len() > 0 ==> !is_digit(tail[0]) && tail[0] != POINT,
    ensures
        after_sign(t, 0) == sign.len(),
        digits_end(t, sign.len() as int) == sign.len() + whole.len(),
        tail.len() == 0 ==> is_plain_number(t, sign.len() as int),
        tail.len() > 0 ==> t[(sign.len() + whole.len()) as int] == tail[0],
{
    let from = sign.len() as int;
    let end = from + whole.len();
    assert forall|i: int| from <= i < end implies 0x30 <= #[trigger] t[i] <= 0x39 by {
        assert(t[i] == whole[i - from]);
    }
    assert(t[from] == whole[0]);
    lemma_digits_end_at(t, from, end as int);
}

proof fn lemma_pointed(sign: Seq<u8>, whole: Seq<u8>, part: Seq<u8>, tail: Seq<u8>, t: Seq<u8>)
    requires
        is_optional_sign(sign),
        all_digits(whole),
        all_digits(part),
        whole.len() + part.len() > 0,
        t == sign + whole + seq![0x2eu8] + part + tail || (tail.len() == 0 && t == sign + whole
            + seq![0x2eu8] + part),
        tail.len() > 0 ==> !is_digit(tail[0]),
    ensures
        after_sign(t, 0) == sign.len(),
        digits_end(t, sign.len() as int) == sign.len() + whole.len(),
        t[(sign.len() + whole.len()) as int] == POINT,
        digits_end(t, (sign.len() + whole.len() + 1) as int) == sign.len() + whole.len() + 1
            + part.len(),
        tail.len() == 0 ==> is_plain_number(t, sign.len() as int),
        tail.len() > 0 ==> t[(sign.len() + whole.len() + 1 + part.len()) as int] == tail[0],
{
    let from = sign.len() as int;
    let point = from + whole.len();
    let end = point + 1 + part.len();
    assert forall|i: int| from <= i < point implies 0x30 <= #[trigger] t[i] <= 0x39 by {
        assert(t[i] == whole[i - from]);
    }
    assert(t[point as int] == 0x2e);
    assert forall|i: int| point + 1 <= i < end implies 0x30 <= #[trigger] t[i] <= 0x39 by {
        assert(t[i] == part[i - point - 1]);
    }
    if whole.len() > 0 {
        assert(t[from] == whole[0]);
    }
    lemma_digits_end_at(t, from, point as int);
    lemma_digits_end_at(t, (point + 1) as int, end as int);
}

/// An exponent that ends a text.
proof fn lemma_exponent(t: Seq<u8>, at: int, sign: Seq<u8>, digits: Seq<u8>)
    requires
        0 <= at < t.len(),
        is_optional_sign(sign),
        all_digits(digits),
        digits.len() > 0,
        t.len() == at + 1 + sign.len() + digits.len(),
        forall|i: int| 0 <= i < sign.len() ==> t[at + 1 + i] == #[trigger] sign[i],
        forall|i: int| 0 <= i < digits.len() ==> t[at + 1 + sign.len() + i] == #[trigger] digits[i],
    ensures
        is_digits_to_end(t, after_sign(t, at + 1)),
{
    let from = at + 1 + sign.len();
    if sign.len() > 0 {
        assert(t[at + 1 + 0] == sign[0]);
    }
    assert(t[from + 0] == digits[0]);
    assert forall|i: int| from <= i < t.len() implies 0x30 <= #[trigger] t[i] <= 0x39 by {
        assert(t[at + 1 + sign.len() + (i - from)] == digits[i - from]);
    }
    lemma_digits_end_at(t, from as int, t.len() as int);
}

/// A byte that a fraction can be spelled with: a digit, a point, a sign, or a
/// letter of an exponent or of the words inf, infinity and nan.
pub open spec fn is_fraction_byte(c: u8) -> bool {
    ||| 0x30 <= c <= 0x39
    ||| c == 0x2e || c == 0x2b || c == 0x2d
    ||| c == 0x65 || c == 0x69 || c == 0x6e || c == 0x66 || c == 0x74 || c == 0x79 || c == 0x61
    ||| c == 0x45 || c == 0x49 || c == 0x4e || c == 0x46 || c == 0x54 || c == 0x59 || c == 0x41
}

/// Nothing else spells a fraction: it has a byte at least, no other bytes than
/// those, and no two points.
pub proof fn fractions_are_spelled_with_few_bytes(t: Seq<u8>)
    requires
        is_fraction_text(t),
    ensures
        t.len() > 0,
        forall|i: int| 0 <= i < t.len() ==> is_fraction_byte(#[trigger] t[i]),
        forall|i: int, j: int|
            0 <= i < j < t.len() && #[trigger] t[i] == 0x2e ==> #[trigger] t[j] != 0x2e,
{
    let from = after_sign(t, 0);
    if is_plain_number(t, from) {
        lemma_digits_end(t, from);
        let whole_end = digits_end(t, from);
        let pointed = whole_end < t.len() && t[whole_end] == POINT;
        if pointed {
            lemma_digits_end(t, whole_end + 1);
        }
        let end = if pointed {
            digits_end(t, whole_end + 1)
        } else {
            whole_end
        };
        if end < t.len() {
            lemma_digits_end(t, after_sign(t, end + 1));
        }
    } else {
        let word = if spells(t, from, inf_word()) {
            inf_word()
        } else if spells(t, from, infinity_word()) {
            infinity_word()
        } else {
            nan_word()
        };
        assert forall|i: int| from <= i < t.len() implies is_fraction_byte(#[trigger] t[i]) && t[i]
            != 0x2e by {
            assert(t[from + (i - from)] == t[i]);
            assert(lowered(t[i]) == word[i - from]);
        }
    }
}

/// Where a fraction has a digit in it, it is a sign or none up to `cuts.0`, digits up
/// to `cuts.1`, a point and digits up to `cuts.2` or neither, at least one digit so
/// far, and then nothing, or the letter e, a sign or none, and from `cuts.3` on
/// digits, at least one.
pub proof fn fractions_are_decimal_numbers(t: Seq<u8>, i: int) -> (cuts: (int, int, int, int))
    requires
        is_fraction_text(t),
        0 <= i < t.len(),
        0x30 <= t[i] <= 0x39,
    ensures
        0 <= cuts.0 <= 1,
        cuts.0 == 1 ==> t[0] == 0x2b || t[0] == 0x2d,
        cuts.0 <= cuts.1 <= cuts.2 <= t.len(),
        forall|j: int| cuts.0 <= j < cuts.1 ==> 0x30 <= #[trigger] t[j] <= 0x39,
        cuts.1 < cuts.2 ==> t[cuts.1] == 0x2e,
        forall|j: int| cuts.1 < j < cuts.2 ==> 0x30 <= #[trigger] t[j] <= 0x39,
        cuts.0 < cuts.1 || cuts.1 + 1 < cuts.2,
        cuts.2 < t.len() ==> (t[cuts.2] == 0x65 || t[cuts.2] == 0x45) && cuts.3 < t.len() && (
        cuts.3 == cuts.2 + 1 || (cuts.3 == cuts.2 + 2 && (t[cuts.2 + 1] == 0x2b || t[cuts.2 + 1]
            == 0x2d))) && forall|j: int| cuts.3 <= j < t.len() ==> 0x30 <= #[trigger] t[j] <= 0x39,
{
    let from = after_sign(t, 0);
    lemma_not_a_word(t, from, i);
    lemma_digits_end(t, from);
    let whole_end = digits_end(t, from);
    let pointed = whole_end < t.len() && t[whole_end] == POINT;
    if pointed {
        lemma_digits_end(t, whole_end + 1);
    }
    let end = if pointed {
        digits_end(t, whole_end + 1)
    } else {
        whole_end
    };
    let digits = if end < t.len() {
        after_sign(t, end + 1)
    } else {
        end
    };
    if end < t.len() {
        lemma_digits_end(t, digits);
    }
    (from, whole_end, end, digits)
}

proof fn lemma_not_a_word(t: Seq<u8>, from: int, i: int)
    requires
        from == after_sign(t, 0),
        0 <= i < t.len(),
        0x30 <= t[i] <= 0x39,
    ensures
        !spells(t, from, inf_word()),
        !spells(t, from, infinity_word()),
        !spells(t, from, nan_word()),
{
    if i >= from {
        assert(t[from + (i - from)] == t[i]);
        if spells(t, from, inf_word()) {
            assert(lowered(t[i]) == inf_word()[i - from]);
        }
        if spells(t, from, infinity_word()) {
            assert(lowered(t[i]) == infinity_word()[i - from]);
        }
        if spells(t, from, nan_word()) {
            assert(lowered(t[i]) == nan_word()[i - from]);
        }
    }
}

/// Whether two texts are the same but for the case of their letters.
pub open spec fn is_same_word(t: Seq<u8>, word: Seq<u8>) -> bool {
    &&& t.len() == word.len()
    &&& forall|i: int|
        0 <= i < t.len() ==> #[trigger] t[i] == word[i] || (0x41 <= t[i] <= 0x5a && t[i] + 0x20
            == word[i])
}

/// The words inf, infinity and nan are fractions in letters of either case, with a
/// sign before them or without.
pub proof fn words_are_fractions(sign: Seq<u8>, t: Seq<u8>)
    requires
        is_optional_sign(sign),
        is_same_word(t, seq![0x69u8, 0x6e, 0x66]) || is_same_word(
            t,
            seq![0x69u8, 0x6e, 0x66, 0x69, 0x6e, 0x69, 0x74, 0x79],
        ) || is_same_word(t, seq![0x6eu8, 0x61, 0x6e]),
    ensures
        is_fraction_text(sign + t),
{
    let all = sign + t;
    let from = sign.len() as int;
    let word = if is_same_word(t, inf_word()) {
        inf_word()
    } else if is_same_word(t, infinity_word()) {
        infinity_word()
    } else {
        nan_word()
    };
    assert(t[0] == word[0] || t[0] + 0x20 == word[0]);
    assert(all[from] == t[0]);
    assert(after_sign(all, 0) == from);
    assert forall|i: int| 0 <= i < word.len() implies lowered(#[trigger] all[from + i]) == word[i] by {
        assert(all[from + i] == t[i]);
        assert(word[i] >= 0x61 && word[i] <= 0x7a);
    }
    assert(spells(all, from, word));
}

} // verus!
