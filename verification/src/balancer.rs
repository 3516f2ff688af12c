//! The load balancer: its configuration, and how connections are dealt out.

use vstd::prelude::*;

use crate::fraud::numerals::{lemma_unsigned_value_bounded, parse_unsigned, unsigned_value};
use crate::net::http::{after_white, before_white, trim, trimmed};
use crate::scan::{find_byte, first_from, lemma_first_from};

verus! {

pub const COMMA: u8 = 0x2c;

pub const DEFAULT_PORT: u16 = 9999;

/// The most connections that are handed over at once.
pub const MAX_FDS_PER_MSG: usize = 16;

/// The end of the piece that starts at `i`: the next comma, or the end.
pub open spec fn piece_end(raw: Seq<u8>, i: int) -> int {
    match first_from(raw, COMMA, i) {
        Some(e) => e,
        None => raw.len() as int,
    }
}

/// The pieces between commas from `i` on, without white space at their ends,
/// but for those in which nothing is left.
pub open spec fn pieces_from(raw: Seq<u8>, i: int) -> Seq<Seq<u8>>
    decreases raw.len() + 1 - i,
    when 0 <= i
    via pieces_from_decreases
{
    if i > raw.len() {
        Seq::empty()
    } else {
        let piece = trimmed(raw.subrange(i, piece_end(raw, i)));
        let rest = pieces_from(raw, piece_end(raw, i) + 1);
        if piece.len() == 0 {
            rest
        } else {
            seq![piece] + rest
        }
    }
}

#[via_fn]
proof fn pieces_from_decreases(raw: Seq<u8>, i: int) {
    lemma_first_from(raw, COMMA, i);
}

/// The bytes of some strings.
pub open spec fn contents(v: Seq<Vec<u8>>) -> Seq<Seq<u8>> {
    Seq::new(v.len(), |i: int| v[i]@)
}

/// The upstream servers that a list names: what stands between its commas,
/// without white space at the ends, but for what is empty.
pub fn parse_upstreams(raw: &[u8]) -> (r: Vec<Vec<u8>>)
    ensures
        contents(r@) == pieces_from(raw@, 0),
{
    let mut out: Vec<Vec<u8>> = Vec::new();
    let mut i: usize = 0;
    assert(contents(out@) + pieces_from(raw@, 0) =~= pieces_from(raw@, 0));
    loop
        invariant
            i <= raw.len(),
            contents(out@) + pieces_from(raw@, i as int) == pieces_from(raw@, 0),
        decreases raw@.len() - i,
    {
        let end: usize = match find_byte(raw, COMMA, i) {
            Some(e) => e,
            None => raw.len(),
        };
        proof {
            lemma_first_from(raw@, COMMA, i as int);
        }
        let piece = trim(&raw[i..end]);
        let ghost before = contents(out@);
        let ghost rest = pieces_from(raw@, end + 1);
        if piece.len() > 0 {
            let item = vstd::slice::slice_to_vec(piece);
            out.push(item);
            proof {
                assert(contents(out@) =~= before.push(piece@));
                assert(before.push(piece@) + rest =~= before + (seq![piece@] + rest));
            }
        }
        assert(contents(out@) + rest == pieces_from(raw@, 0));
        if end == raw.len() {
            proof {
                assert(rest =~= Seq::<Seq<u8>>::empty());
                assert(contents(out@) + rest =~= contents(out@));
            }
            return out;
        }
        i = end + 1;
    }
}

/// The port to listen on: what the environment spells, or `DEFAULT_PORT` where
/// it spells no port.
pub fn port(var: Option<&[u8]>) -> (r: u16)
    ensures
        r == (match var {
            Some(text) => match unsigned_value(text@, u16::MAX as int) {
                Some(n) => n,
                None => DEFAULT_PORT as int,
            },
            None => DEFAULT_PORT as int,
        }),
        var is None ==> r == 9999,
{
    match var {
        Some(text) => {
            proof {
                lemma_unsigned_value_bounded(text@, u16::MAX as int);
            }
            match parse_unsigned(text, u16::MAX as u64) {
                Some(n) => n as u16,
                None => DEFAULT_PORT,
            }
        },
        None => DEFAULT_PORT,
    }
}

/// Which of the first `m` items go to server `i` of `n`, where the first item
/// goes to server `first` and each one to the next server in turn.
pub open spec fn dealt(items: Seq<i32>, n: int, first: int, i: int, m: int) -> Seq<i32>
    decreases m,
{
    if m <= 0 {
        Seq::empty()
    } else if (first + m - 1) % n == i {
        dealt(items, n, first, i, m - 1).push(items[m - 1])
    } else {
        dealt(items, n, first, i, m - 1)
    }
}

/// Deals connections out to `n` servers in turn, starting with `first`; gives
/// each server's connections, and which server is next.
pub fn deal(fds: &[i32], n: usize, first: usize) -> (r: (Vec<Vec<i32>>, usize))
    requires
        first < n,
    ensures
        r.0@.len() == n,
        forall|i: int|
            0 <= i < n ==> #[trigger] r.0@[i]@ == dealt(
                fds@,
                n as int,
                first as int,
                i,
                fds@.len() as int,
            ),
        r.1 == (first + fds@.len()) % n as int,
{
    let mut batches: Vec<Vec<i32>> = Vec::new();
    let mut k: usize = 0;
    while k < n
        invariant
            k <= n,
            batches@.len() == k,
            forall|i: int| 0 <= i < k ==> #[trigger] batches@[i]@ == Seq::<i32>::empty(),
        decreases n - k,
    {
        batches.push(Vec::new());
        k = k + 1;
    }
    let mut next: usize = first;
    let mut m: usize = 0;
    proof {
        vstd::arithmetic::div_mod::lemma_small_mod(first as nat, n as nat);
    }
    while m < fds.len()
        invariant
            first < n,
            next < n,
            m <= fds@.len(),
            batches@.len() == n,
            next == (first + m) % n as int,
            forall|i: int|
                0 <= i < n ==> #[trigger] batches@[i]@ == dealt(
                    fds@,
                    n as int,
                    first as int,
                    i,
                    m as int,
                ),
        decreases fds@.len() - m,
    {
        let ghost before = batches@;
        let mut batch: Vec<i32> = Vec::new();
        std::mem::swap(&mut batch, &mut batches[next]);
        batch.push(fds[m]);
        batches[next] = batch;
        proof {
            assert forall|i: int| 0 <= i < n implies #[trigger] batches@[i]@ == dealt(
                fds@,
                n as int,
                first as int,
                i,
                m + 1,
            ) by {
                assert(before[i]@ == dealt(fds@, n as int, first as int, i, m as int));
                if i == next {
                    assert(batches@[i]@ =~= before[i]@.push(fds@[m as int]));
                } else {
                    assert(batches@[i] == before[i]);
                }
            }
            lemma_next(first + m, n as int);
        }
        next = if next + 1 == n {
            0
        } else {
            next + 1
        };
        m = m + 1;
    }
    (batches, next)
}

proof fn lemma_next(x: int, n: int)
    requires
        0 < n,
        0 <= x,
    ensures
        (x + 1) % n == (if x % n + 1 == n {
            0
        } else {
            x % n + 1
        }),
{
    let c = x / n;
    let r = x % n;
    vstd::arithmetic::div_mod::lemma_fundamental_div_mod(x, n);
    if r + 1 == n {
        assert(n * c + n == n * (c + 1)) by (nonlinear_arith);
        vstd::arithmetic::div_mod::lemma_fundamental_div_mod_converse(x + 1, n, c + 1, 0);
    } else {
        vstd::arithmetic::div_mod::lemma_fundamental_div_mod_converse(x + 1, n, c, r + 1);
    }
}

/// Connections are dealt out evenly: of `m` of them, each server gets the
/// `m / n` whole rounds, and one more where its turn came in the last round.
pub proof fn servers_get_even_shares(items: Seq<i32>, n: int, first: int, i: int, m: int)
    requires
        0 <= first < n,
        0 <= i < n,
        0 <= m,
    ensures
        m / n <= dealt(items, n, first, i, m).len() <= m / n + 1,
{
    lemma_share(items, n, first, i, m);
}

/// How many of the first `m` items the first `i` servers get.
pub open spec fn dealt_to_first(items: Seq<i32>, n: int, first: int, i: int, m: int) -> int
    decreases i,
{
    if i <= 0 {
        0
    } else {
        dealt_to_first(items, n, first, i - 1, m) + dealt(items, n, first, i - 1, m).len()
    }
}

/// Each connection goes to one server: the last of `m` to the one whose turn it
/// is and to no other, so that all servers together get `m`.
pub proof fn every_connection_is_dealt_once(items: Seq<i32>, n: int, first: int, m: int)
    requires
        0 < n,
        0 <= first,
        0 <= m,
    ensures
        m > 0 ==> forall|i: int|
            0 <= i < n ==> #[trigger] dealt(items, n, first, i, m) == (if i == (first + m - 1) % n {
                dealt(items, n, first, i, m - 1).push(items[m - 1])
            } else {
                dealt(items, n, first, i, m - 1)
            }),
        dealt_to_first(items, n, first, n, m) == m,
    decreases m,
{
    if m == 0 {
        lemma_dealt_to_first(items, n, first, n, 0);
    } else {
        every_connection_is_dealt_once(items, n, first, m - 1);
        vstd::arithmetic::div_mod::lemma_mod_bound(first + m - 1, n);
        lemma_dealt_to_first(items, n, first, n, m);
    }
}

/// One more item makes one more with the servers up to the one whose turn it
/// is, and none with those before it.
proof fn lemma_dealt_to_first(items: Seq<i32>, n: int, first: int, i: int, m: int)
    requires
        0 < n,
        0 <= i,
        0 <= m,
    ensures
        dealt_to_first(items, n, first, i, m) == (if m == 0 {
            0
        } else {
            dealt_to_first(items, n, first, i, m - 1) + (if (first + m - 1) % n < i {
                1int
            } else {
                0int
            })
        }),
    decreases i,
{
    if i > 0 {
        lemma_dealt_to_first(items, n, first, i - 1, m);
    }
    if m > 0 {
        vstd::arithmetic::div_mod::lemma_mod_bound(first + m - 1, n);
    }
}

/// How many turns after the first one server `i` has its turn.
spec fn turn(n: int, first: int, i: int) -> int {
    if i >= first {
        i - first
    } else {
        i - first + n
    }
}

proof fn lemma_share(items: Seq<i32>, n: int, first: int, i: int, m: int)
    requires
        0 <= first < n,
        0 <= i < n,
        0 <= m,
    ensures
        dealt(items, n, first, i, m).len() == m / n + (if turn(n, first, i) < m % n {
            1int
        } else {
            0int
        }),
    decreases m,
{
    if m == 0 {
        vstd::arithmetic::div_mod::lemma_small_mod(0, n as nat);
        vstd::arithmetic::div_mod::lemma_div_of0(n);
    } else {
        lemma_share(items, n, first, i, m - 1);
        let c = (m - 1) / n;
        let r = (m - 1) % n;
        vstd::arithmetic::div_mod::lemma_fundamental_div_mod(m - 1, n);
        vstd::arithmetic::div_mod::lemma_mod_bound(m - 1, n);
        let x = first + r;
        assert((first + m - 1) % n == x % n) by {
            assert(first + m - 1 == n * c + x);
            vstd::arithmetic::div_mod::lemma_mod_multiples_vanish(c, x, n);
        }
        if x < n {
            vstd::arithmetic::div_mod::lemma_small_mod(x as nat, n as nat);
        } else {
            vstd::arithmetic::div_mod::lemma_fundamental_div_mod_converse(x, n, 1, x - n);
        }
        if r + 1 == n {
            assert(n * c + n == n * (c + 1)) by (nonlinear_arith);
            vstd::arithmetic::div_mod::lemma_fundamental_div_mod_converse(m, n, c + 1, 0);
        } else {
            assert(n * c == c * n) by (nonlinear_arith);
            vstd::arithmetic::div_mod::lemma_fundamental_div_mod_converse(m, n, c, r + 1);
        }
    }
}

/// A connection goes to the next server in turn, behind those it got before, and
/// to no other.
pub proof fn connections_go_around(items: Seq<i32>, n: int, first: int, i: int, m: int)
    requires
        0 <= first < n,
        0 <= i < n,
        0 <= m < items.len(),
    ensures
        dealt(items, n, first, i, 0).len() == 0,
        i == (first + m) % n ==> dealt(items, n, first, i, m + 1) == dealt(
            items,
            n,
            first,
            i,
            m,
        ).push(items[m]),
        i != (first + m) % n ==> dealt(items, n, first, i, m + 1) == dealt(items, n, first, i, m),
{
}

/// What can stand at the end of a server's name: a visible ASCII character.
pub open spec fn is_visible(c: u8) -> bool {
    0x21 <= c <= 0x7e
}

/// Blanks between a comma and a name.
pub open spec fn are_blanks(s: Seq<u8>) -> bool {
    forall|i: int| 0 <= i < s.len() ==> #[trigger] s[i] == 0x20 || s[i] == 0x09
}

/// A name has no comma in it, and begins and ends with a visible character.
pub open spec fn is_server_name(s: Seq<u8>) -> bool {
    &&& s.len() > 0
    &&& is_visible(s[0])
    &&& is_visible(s.last())
    &&& forall|i: int| 0 <= i < s.len() ==> #[trigger] s[i] != 0x2c
}

proof fn lemma_after_blanks(v: Seq<u8>, i: int, e: int)
    requires
        0 <= i <= e <= v.len(),
        forall|j: int| i <= j < e ==> #[trigger] v[j] == 0x20 || v[j] == 0x09,
        e < v.len() ==> is_visible(v[e]),
    ensures
        after_white(v, i) == e,
    decreases e - i,
{
    if i < e {
        assert(v[i] == 0x20 || v[i] == 0x09);
        lemma_after_blanks(v, i + 1, e);
    }
}

proof fn lemma_before_blanks(v: Seq<u8>, start: int, e: int, end: int)
    requires
        0 <= start <= e <= end <= v.len(),
        forall|j: int| e <= j < end ==> #[trigger] v[j] == 0x20 || v[j] == 0x09,
        start < e ==> is_visible(v[e - 1]),
    ensures
        before_white(v, start, end) == e,
    decreases end - e,
{
    if e < end {
        assert(v[end - 1] == 0x20 || v[end - 1] == 0x09);
        lemma_before_blanks(v, start, e, end - 1);
    }
}

/// Blanks at the ends of a text are dropped, and of blanks alone nothing is left.
pub proof fn blanks_are_trimmed(before: Seq<u8>, name: Seq<u8>, after: Seq<u8>)
    requires
        are_blanks(before),
        are_blanks(after),
        name.len() > 0 ==> is_visible(name[0]) && is_visible(name.last()),
    ensures
        trimmed(before + name + after) == name,
{
    let v = before + name + after;
    let s = before.len() as int;
    let e = s + name.len();
    if name.len() > 0 {
        assert(v[s] == name[0] && v[e - 1] == name.last());
        lemma_after_blanks(v, 0, s);
        lemma_before_blanks(v, s, e, v.len() as int);
        assert(v.subrange(s, e) =~= name);
    } else {
        let n = v.len() as int;
        assert forall|j: int| 0 <= j < n implies #[trigger] v[j] == 0x20 || v[j] == 0x09 by {
            if j < s {
                assert(v[j] == before[j]);
            } else {
                assert(v[j] == after[j - s]);
            }
        }
        lemma_after_blanks(v, 0, n);
        lemma_before_blanks(v, n, n, n);
        assert(v.subrange(n, n) =~= name);
    }
}

/// A list that begins with a name between blanks and a comma names that server and
/// then those of what follows the comma; a list of one name names one server.
pub proof fn names_are_split_at_commas(
    before: Seq<u8>,
    name: Seq<u8>,
    after: Seq<u8>,
    rest: Seq<u8>,
)
    requires
        are_blanks(before),
        are_blanks(after),
        is_server_name(name),
    ensures
        pieces_from(before + name + after, 0) == seq![name],
        pieces_from(before + name + after + seq![0x2cu8] + rest, 0) == seq![name] + pieces_from(
            rest,
            0,
        ),
        pieces_from(before + after, 0).len() == 0,
        pieces_from(before + seq![0x2cu8] + rest, 0) == pieces_from(rest, 0),
{
    let none = Seq::<u8>::empty();
    let one = before + name + after;
    lemma_no_comma(before, name, after);
    lemma_no_comma(before, none, after);
    lemma_no_comma(before, none, none);
    blanks_are_trimmed(before, name, after);
    blanks_are_trimmed(before, none, after);
    blanks_are_trimmed(before, none, none);
    assert(before + none + after =~= before + after);
    assert(before + none + none =~= before);
    lemma_single(one);
    lemma_single(before + after);
    lemma_first_piece(one, rest);
    lemma_first_piece(before, rest);
    assert(seq![name] + Seq::<Seq<u8>>::empty() =~= seq![name]);
}

proof fn lemma_no_comma(before: Seq<u8>, name: Seq<u8>, after: Seq<u8>)
    requires
        are_blanks(before),
        are_blanks(after),
        forall|i: int| 0 <= i < name.len() ==> #[trigger] name[i] != 0x2c,
    ensures
        forall|i: int|
            0 <= i < (before + name + after).len() ==> #[trigger] (before + name + after)[i]
                != 0x2c,
{
    let v = before + name + after;
    assert forall|i: int| 0 <= i < v.len() implies #[trigger] v[i] != 0x2c by {
        let s = before.len() as int;
        let e = s + name.len();
        if i < s {
            assert(v[i] == before[i]);
        } else if i < e {
            assert(v[i] == name[i - s]);
        } else {
            assert(v[i] == after[i - e]);
        }
    }
}

/// What is read of a list without a comma.
proof fn lemma_single(one: Seq<u8>)
    requires
        forall|i: int| 0 <= i < one.len() ==> #[trigger] one[i] != 0x2c,
    ensures
        pieces_from(one, 0) == (if trimmed(one).len() == 0 {
            Seq::<Seq<u8>>::empty()
        } else {
            seq![trimmed(one)] + Seq::<Seq<u8>>::empty()
        }),
{
    lemma_first_from(one, COMMA, 0);
    assert(piece_end(one, 0) == one.len());
    assert(one.subrange(0, one.len() as int) =~= one);
    assert(pieces_from(one, one.len() as int + 1) =~= Seq::<Seq<u8>>::empty());
}

/// What is read of a list up to its first comma, and of the rest.
proof fn lemma_first_piece(one: Seq<u8>, rest: Seq<u8>)
    requires
        forall|i: int| 0 <= i < one.len() ==> #[trigger] one[i] != 0x2c,
    ensures
        pieces_from(one + seq![0x2cu8] + rest, 0) == (if trimmed(one).len() == 0 {
            pieces_from(rest, 0)
        } else {
            seq![trimmed(one)] + pieces_from(rest, 0)
        }),
{
    let raw = one + seq![0x2cu8] + rest;
    let e = one.len() as int;
    assert(raw[e] == COMMA);
    assert forall|j: int| 0 <= j < e implies raw[j] != COMMA by {
        assert(raw[j] == one[j]);
    }
    lemma_first_from(raw, COMMA, 0);
    assert(piece_end(raw, 0) == e);
    assert(raw.subrange(0, e) =~= one);
    lemma_shifted(one + seq![0x2cu8], rest, 0);
}

/// What is read of the end of a list is what is read of that end alone.
proof fn lemma_shifted(head: Seq<u8>, rest: Seq<u8>, i: int)
    requires
        0 <= i,
    ensures
        pieces_from(head + rest, head.len() + i) == pieces_from(rest, i),
    decreases rest.len() + 1 - i,
{
    let raw = head + rest;
    let n = head.len() as int;
    if i <= rest.len() {
        lemma_first_from(raw, COMMA, n + i);
        lemma_first_from(rest, COMMA, i);
        let e = piece_end(rest, i);
        assert(piece_end(raw, n + i) == n + e) by {
            assert forall|j: int| i <= j < rest.len() implies raw[n + j] == rest[j] by {}
            if first_from(rest, COMMA, i) is Some {
                assert(raw[n + e] == COMMA);
            }
            if first_from(raw, COMMA, n + i) is Some {
                let f = first_from(raw, COMMA, n + i)->0;
                assert(rest[f - n] == COMMA);
            }
        }
        assert(raw.subrange(n + i, n + e) =~= rest.subrange(i, e));
        lemma_shifted(head, rest, e + 1);
        assert(n + (e + 1) == (n + e) + 1);
    }
}

} // verus!
