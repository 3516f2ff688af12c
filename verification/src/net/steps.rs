//! The steps of a connection: what is to be done next with the bytes that
//! came in.
//!
//! The bytes of a connection are read in steps. A step waits for more bytes,
//! answers a request with a canned reply, or hands a body on to be scored.

use vstd::prelude::*;

use crate::fraud::json::{parse, request, Payload};
use crate::net::http::{
    declared_length, empty_line, find_header_end, header_end, lemma_declared_length_nonneg,
    lemma_first_empty_line, lemma_header_end_from, parse_content_length, route_in, route_in_header,
    Route, RX_CAP,
};
use crate::net::response::{
    ascii, resp_bad_req, resp_not_found, resp_ready, RESP_BAD_REQ, RESP_NOT_FOUND, RESP_READY,
};
use crate::scan::occurs_at;

verus! {

/// A reply that needs no scoring.
#[derive(Debug, Clone, Copy, PartialEq, Eq, Structural)]
pub enum Reply {
    Ready,
    NotFound,
    BadRequest,
}

/// How a server treats what is not a plain request.
#[derive(Debug, Clone, Copy, PartialEq, Eq, Structural)]
pub struct Rules {
    /// The most bytes that a header and its body may have together, if there
    /// is a limit. Over it, the header alone is taken, and refused.
    pub cap: Option<usize>,
    /// The reply to a request for anything else.
    pub unknown: Reply,
}

/// The rules of the connection-oriented server: a request has `RX_CAP` bytes at
/// most, and what is asked for and not there is said so.
pub fn stream_rules() -> (r: Rules)
    ensures
        r == (Rules { cap: Some(RX_CAP), unknown: Reply::NotFound }),
        r.cap == Some(8192usize),
{
    Rules { cap: Some(RX_CAP), unknown: Reply::NotFound }
}

/// Whether that server reads on: a connection with `RX_CAP` bytes that are not
/// answered is given up.
pub fn has_room(buf: &[u8]) -> (r: bool)
    ensures
        r == (buf@.len() < RX_CAP),
        r <==> buf@.len() < 8192,
{
    buf.len() < RX_CAP
}

/// The bytes of a canned reply of that server.
pub fn stream_reply(reply: Reply) -> (r: &'static [u8])
    ensures
        r@ == ascii(
            match reply {
                Reply::Ready => RESP_READY@,
                Reply::NotFound => RESP_NOT_FOUND@,
                Reply::BadRequest => RESP_BAD_REQ@,
            },
        ),
{
    match reply {
        Reply::Ready => resp_ready(),
        Reply::NotFound => resp_not_found(),
        Reply::BadRequest => resp_bad_req(),
    }
}

/// What is to be done next.
#[derive(Debug, Clone, Copy, PartialEq, Eq, Structural)]
pub enum Step {
    /// The bytes hold no whole request yet.
    Wait,
    /// The first `consumed` bytes are a request to be answered with `reply`.
    Reply { consumed: usize, reply: Reply },
    /// The first `end` bytes are a request to be scored, whose body starts at
    /// `start`.
    Score { start: usize, end: usize },
}

/// What is to be done next, with positions as integers.
pub enum StepView {
    Wait,
    Reply(int, Reply),
    Score(int, int),
}

impl View for Step {
    type V = StepView;

    open spec fn view(&self) -> StepView {
        match self {
            Step::Wait => StepView::Wait,
            Step::Reply { consumed, reply } => StepView::Reply(*consumed as int, *reply),
            Step::Score { start, end } => StepView::Score(*start as int, *end as int),
        }
    }
}

/// The next step with the bytes `b`.
pub open spec fn step_of(b: Seq<u8>, rules: Rules) -> StepView {
    match header_end(b) {
        None => StepView::Wait,
        Some(e) => match route_in(b.take(e)) {
            Route::Ready => StepView::Reply(e, Reply::Ready),
            Route::NotFound => StepView::Reply(e, rules.unknown),
            Route::FraudScore => match declared_length(b.take(e)) {
                None => StepView::Reply(e, Reply::BadRequest),
                Some(n) => if rules.cap is Some && e + n > rules.cap->0 {
                    StepView::Reply(e, Reply::BadRequest)
                } else if e + n > b.len() {
                    StepView::Wait
                } else {
                    StepView::Score(e, e + n)
                },
            },
        },
    }
}

/// The next step with the bytes in `buf`.
pub fn next_step(buf: &[u8], rules: &Rules) -> (r: Step)
    ensures
        r@ == step_of(buf@, *rules),
        match r {
            Step::Wait => true,
            Step::Reply { consumed, .. } => 0 < consumed <= buf@.len(),
            Step::Score { start, end } => 0 < start <= end <= buf@.len(),
        },
{
    let e = match find_header_end(buf) {
        Some(e) => e,
        None => {
            return Step::Wait;
        },
    };
    let header = &buf[0..e];
    assert(header@ =~= buf@.take(e as int));
    match route_in_header(header) {
        Route::Ready => Step::Reply { consumed: e, reply: Reply::Ready },
        Route::NotFound => Step::Reply { consumed: e, reply: rules.unknown },
        Route::FraudScore => match parse_content_length(header) {
            None => Step::Reply { consumed: e, reply: Reply::BadRequest },
            Some(n) => {
                if let Some(cap) = rules.cap {
                    if e > cap || n > cap - e {
                        return Step::Reply { consumed: e, reply: Reply::BadRequest };
                    }
                }
                if n > buf.len() - e {
                    Step::Wait
                } else {
                    Step::Score { start: e, end: e + n }
                }
            },
        },
    }
}

/// What is to be done next, the body of a request to be scored read already.
pub enum Turn<'a> {
    /// More bytes are needed.
    Wait,
    /// The first `consumed` bytes are answered with `reply`.
    Reply { consumed: usize, reply: Reply },
    /// The first `consumed` bytes are answered with the score of `payload`.
    Score { consumed: usize, payload: Payload<'a> },
}

/// The next turn with the bytes in `buf`. A body that cannot be read is a bad
/// request.
pub fn next_turn<'a>(buf: &'a [u8], rules: &Rules) -> (r: Turn<'a>)
    ensures
        match step_of(buf@, *rules) {
            StepView::Wait => r is Wait,
            StepView::Reply(c, reply) => r matches Turn::Reply { consumed, reply: given } && consumed
                == c && given == reply,
            StepView::Score(start, end) => match request(buf@.subrange(start, end)) {
                None => r matches Turn::Reply { consumed, reply } && consumed == end && reply
                    == Reply::BadRequest,
                Some(p) => r matches Turn::Score { consumed, payload } && consumed == end
                    && payload@ == p,
            },
        },
        r matches Turn::Reply { consumed, .. } ==> 0 < consumed <= buf@.len(),
        r matches Turn::Score { consumed, .. } ==> 0 < consumed <= buf@.len(),
{
    match next_step(buf, rules) {
        Step::Wait => Turn::Wait,
        Step::Reply { consumed, reply } => Turn::Reply { consumed, reply },
        Step::Score { start, end } => match parse(&buf[start..end]) {
            Some(payload) => Turn::Score { consumed: end, payload },
            None => Turn::Reply { consumed: end, reply: Reply::BadRequest },
        },
    }
}

/// Drops the first `consumed` bytes, which were answered.
pub fn drop_answered(buf: &mut Vec<u8>, consumed: usize)
    requires
        consumed <= old(buf)@.len(),
    ensures
        final(buf)@ == old(buf)@.skip(consumed as int),
{
    let ghost before = buf@;
    let remaining: usize = buf.len() - consumed;
    if consumed > 0 {
        let mut i: usize = 0;
        while i < remaining
            invariant
                i <= remaining,
                0 < consumed,
                remaining + consumed == before.len(),
                buf.len() == before.len(),
                forall|j: int| 0 <= j < i ==> buf@[j] == before[j + consumed],
                forall|j: int| i <= j < before.len() ==> buf@[j] == before[j],
            decreases remaining - i,
        {
            let b = buf[i + consumed];
            buf[i] = b;
            i = i + 1;
        }
        buf.truncate(remaining);
    }
    assert(buf@ =~= before.skip(consumed as int));
}

/// Something done with a request.
pub enum Action {
    Replied(Reply),
    Scored(Seq<u8>),
}

/// What is done with the bytes `b`, and the bytes that are left.
pub open spec fn run(b: Seq<u8>, rules: Rules) -> (Seq<Action>, Seq<u8>)
    decreases b.len(),
    via run_decreases
{
    match step_of(b, rules) {
        StepView::Wait => (Seq::empty(), b),
        StepView::Reply(consumed, reply) => {
            let (done, left) = run(b.skip(consumed), rules);
            (seq![Action::Replied(reply)] + done, left)
        },
        StepView::Score(start, end) => {
            let (done, left) = run(b.skip(end), rules);
            (seq![Action::Scored(b.subrange(start, end))] + done, left)
        },
    }
}

#[via_fn]
proof fn run_decreases(b: Seq<u8>, rules: Rules) {
    steps_make_progress(b, rules);
}

/// A step that does not wait takes at least the four bytes that end a header,
/// and no more bytes than there are.
pub proof fn steps_make_progress(b: Seq<u8>, rules: Rules)
    ensures
        match step_of(b, rules) {
            StepView::Wait => true,
            StepView::Reply(consumed, _) => 4 <= consumed <= b.len(),
            StepView::Score(start, end) => 4 <= start <= end <= b.len(),
        },
{
    lemma_header_end_from(b, 0);
    if let Some(e) = header_end(b) {
        lemma_declared_length_nonneg(b.take(e));
    }
}

/// A header that asks for a score and declares a length, with a body of that
/// length behind it, is handed on to be scored, whatever follows.
pub proof fn whole_requests_are_scored(h: Seq<u8>, body: Seq<u8>, more: Seq<u8>, rules: Rules)
    requires
        header_end(h) == Some(h.len() as int),
        route_in(h) is FraudScore,
        declared_length(h) == Some(body.len() as int),
        rules.cap is Some ==> h.len() + body.len() <= rules.cap->0,
    ensures
        step_of(h + body + more, rules) == StepView::Score(
            h.len() as int,
            (h.len() + body.len()) as int,
        ),
        (h + body + more).subrange(h.len() as int, (h.len() + body.len()) as int) == body,
{
    let b = h + body;
    lemma_header_end_from(h, 0);
    let e = h.len() as int;
    assert forall|j: int| 0 <= j < e - 4 implies !#[trigger] occurs_at(b, empty_line(), j) by {
        assert(!occurs_at(h, empty_line(), j));
        assert(b.subrange(j, j + 4) =~= h.subrange(j, j + 4));
    }
    assert(b.subrange(e - 4, e) =~= h.subrange(e - 4, e));
    assert(occurs_at(b, empty_line(), e - 4));
    lemma_first_empty_line(b, 0, e - 4);
    assert(b.take(e) =~= h);
    steps_stand(b, more, rules);
    assert((h + body + more).subrange(e, e + body.len()) =~= body);
}

/// What comes in later changes nothing in a step that does not wait.
pub proof fn steps_stand(b: Seq<u8>, more: Seq<u8>, rules: Rules)
    requires
        step_of(b, rules) !is Wait,
    ensures
        step_of(b + more, rules) == step_of(b, rules),
{
    let all = b + more;
    lemma_header_end_from(b, 0);
    let e = header_end(b)->0;
    assert forall|j: int| 0 <= j < e - 4 implies !#[trigger] occurs_at(all, empty_line(), j) by {
        assert(!occurs_at(b, empty_line(), j));
        assert(all.subrange(j, j + 4) =~= b.subrange(j, j + 4));
    }
    assert(all.subrange(e - 4, e) =~= b.subrange(e - 4, e));
    assert(occurs_at(all, empty_line(), e - 4));
    lemma_first_empty_line(all, 0, e - 4);
    assert(all.take(e) =~= b.take(e));
}

/// What is left was not answered because it is no whole request, and it is the
/// end of what came in.
pub proof fn what_is_left_waits(b: Seq<u8>, rules: Rules)
    ensures
        step_of(run(b, rules).1, rules) is Wait,
        run(b, rules).1.len() <= b.len(),
        run(b, rules).1 == b.skip(b.len() - run(b, rules).1.len()),
    decreases b.len(),
{
    steps_make_progress(b, rules);
    match step_of(b, rules) {
        StepView::Wait => {},
        StepView::Reply(consumed, _) => {
            what_is_left_waits(b.skip(consumed), rules);
        },
        StepView::Score(_, end) => {
            what_is_left_waits(b.skip(end), rules);
        },
    }
}

/// It does not matter in how many pieces the bytes of a connection come in:
/// what is done with two pieces one after the other is what is done with both
/// at once.
pub proof fn pieces_do_not_matter(b: Seq<u8>, more: Seq<u8>, rules: Rules)
    ensures
        run(b + more, rules).0 == run(b, rules).0 + run(run(b, rules).1 + more, rules).0,
        run(b + more, rules).1 == run(run(b, rules).1 + more, rules).1,
    decreases b.len(),
{
    let (done, left) = run(b, rules);
    match step_of(b, rules) {
        StepView::Wait => {
            assert(run(b + more, rules).0 =~= Seq::<Action>::empty() + run(b + more, rules).0);
        },
        StepView::Reply(consumed, reply) => {
            steps_make_progress(b, rules);
            steps_stand(b, more, rules);
            assert((b + more).skip(consumed) =~= b.skip(consumed) + more);
            pieces_do_not_matter(b.skip(consumed), more, rules);
            assert(run(b + more, rules).0 =~= done + run(left + more, rules).0);
        },
        StepView::Score(start, end) => {
            steps_make_progress(b, rules);
            steps_stand(b, more, rules);
            assert((b + more).skip(end) =~= b.skip(end) + more);
            assert((b + more).subrange(start, end) =~= b.subrange(start, end));
            pieces_do_not_matter(b.skip(end), more, rules);
            assert(run(b + more, rules).0 =~= done + run(left + more, rules).0);
        },
    }
}

/// What is done with a header depends on what it asks for and declares alone,
/// whatever comes behind it: who asks whether the server is ready is told so, who
/// asks for anything else is answered as the rules say, who asks for a score
/// without saying how long the body is, or for one that is too long, is refused,
/// and a body is waited for as long as bytes of it are missing.
pub proof fn headers_are_answered(h: Seq<u8>, more: Seq<u8>, rules: Rules)
    requires
        header_end(h) == Some(h.len() as int),
    ensures
        route_in(h) is Ready ==> step_of(h + more, rules) == StepView::Reply(
            h.len() as int,
            Reply::Ready,
        ),
        route_in(h) is NotFound ==> step_of(h + more, rules) == StepView::Reply(
            h.len() as int,
            rules.unknown,
        ),
        route_in(h) is FraudScore && declared_length(h) is None ==> step_of(h + more, rules)
            == StepView::Reply(h.len() as int, Reply::BadRequest),
        route_in(h) is FraudScore ==> (declared_length(h) matches Some(n) ==> rules.cap is Some
            && h.len() + n > rules.cap->0 ==> step_of(h + more, rules) == StepView::Reply(
            h.len() as int,
            Reply::BadRequest,
        )),
        route_in(h) is FraudScore ==> (declared_length(h) matches Some(n) ==> (rules.cap is Some
            ==> h.len() + n <= rules.cap->0) && more.len() < n ==> step_of(h + more, rules)
            is Wait),
{
    let b = h + more;
    let e = h.len() as int;
    lemma_header_end_from(h, 0);
    assert forall|j: int| 0 <= j < e - 4 implies !#[trigger] occurs_at(b, empty_line(), j) by {
        assert(!occurs_at(h, empty_line(), j));
        assert(b.subrange(j, j + 4) =~= h.subrange(j, j + 4));
    }
    assert(b.subrange(e - 4, e) =~= h.subrange(e - 4, e));
    assert(occurs_at(b, empty_line(), e - 4));
    lemma_first_empty_line(b, 0, e - 4);
    assert(b.take(e) =~= h);
}

/// As long as no empty line has come in, more bytes are waited for. The empty line
/// is a carriage return and a line feed, twice; the first one ends the header.
pub proof fn headers_end_with_an_empty_line(b: Seq<u8>, rules: Rules)
    ensures
        header_end(b) matches Some(e) ==> {
            &&& 4 <= e <= b.len()
            &&& b[e - 4] == 0x0d && b[e - 3] == 0x0a && b[e - 2] == 0x0d && b[e - 1] == 0x0a
            &&& forall|j: int|
                0 <= j < e - 4 ==> !(#[trigger] b[j] == 0x0d && b[j + 1] == 0x0a && b[j + 2]
                    == 0x0d && b[j + 3] == 0x0a)
        },
        header_end(b) is None ==> step_of(b, rules) is Wait && forall|j: int|
            0 <= j < b.len() - 3 ==> !(#[trigger] b[j] == 0x0d && b[j + 1] == 0x0a && b[j + 2]
                == 0x0d && b[j + 3] == 0x0a),
{
    lemma_header_end_from(b, 0);
    let line = empty_line();
    assert forall|j: int|
        0 <= j < b.len() - 3 && #[trigger] b[j] == 0x0d && b[j + 1] == 0x0a && b[j + 2] == 0x0d
            && b[j + 3] == 0x0a implies occurs_at(b, line, j) by {
        assert(b.subrange(j, j + 4) =~= line);
    }
    if let Some(e) = header_end(b) {
        let end = b.subrange(e - 4, e);
        assert(end == line);
        assert(b[e - 4] == end[0] && b[e - 3] == end[1] && b[e - 2] == end[2] && b[e - 1]
            == end[3]);
    }
}

} // verus!
