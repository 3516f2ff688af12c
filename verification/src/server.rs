//! The event-driven server: its connections, its replies and how it scores.

use vstd::prelude::*;

use crate::fraud::data::IndexTable;
use crate::fraud::json::{Payload, PayloadView};
use crate::fraud::search::{answering_slot, label_sum, search_with_fallback};
use crate::fraud::search_laws::{
    a_search_counts_to_five, answers_follow_the_first_look, the_first_index_that_is_there_answers,
};
use crate::fraud::vector::{
    bits_of_a_tag_are_flags, ints, shorts, tag_from_request, tag_of, vector_of, vectorize, Scaled,
};
use crate::net::response::{ascii, ascii_bytes, score_body, score_length_text};
use crate::net::steps::{Reply, Rules};

verus! {

/// How many bytes of a connection are kept.
pub const BUF_CAP: usize = 4096;

/// How many connections there is room for at first.
pub const MIN_STATES: usize = 1024;

/// The reply of a server that is ready.
pub const RESP_READY: &'static str = "HTTP/1.1 200 OK\r\nContent-Length: 2\r\n\r\nOK";

/// The reply to what is not a request, or not one that can be read.
pub const RESP_BAD: &'static str = "HTTP/1.1 400 Bad Request\r\nContent-Length: 0\r\n\r\n";

/// There is no limit but the buffer, and anything else is a bad request.
pub fn rules() -> (r: Rules)
    ensures
        r == (Rules { cap: None, unknown: Reply::BadRequest }),
{
    Rules { cap: None, unknown: Reply::BadRequest }
}

/// The response to a request with this many fraud votes.
pub open spec fn plain_score_response(count: int) -> Seq<char> {
    "HTTP/1.1 200 OK\r\nContent-Type: application/json\r\nContent-Length: "@ + score_length_text(
        count,
    ) + "\r\n\r\n"@ + score_body(count)
}

fn resp_0() -> (r: &'static [u8])
    ensures
        r@ == ascii(plain_score_response(0)),
{
    let text =
        "HTTP/1.1 200 OK\r\nContent-Type: application/json\r\nContent-Length: 35\r\n\r\n{\"approved\":true,\"fraud_score\":0.0}";
    proof {
        reveal_strlit(
            "HTTP/1.1 200 OK\r\nContent-Type: application/json\r\nContent-Length: 35\r\n\r\n{\"approved\":true,\"fraud_score\":0.0}",
        );
        reveal_strlit("HTTP/1.1 200 OK\r\nContent-Type: application/json\r\nContent-Length: ");
        reveal_strlit("35");
        reveal_strlit("\r\n\r\n");
        reveal_strlit("{\"approved\":");
        reveal_strlit("true");
        reveal_strlit(",\"fraud_score\":");
        reveal_strlit("0.0");
        reveal_strlit("}");
        assert(text@ =~= plain_score_response(0));
    }
    ascii_bytes(text)
}

fn resp_1() -> (r: &'static [u8])
    ensures
        r@ == ascii(plain_score_response(1)),
{
    let text =
        "HTTP/1.1 200 OK\r\nContent-Type: application/json\r\nContent-Length: 35\r\n\r\n{\"approved\":true,\"fraud_score\":0.2}";
    proof {
        reveal_strlit(
            "HTTP/1.1 200 OK\r\nContent-Type: application/json\r\nContent-Length: 35\r\n\r\n{\"approved\":true,\"fraud_score\":0.2}",
        );
        reveal_strlit("HTTP/1.1 200 OK\r\nContent-Type: application/json\r\nContent-Length: ");
        reveal_strlit("35");
        reveal_strlit("\r\n\r\n");
        reveal_strlit("{\"approved\":");
        reveal_strlit("true");
        reveal_strlit(",\"fraud_score\":");
        reveal_strlit("0.2");
        reveal_strlit("}");
        assert(text@ =~= plain_score_response(1));
    }
    ascii_bytes(text)
}

fn resp_2() -> (r: &'static [u8])
    ensures
        r@ == ascii(plain_score_response(2)),
{
    let text =
        "HTTP/1.1 200 OK\r\nContent-Type: application/json\r\nContent-Length: 35\r\n\r\n{\"approved\":true,\"fraud_score\":0.4}";
    proof {
        reveal_strlit(
            "HTTP/1.1 200 OK\r\nContent-Type: application/json\r\nContent-Length: 35\r\n\r\n{\"approved\":true,\"fraud_score\":0.4}",
        );
        reveal_strlit("HTTP/1.1 200 OK\r\nContent-Type: application/json\r\nContent-Length: ");
        reveal_strlit("35");
        reveal_strlit("\r\n\r\n");
        reveal_strlit("{\"approved\":");
        reveal_strlit("true");
        reveal_strlit(",\"fraud_score\":");
        reveal_strlit("0.4");
        reveal_strlit("}");
        assert(text@ =~= plain_score_response(2));
    }
    ascii_bytes(text)
}

fn resp_3() -> (r: &'static [u8])
    ensures
        r@ == ascii(plain_score_response(3)),
{
    let text =
        "HTTP/1.1 200 OK\r\nContent-Type: application/json\r\nContent-Length: 36\r\n\r\n{\"approved\":false,\"fraud_score\":0.6}";
    proof {
        reveal_strlit(
            "HTTP/1.1 200 OK\r\nContent-Type: application/json\r\nContent-Length: 36\r\n\r\n{\"approved\":false,\"fraud_score\":0.6}",
        );
        reveal_strlit("HTTP/1.1 200 OK\r\nContent-Type: application/json\r\nContent-Length: ");
        reveal_strlit("36");
        reveal_strlit("\r\n\r\n");
        reveal_strlit("{\"approved\":");
        reveal_strlit("false");
        reveal_strlit(",\"fraud_score\":");
        reveal_strlit("0.6");
        reveal_strlit("}");
        assert(text@ =~= plain_score_response(3));
    }
    ascii_bytes(text)
}

fn resp_4() -> (r: &'static [u8])
    ensures
        r@ == ascii(plain_score_response(4)),
{
    let text =
        "HTTP/1.1 200 OK\r\nContent-Type: application/json\r\nContent-Length: 36\r\n\r\n{\"approved\":false,\"fraud_score\":0.8}";
    proof {
        reveal_strlit(
            "HTTP/1.1 200 OK\r\nContent-Type: application/json\r\nContent-Length: 36\r\n\r\n{\"approved\":false,\"fraud_score\":0.8}",
        );
        reveal_strlit("HTTP/1.1 200 OK\r\nContent-Type: application/json\r\nContent-Length: ");
        reveal_strlit("36");
        reveal_strlit("\r\n\r\n");
        reveal_strlit("{\"approved\":");
        reveal_strlit("false");
        reveal_strlit(",\"fraud_score\":");
        reveal_strlit("0.8");
        reveal_strlit("}");
        assert(text@ =~= plain_score_response(4));
    }
    ascii_bytes(text)
}

fn resp_5() -> (r: &'static [u8])
    ensures
        r@ == ascii(plain_score_response(5)),
{
    let text =
        "HTTP/1.1 200 OK\r\nContent-Type: application/json\r\nContent-Length: 36\r\n\r\n{\"approved\":false,\"fraud_score\":1.0}";
    proof {
        reveal_strlit(
            "HTTP/1.1 200 OK\r\nContent-Type: application/json\r\nContent-Length: 36\r\n\r\n{\"approved\":false,\"fraud_score\":1.0}",
        );
        reveal_strlit("HTTP/1.1 200 OK\r\nContent-Type: application/json\r\nContent-Length: ");
        reveal_strlit("36");
        reveal_strlit("\r\n\r\n");
        reveal_strlit("{\"approved\":");
        reveal_strlit("false");
        reveal_strlit(",\"fraud_score\":");
        reveal_strlit("1.0");
        reveal_strlit("}");
        assert(text@ =~= plain_score_response(5));
    }
    ascii_bytes(text)
}

/// The response to a request with this many fraud votes; over five count as
/// five.
pub fn fraud_response(count: u8) -> (r: &'static [u8])
    ensures
        r@ == ascii(plain_score_response(count as int)),
{
    match count {
        0 => resp_0(),
        1 => resp_1(),
        2 => resp_2(),
        3 => resp_3(),
        4 => resp_4(),
        _ => resp_5(),
    }
}

/// The bytes of a canned reply.
pub fn canned(reply: Reply) -> (r: &'static [u8])
    ensures
        r@ == ascii(
            if reply is Ready {
                RESP_READY@
            } else {
                RESP_BAD@
            },
        ),
{
    proof {
        reveal_strlit("HTTP/1.1 200 OK\r\nContent-Length: 2\r\n\r\nOK");
        reveal_strlit("HTTP/1.1 400 Bad Request\r\nContent-Length: 0\r\n\r\n");
    }
    match reply {
        Reply::Ready => ascii_bytes(RESP_READY),
        _ => ascii_bytes(RESP_BAD),
    }
}

/// The fraud votes for the request `p`: what is found in the index that answers
/// for its tag, searched for its vector.
pub open spec fn votes_for(table: IndexTable, p: PayloadView, s: Scaled) -> int {
    match answering_slot(table, tag_of(p)) {
        Some(t) => label_sum(table.slots@[t]->0.found_labels(shorts(vector_of(p, s)))) % 0x100,
        None => 0,
    }
}

/// The fraud votes for a request.
pub fn count_votes(table: &IndexTable, p: &Payload, s: &Scaled) -> (r: u8)
    requires
        table.wf(),
        table.clusters_fit(),
    ensures
        r == votes_for(*table, p@, *s),
{
    let q = vectorize(p, s);
    assert(q@ =~= shorts(ints(q@)));
    search_with_fallback(table, tag_from_request(p), &q)
}

/// A connection: the bytes that came in and were not answered yet.
pub struct ConnState {
    pub buf: [u8; 4096],
    pub pos: usize,
}

impl ConnState {
    pub open spec fn wf(&self) -> bool {
        self.pos <= BUF_CAP
    }

    /// The bytes that were not answered yet.
    pub open spec fn pending(&self) -> Seq<u8> {
        self.buf@.take(self.pos as int)
    }

    /// A connection on which nothing came in: its buffer holds zeros, and none
    /// of them counts.
    pub fn new() -> (r: ConnState)
        ensures
            r.wf(),
            r.pos == 0,
            r.buf@ == Seq::new(BUF_CAP as nat, |i: int| 0u8),
            r.pending() == Seq::<u8>::empty(),
    {
        let r = ConnState { buf: [0; 4096], pos: 0 };
        assert(r.pending() =~= Seq::<u8>::empty());
        assert(r.buf@ =~= Seq::new(BUF_CAP as nat, |i: int| 0u8));
        r
    }

    /// How many more bytes there is room for.
    pub fn room(&self) -> (r: usize)
        requires
            self.wf(),
        ensures
            r == BUF_CAP - self.pending().len(),
            r == 4096 - self.pending().len(),
    {
        BUF_CAP - self.pos
    }

    /// The bytes from `from` on that were not answered yet.
    pub fn waiting(&self, from: usize) -> (r: &[u8])
        requires
            self.wf(),
            from <= self.pending().len(),
        ensures
            r@ == self.pending().skip(from as int),
    {
        let r = &self.buf[from..self.pos];
        assert(r@ =~= self.pending().skip(from as int));
        r
    }

    /// Takes in bytes that came.
    pub fn receive(&mut self, bytes: &[u8])
        requires
            old(self).wf(),
            old(self).pending().len() + bytes@.len() <= BUF_CAP,
        ensures
            final(self).wf(),
            final(self).pending() == old(self).pending() + bytes@,
    {
        let ghost before = self.pending();
        let start: usize = self.pos;
        let mut i: usize = 0;
        while i < bytes.len()
            invariant
                i <= bytes@.len(),
                start + bytes@.len() <= BUF_CAP,
                before.len() == start,
                forall|j: int| 0 <= j < start ==> self.buf@[j] == before[j],
                forall|j: int| start <= j < start + i ==> self.buf@[j] == bytes@[j - start],
            decreases bytes@.len() - i,
        {
            self.buf[start + i] = bytes[i];
            i = i + 1;
        }
        self.pos = start + i;
        assert(self.pending() =~= before + bytes@);
    }

    /// Drops the first `consumed` bytes, which were answered.
    pub fn drop_answered(&mut self, consumed: usize)
        requires
            old(self).wf(),
            consumed <= old(self).pending().len(),
        ensures
            final(self).wf(),
            final(self).pending() == old(self).pending().skip(consumed as int),
    {
        let ghost before = self.pending();
        let remaining: usize = self.pos - consumed;
        let mut i: usize = 0;
        if consumed > 0 {
            while i < remaining
                invariant
                    i <= remaining,
                    0 < consumed,
                    remaining + consumed == before.len(),
                    before.len() <= BUF_CAP,
                    forall|j: int| 0 <= j < i ==> self.buf@[j] == before[j + consumed],
                    forall|j: int| i <= j < before.len() ==> self.buf@[j] == before[j],
                decreases remaining - i,
            {
                self.buf[i] = self.buf[i + consumed];
                i = i + 1;
            }
        }
        self.pos = remaining;
        assert(self.pending() =~= before.skip(consumed as int));
    }

    /// Forgets everything that came in.
    pub fn reset(&mut self)
        ensures
            final(self).wf(),
            final(self).pending() == Seq::<u8>::empty(),
    {
        self.pos = 0;
        assert(self.pending() =~= Seq::<u8>::empty());
    }
}

/// Whether `n` is a power of two.
pub open spec fn is_power_of_two(n: int) -> bool
    decreases n,
{
    n == 1 || (n > 1 && n % 2 == 0 && is_power_of_two(n / 2))
}

/// How many connections there should be room for so that there is room for
/// number `fd`: the first power of two above it, and `MIN_STATES` at least.
pub fn states_for(fd: u32) -> (r: u64)
    ensures
        r > fd,
        r >= MIN_STATES,
        is_power_of_two(r as int),
        r > MIN_STATES ==> r / 2 <= fd,
        r >= 1024,
        r > 1024 ==> r / 2 <= fd,
{
    let mut r: u64 = 1024;
    proof {
        reveal_with_fuel(is_power_of_two, 11);
    }
    while r <= fd as u64
        invariant
            r >= MIN_STATES,
            r <= 0x2_0000_0000,
            is_power_of_two(r as int),
            r > MIN_STATES ==> r / 2 <= fd,
        decreases 0x2_0000_0000 - r,
    {
        assert((r * 2) / 2 == r);
        r = r * 2;
    }
    r
}

/// The number of the partition that a request belongs to: eight where the card is
/// present, and four where the terminal is online, two where the merchant is
/// unknown and one where there was a transaction before.
pub open spec fn partition_of(p: PayloadView) -> int {
    let card = if p.card_present {
        8int
    } else {
        0
    };
    let online = if p.is_online {
        4int
    } else {
        0
    };
    let unknown = if p.is_unknown_merchant {
        2int
    } else {
        0
    };
    let before = if p.has_last_tx {
        1int
    } else {
        0
    };
    card + online + unknown + before
}

/// A request is scored by the index of its own partition where there is one: by
/// the five nearest vectors in the first twelve clusters where all or none of them
/// are fraud, and else by the five nearest of all. Where there is none, that of the
/// partition without the card scores it, then that without the online terminal,
/// and where none of them is there it has no votes.
pub proof fn requests_are_scored_by_their_partition(table: IndexTable, p: PayloadView, s: Scaled)
    ensures
        ({
            let t = partition_of(p);
            let q = shorts(vector_of(p, s));
            let ix = if table.slots@[t] is Some {
                table.slots@[t]
            } else if table.slots@[t % 8] is Some {
                table.slots@[t % 8]
            } else {
                table.slots@[t % 4]
            };
            &&& ix is None ==> votes_for(table, p, s) == 0
            &&& ix is Some && ix->0.is_sound_for(q) && ix->0.has_binary_labels() ==> votes_for(
                table,
                p,
                s,
            ) == (if 1 <= ix->0.first_votes(q, 12) <= 4 {
                ix->0.nearest_votes(q)
            } else {
                ix->0.first_votes(q, 12)
            })
        }),
{
    let t = partition_of(p);
    let q = shorts(vector_of(p, s));
    bits_of_a_tag_are_flags(p);
    assert(tag_of(p) == t);
    the_first_index_that_is_there_answers(table, t);
    if answering_slot(table, t) is Some {
        let ix = table.slots@[answering_slot(table, t)->0]->0;
        if ix.is_sound_for(q) && ix.has_binary_labels() {
            a_search_counts_to_five(&ix, q);
            answers_follow_the_first_look(&ix, q);
        }
    }
}

} // verus!
