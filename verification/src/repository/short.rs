//! The short lists that a search keeps on the stack.

use vstd::prelude::*;

use smallvec::SmallVec;

use crate::ranked::{labels_of, offer, place, place_from};

verus! {

/// A list of pairs of a distance and a label: a `smallvec::SmallVec` with room
/// for six before it moves to the heap.
#[verifier::external_body]
pub struct Ranked {
    inner: SmallVec<[(u32, u8); 6]>,
}

/// The pairs in a list.
pub uninterp spec fn pairs_in(list: Ranked) -> Seq<(u32, u8)>;

/// A list of labels: a `smallvec::SmallVec` with room for five before it moves
/// to the heap.
#[verifier::external_body]
#[derive(Debug)]
pub struct Labels {
    inner: SmallVec<[u8; 5]>,
}

/// The labels in a list.
pub uninterp spec fn labels_in(list: Labels) -> Seq<u8>;

/// `SmallVec::new` makes a list with nothing in it.
#[verifier::external_body]
fn ranked_new() -> (r: Ranked)
    ensures
        pairs_in(r) == Seq::<(u32, u8)>::empty(),
{
    Ranked { inner: SmallVec::new() }
}

/// `SmallVec::as_slice` shows what is in a list, in its order.
#[verifier::external_body]
fn ranked_slice(list: &Ranked) -> (r: &[(u32, u8)])
    ensures
        r@ == pairs_in(*list),
{
    list.inner.as_slice()
}

/// `SmallVec::insert` puts an item at a position and moves what stood there
/// and behind it back by one; it panics at a position behind the end.
#[verifier::external_body]
fn ranked_insert(list: &mut Ranked, at: usize, item: (u32, u8))
    requires
        at <= pairs_in(*old(list)).len(),
    ensures
        pairs_in(*final(list)) == pairs_in(*old(list)).insert(at as int, item),
{
    list.inner.insert(at, item)
}

/// `SmallVec::truncate` drops what stands at `len` and behind it.
#[verifier::external_body]
fn ranked_truncate(list: &mut Ranked, len: usize)
    ensures
        pairs_in(*final(list)) == (if len < pairs_in(*old(list)).len() {
            pairs_in(*old(list)).take(len as int)
        } else {
            pairs_in(*old(list))
        }),
{
    list.inner.truncate(len)
}

/// `SmallVec::new` makes a list with nothing in it.
#[verifier::external_body]
fn labels_new() -> (r: Labels)
    ensures
        labels_in(r) == Seq::<u8>::empty(),
{
    Labels { inner: SmallVec::new() }
}

/// `SmallVec::push` adds a label behind the last.
#[verifier::external_body]
fn labels_push(list: &mut Labels, label: u8)
    ensures
        labels_in(*final(list)) == labels_in(*old(list)).push(label),
{
    list.inner.push(label)
}

/// `SmallVec::as_slice` shows what is in a list, in its order.
#[verifier::external_body]
fn labels_slice(list: &Labels) -> (r: &[u8])
    ensures
        r@ == labels_in(*list),
{
    list.inner.as_slice()
}

impl Ranked {
    /// A list with nothing in it.
    pub fn new() -> (r: Ranked)
        ensures
            pairs_in(r) == Seq::<(u32, u8)>::empty(),
    {
        ranked_new()
    }

    /// Offers an item to the list, which keeps the `cap` nearest.
    pub fn offer_item(&mut self, cap: usize, item: (u32, u8))
        requires
            1 <= cap,
            pairs_in(*old(self)).len() <= cap,
        ensures
            pairs_in(*final(self)) == offer(pairs_in(*old(self)), cap as int, item),
    {
        let ghost before = pairs_in(*self);
        let held = ranked_slice(self);
        if held.len() == cap && item.0 >= held[held.len() - 1].0 {
            return;
        }
        let mut p: usize = 0;
        while p < held.len() && held[p].0 <= item.0
            invariant
                held@ == before,
                p <= held@.len(),
                place(before, item.0) == place_from(before, item.0, p as int),
            decreases held@.len() - p,
        {
            p = p + 1;
        }
        ranked_insert(self, p, item);
        ranked_truncate(self, cap);
    }

    /// The labels of the list, in its order.
    pub fn labels(&self) -> (r: Labels)
        ensures
            labels_in(r) == labels_of(pairs_in(*self)),
    {
        let held = ranked_slice(self);
        let mut r = labels_new();
        let mut i: usize = 0;
        while i < held.len()
            invariant
                held@ == pairs_in(*self),
                i <= held@.len(),
                labels_in(r).len() == i,
                forall|j: int| 0 <= j < i ==> #[trigger] labels_in(r)[j] == held@[j].1,
            decreases held@.len() - i,
        {
            labels_push(&mut r, held[i].1);
            i = i + 1;
        }
        assert(labels_in(r) =~= labels_of(pairs_in(*self)));
        r
    }
}

impl Labels {
    /// The labels as a slice.
    pub fn as_slice(&self) -> (r: &[u8])
        ensures
            r@ == labels_in(*self),
    {
        labels_slice(self)
    }
}

} // verus!
