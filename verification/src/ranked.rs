//! Short lists of the nearest so far: pairs of a distance and a label, in the
//! order of the distances, first come first among equals.

use vstd::multiset::Multiset;
use vstd::prelude::*;
use vstd::seq_lib::{
    to_multiset_build, to_multiset_contains, to_multiset_insert, to_multiset_remove,
};

verus! {

/// Where a distance belongs: behind everything that is not farther.
pub open spec fn place_from(top: Seq<(u32, u8)>, dist: u32, i: int) -> int
    decreases top.len() - i,
{
    if 0 <= i < top.len() && top[i].0 <= dist {
        place_from(top, dist, i + 1)
    } else {
        i
    }
}

pub open spec fn place(top: Seq<(u32, u8)>, dist: u32) -> int {
    place_from(top, dist, 0)
}

/// The list after it was offered an item: it takes the item while it has fewer
/// than `cap`, or where the item is nearer than the last, which then drops out.
pub open spec fn offer(top: Seq<(u32, u8)>, cap: int, item: (u32, u8)) -> Seq<(u32, u8)> {
    if top.len() < cap {
        top.insert(place(top, item.0), item)
    } else if item.0 < top.last().0 {
        top.insert(place(top, item.0), item).take(cap)
    } else {
        top
    }
}

/// The list after it was offered some items, one after the other.
pub open spec fn offer_all(top: Seq<(u32, u8)>, cap: int, items: Seq<(u32, u8)>) -> Seq<(u32, u8)>
    decreases items.len(),
{
    if items.len() == 0 {
        top
    } else {
        offer(offer_all(top, cap, items.drop_last()), cap, items.last())
    }
}

/// The labels of some items, in their order.
pub open spec fn labels_of(items: Seq<(u32, u8)>) -> Seq<u8> {
    Seq::new(items.len(), |i: int| items[i].1)
}

/// Nearer ones come first.
pub open spec fn is_ranked(top: Seq<(u32, u8)>) -> bool {
    forall|i: int, j: int| 0 <= i <= j < top.len() ==> top[i].0 <= top[j].0
}

pub proof fn lemma_place_from(top: Seq<(u32, u8)>, dist: u32, i: int)
    requires
        0 <= i <= top.len(),
    ensures
        i <= place_from(top, dist, i) <= top.len(),
        forall|j: int| i <= j < place_from(top, dist, i) ==> (#[trigger] top[j]).0 <= dist,
        place_from(top, dist, i) < top.len() ==> top[place_from(top, dist, i)].0 > dist,
    decreases top.len() - i,
{
    if i < top.len() && top[i].0 <= dist {
        lemma_place_from(top, dist, i + 1);
    }
}

/// An offer keeps the order and the number, and what drops out is no nearer
/// than what stays.
pub proof fn lemma_offer(top: Seq<(u32, u8)>, cap: int, item: (u32, u8))
    requires
        is_ranked(top),
        1 <= cap,
        top.len() <= cap,
    ensures
        is_ranked(offer(top, cap, item)),
        top.len() < cap ==> offer(top, cap, item).len() == top.len() + 1,
        top.len() == cap ==> offer(top, cap, item).len() == cap,
        top.len() < cap ==> offer(top, cap, item).to_multiset() == top.to_multiset().insert(item),
        top.len() == cap && item.0 < top.last().0 ==> {
            &&& offer(top, cap, item).to_multiset() == top.to_multiset().insert(item).remove(
                top.last(),
            )
            &&& offer(top, cap, item).last().0 <= top.last().0
        },
{
    let p = place(top, item.0);
    lemma_place_from(top, item.0, 0);
    let grown = top.insert(p, item);
    assert forall|i: int, j: int| 0 <= i <= j < grown.len() implies grown[i].0 <= grown[j].0 by {
        if i < p && j > p {
            assert(top[i].0 <= top[j - 1].0);
        } else if i == p && j > p {
            assert(top[p].0 <= top[j - 1].0);
        } else if i > p {
            assert(top[i - 1].0 <= top[j - 1].0);
        } else if j < p {
            assert(top[i].0 <= top[j].0);
        }
    }
    to_multiset_insert(top, p, item);
    if top.len() == cap && item.0 < top.last().0 {
        assert(p < top.len()) by {
            if p == top.len() {
                assert(top[top.len() - 1].0 <= item.0);
            }
        }
        assert(grown[cap] == top.last());
        assert(grown.remove(cap) =~= grown.take(cap));
        to_multiset_remove(grown, cap);
    }
}

/// Of all that a list was offered, it keeps the nearest: what it held and was
/// offered is what it holds and what dropped out, and nothing dropped out that
/// is nearer than the last one that stays.
pub proof fn the_nearest_stay(top: Seq<(u32, u8)>, cap: int, items: Seq<(u32, u8)>) -> (dropped:
    Multiset<(u32, u8)>)
    requires
        is_ranked(top),
        1 <= cap,
        top.len() <= cap,
    ensures
        is_ranked(offer_all(top, cap, items)),
        offer_all(top, cap, items).len() == (if top.len() + items.len() < cap {
            (top.len() + items.len()) as int
        } else {
            cap
        }),
        top.to_multiset().add(items.to_multiset()) == offer_all(
            top,
            cap,
            items,
        ).to_multiset().add(dropped),
        forall|x: (u32, u8)| #[trigger]
            dropped.count(x) > 0 ==> offer_all(top, cap, items).len() == cap && offer_all(
                top,
                cap,
                items,
            ).last().0 <= x.0,
    decreases items.len(),
{
    if items.len() == 0 {
        assert(items.to_multiset() =~= Multiset::<(u32, u8)>::empty()) by {
            broadcast use vstd::seq_lib::group_to_multiset_ensures;

        }
        Multiset::empty()
    } else {
        let before = offer_all(top, cap, items.drop_last());
        let item = items.last();
        let dropped = the_nearest_stay(top, cap, items.drop_last());
        lemma_offer(before, cap, item);
        assert(items.drop_last().push(item) =~= items);
        to_multiset_build(items.drop_last(), item);
        let after = offer(before, cap, item);
        let held = top.to_multiset().add(items.drop_last().to_multiset());
        assert(forall|x: (u32, u8)| #[trigger]
            held.count(x) == before.to_multiset().count(x) + dropped.count(x));
        assert(top.to_multiset().add(items.to_multiset()) =~= held.insert(item));
        if before.len() < cap {
            assert(top.to_multiset().add(items.to_multiset()) =~= after.to_multiset().add(dropped));
            dropped
        } else if item.0 < before.last().0 {
            let more = dropped.insert(before.last());
            to_multiset_contains(before, before.last());
            assert(before[before.len() - 1] == before.last());
            assert(before.to_multiset().count(before.last()) > 0);
            assert(top.to_multiset().add(items.to_multiset()) =~= after.to_multiset().add(more));
            more
        } else {
            let more = dropped.insert(item);
            assert(top.to_multiset().add(items.to_multiset()) =~= after.to_multiset().add(more));
            more
        }
    }
}

/// Offers an item to a list.
pub fn offer_item(top: &mut Vec<(u32, u8)>, cap: usize, item: (u32, u8))
    requires
        1 <= cap,
        old(top)@.len() <= cap,
    ensures
        final(top)@ == offer(old(top)@, cap as int, item),
{
    if top.len() == cap && item.0 >= top[top.len() - 1].0 {
        return;
    }
    let mut p: usize = 0;
    while p < top.len() && top[p].0 <= item.0
        invariant
            p <= top@.len(),
            place(top@, item.0) == place_from(top@, item.0, p as int),
        decreases top@.len() - p,
    {
        p = p + 1;
    }
    top.insert(p, item);
    top.truncate(cap);
    assert(old(top)@.len() < cap ==> top@ =~= offer(old(top)@, cap as int, item));
}

/// An offered item takes its place behind all that are not farther and before all
/// that are farther, and nothing else moves but by that one place; a full list
/// loses its last for it. A full list in which nothing is farther stays as it is.
pub proof fn offers_take_their_place(top: Seq<(u32, u8)>, cap: int, item: (u32, u8)) -> (p: int)
    requires
        is_ranked(top),
        1 <= cap,
        top.len() <= cap,
    ensures
        0 <= p <= top.len(),
        forall|j: int| 0 <= j < p ==> (#[trigger] top[j]).0 <= item.0,
        forall|j: int| p <= j < top.len() ==> (#[trigger] top[j]).0 > item.0,
        offer(top, cap, item).len() == (if top.len() < cap {
            (top.len() + 1) as int
        } else {
            cap
        }),
        forall|j: int| 0 <= j < p ==> #[trigger] offer(top, cap, item)[j] == top[j],
        p < cap ==> offer(top, cap, item)[p] == item,
        forall|j: int|
            p < j < offer(top, cap, item).len() ==> #[trigger] offer(top, cap, item)[j] == top[j
                - 1],
        p == cap ==> offer(top, cap, item) == top,
{
    let p = place(top, item.0);
    lemma_place_from(top, item.0, 0);
    lemma_offer(top, cap, item);
    if p < top.len() {
        assert forall|j: int| p <= j < top.len() implies (#[trigger] top[j]).0 > item.0 by {
            assert(top[p].0 <= top[j].0);
        }
        assert(top[top.len() - 1].0 > item.0);
    } else if top.len() == cap {
        assert(top[top.len() - 1].0 <= item.0);
    }
    p
}

/// Items are offered one after the other, and their labels stay with them.
pub proof fn offers_come_in_their_order(
    top: Seq<(u32, u8)>,
    cap: int,
    items: Seq<(u32, u8)>,
    item: (u32, u8),
)
    ensures
        offer_all(top, cap, Seq::empty()) == top,
        offer_all(top, cap, items.push(item)) == offer(offer_all(top, cap, items), cap, item),
        labels_of(items).len() == items.len(),
        labels_of(items.push(item)) == labels_of(items).push(item.1),
{
    assert(items.push(item).drop_last() =~= items);
    assert(labels_of(items.push(item)) =~= labels_of(items).push(item.1));
}

} // verus!
