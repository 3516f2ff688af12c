//! Choosing the smallest of many values by their positions.

use vstd::prelude::*;

verus! {

/// Whether position `a` comes before position `b`: its value is smaller, or
/// the same and further to the front.
pub open spec fn is_before(d: Seq<u32>, a: int, b: int) -> bool {
    d[a] < d[b] || (d[a] == d[b] && a < b)
}

/// Whether `r` are positions below `upto`, in order, before all the others
/// below `upto`.
pub open spec fn selects(d: Seq<u32>, r: Seq<usize>, upto: int) -> bool {
    &&& forall|i: int| 0 <= i < r.len() ==> #[trigger] r[i] < upto
    &&& forall|i: int, j: int|
        0 <= i < j < r.len() ==> is_before(d, #[trigger] r[i] as int, #[trigger] r[j] as int)
    &&& forall|c: usize, i: int|
        c < upto && !r.contains(c) && 0 <= i < r.len() ==> #[trigger] is_before(
            d,
            r[i] as int,
            c as int,
        )
}

/// Whether `r` are the positions of the `n` smallest values, in order.
pub open spec fn is_selection(d: Seq<u32>, r: Seq<usize>, n: int) -> bool {
    r.len() == n && selects(d, r, d.len() as int)
}

/// The positions of the `n` smallest values, in order.
pub open spec fn selection(d: Seq<u32>, n: int) -> Seq<usize> {
    choose|r: Seq<usize>| is_selection(d, r, n)
}

/// There is one selection only.
pub proof fn selections_are_unique(d: Seq<u32>, r: Seq<usize>, s: Seq<usize>, n: int)
    requires
        is_selection(d, r, n),
        is_selection(d, s, n),
    ensures
        r == s,
{
    assert forall|i: int| 0 <= i < n implies r[i] == s[i] by {
        lemma_same_prefix(d, r, s, n, i + 1);
    }
    assert(r =~= s);
}

proof fn lemma_same_prefix(d: Seq<u32>, r: Seq<usize>, s: Seq<usize>, n: int, m: int)
    requires
        is_selection(d, r, n),
        is_selection(d, s, n),
        0 <= m <= n,
    ensures
        forall|i: int| 0 <= i < m ==> r[i] == s[i],
    decreases m,
{
    if m > 0 {
        let i = m - 1;
        lemma_same_prefix(d, r, s, n, i);
        if r[i] != s[i] {
            lemma_not_after(d, r, s, n, i);
            lemma_not_after(d, s, r, n, i);
        }
    }
}

/// Where two selections agree below `i`, the one has nothing at `i` that comes
/// before what the other has there.
proof fn lemma_not_after(d: Seq<u32>, r: Seq<usize>, s: Seq<usize>, n: int, i: int)
    requires
        is_selection(d, r, n),
        is_selection(d, s, n),
        0 <= i < n,
        forall|j: int| 0 <= j < i ==> r[j] == s[j],
        r[i] != s[i],
    ensures
        is_before(d, r[i] as int, s[i] as int),
{
    if r.contains(s[i]) {
        let j = choose|j: int| 0 <= j < r.len() && r[j] == s[i];
        if j < i {
            assert(s[j] == s[i]);
            assert(is_before(d, s[j] as int, s[i] as int));
        }
        assert(is_before(d, r[i] as int, r[j] as int));
    } else {
        assert(is_before(d, r[i] as int, s[i] as int));
    }
}

proof fn lemma_insert(d: Seq<u32>, r: Seq<usize>, n: int, c: usize, p: int)
    requires
        c < d.len(),
        selects(d, r, c as int),
        r.len() <= n,
        r.len() < n ==> forall|x: usize| x < c ==> r.contains(x),
        0 <= p <= r.len(),
        forall|i: int| 0 <= i < p ==> d[(#[trigger] r[i]) as int] <= d[c as int],
        p < r.len() ==> d[r[p] as int] > d[c as int],
    ensures
        r.len() < n ==> selects(d, r.insert(p, c), c + 1) && forall|x: usize|
            x <= c ==> r.insert(p, c).contains(x),
        r.len() == n && p < n ==> selects(d, r.insert(p, c).take(n), c + 1),
        r.len() == n && p == n ==> selects(d, r, c + 1),
{
    let grown = r.insert(p, c);
    assert(grown[p] == c);
    assert forall|i: int| 0 <= i < r.len() implies (i < p ==> is_before(
        d,
        #[trigger] r[i] as int,
        c as int,
    )) && (i >= p ==> is_before(d, c as int, r[i] as int)) by {
        if i > p {
            assert(is_before(d, r[p] as int, r[i] as int));
        }
    }
    assert forall|i: int, j: int| 0 <= i < j < grown.len() implies is_before(
        d,
        #[trigger] grown[i] as int,
        #[trigger] grown[j] as int,
    ) by {
        let a = if i > p {
            i - 1
        } else {
            i
        };
        let b = if j > p {
            j - 1
        } else {
            j
        };
        if i != p && j != p {
            assert(grown[i] == r[a] && grown[j] == r[b]);
            assert(is_before(d, r[a] as int, r[b] as int));
        } else if i == p {
            assert(grown[j] == r[b]);
        } else {
            assert(grown[i] == r[a]);
        }
    }
    assert forall|x: usize| x <= c && x != c && r.contains(x) implies grown.contains(x) by {
        let k = choose|k: int| 0 <= k < r.len() && r[k] == x;
        if k < p {
            assert(grown[k] == x);
        } else {
            assert(grown[k + 1] == x);
        }
    }
    assert(grown.contains(c));
    assert forall|i: int| 0 <= i < grown.len() implies #[trigger] grown[i] < c + 1 by {
        if i < p {
            assert(grown[i] == r[i]);
        } else if i > p {
            assert(grown[i] == r[i - 1]);
        }
    }
    if r.len() == n && p < n {
        let kept = grown.take(n);
        let last = r[n - 1];
        assert(grown[n] == last);
        assert forall|x: usize, i: int|
            x < c + 1 && !kept.contains(x) && 0 <= i < kept.len() implies #[trigger] is_before(
            d,
            kept[i] as int,
            x as int,
        ) by {
            assert(kept[i] == grown[i]);
            assert(kept[p] == c);
            if r.contains(x) {
                let k = choose|k: int| 0 <= k < r.len() && r[k] == x;
                if k < p {
                    assert(kept[k] == x);
                } else if k < n - 1 {
                    assert(kept[k + 1] == x);
                }
                assert(x == last);
                assert(is_before(d, grown[i] as int, grown[n] as int));
            } else {
                assert(is_before(d, last as int, x as int));
                assert(is_before(d, grown[i] as int, grown[n] as int));
            }
        }
    }
    if r.len() == n && p == n {
        assert forall|x: usize, i: int|
            x < c + 1 && !r.contains(x) && 0 <= i < r.len() implies #[trigger] is_before(
            d,
            r[i] as int,
            x as int,
        ) by {
            if x == c {
                assert(is_before(d, r[i] as int, c as int));
            }
        }
    }
}

/// Where the value of `c` belongs among the values of `r` from `p` on: before
/// the first that is greater.
proof fn lemma_place(d: Seq<u32>, r: Seq<usize>, c: usize, p: int) -> (at: int)
    requires
        0 <= p <= r.len(),
        forall|i: int| 0 <= i < p ==> d[(#[trigger] r[i]) as int] <= d[c as int],
    ensures
        p <= at <= r.len(),
        forall|i: int| 0 <= i < at ==> d[(#[trigger] r[i]) as int] <= d[c as int],
        at < r.len() ==> d[r[at] as int] > d[c as int],
    decreases r.len() - p,
{
    if p < r.len() && d[r[p] as int] <= d[c as int] {
        lemma_place(d, r, c, p + 1)
    } else {
        p
    }
}

/// A selection from the first `upto` positions.
proof fn lemma_selects(d: Seq<u32>, n: int, upto: int) -> (r: Seq<usize>)
    requires
        0 <= n,
        0 <= upto <= d.len(),
        upto <= usize::MAX + 1,
    ensures
        selects(d, r, upto),
        r.len() == (if n < upto {
            n
        } else {
            upto
        }),
        r.len() < n ==> forall|x: usize| x < upto ==> r.contains(x),
    decreases upto,
{
    if upto == 0 {
        Seq::empty()
    } else {
        let c = (upto - 1) as usize;
        let r = lemma_selects(d, n, upto - 1);
        let p = lemma_place(d, r, c, 0);
        lemma_insert(d, r, n, c, p);
        if r.len() < n {
            r.insert(p, c)
        } else if p < n {
            r.insert(p, c).take(n)
        } else {
            r
        }
    }
}

/// There is a selection of every number of positions up to that of the values,
/// and to that of the positions that a `usize` can hold: `selection` gives it.
pub proof fn selections_exist(d: Seq<u32>, n: int)
    requires
        0 <= n <= d.len(),
        n <= usize::MAX + 1,
    ensures
        is_selection(d, selection(d, n), n),
{
    let upto = if d.len() <= usize::MAX + 1 {
        d.len() as int
    } else {
        usize::MAX + 1
    };
    let r = lemma_selects(d, n, upto);
    assert(is_selection(d, r, n));
}

/// The positions of the `n` smallest values, in order.
pub fn select_smallest(d: &[u32], n: usize) -> (r: Vec<usize>)
    requires
        n <= d@.len(),
    ensures
        is_selection(d@, r@, n as int),
        r@ == selection(d@, n as int),
{
    let mut r: Vec<usize> = Vec::new();
    let mut c: usize = 0;
    while c < d.len()
        invariant
            c <= d@.len(),
            r@.len() <= n <= d@.len(),
            selects(d@, r@, c as int),
            r@.len() < n ==> forall|x: usize| x < c ==> r@.contains(x),
            r@.len() <= c,
            r@.len() < n ==> r@.len() == c,
        decreases d@.len() - c,
    {
        let mut p: usize = 0;
        while p < r.len() && d[r[p]] <= d[c]
            invariant
                p <= r@.len(),
                c < d@.len(),
                forall|i: int| 0 <= i < r@.len() ==> #[trigger] r@[i] < c,
                forall|i: int| 0 <= i < p ==> d@[(#[trigger] r@[i]) as int] <= d@[c as int],
            decreases r@.len() - p,
        {
            p = p + 1;
        }
        proof {
            lemma_insert(d@, r@, n as int, c, p as int);
        }
        if r.len() < n {
            r.insert(p, c);
        } else if p < n {
            let ghost before = r@;
            r.insert(p, c);
            r.truncate(n);
            assert(r@ =~= before.insert(p as int, c).take(n as int));
        }
        c = c + 1;
    }
    proof {
        selections_are_unique(d@, r@, selection(d@, n as int), n as int);
    }
    r
}

/// The positions selected are as many as asked for, of the smallest values: they
/// come by their values, among equal values by their position, and every value
/// left out is larger than those selected, or equal and further back.
pub proof fn the_smallest_are_selected(d: Seq<u32>, n: int)
    requires
        0 <= n <= d.len(),
        n <= usize::MAX + 1,
    ensures
        selection(d, n).len() == n,
        forall|i: int| 0 <= i < n ==> 0 <= #[trigger] selection(d, n)[i] < d.len(),
        forall|i: int, j: int|
            0 <= i < j < n ==> {
                let a = #[trigger] selection(d, n)[i] as int;
                let b = #[trigger] selection(d, n)[j] as int;
                d[a] < d[b] || (d[a] == d[b] && a < b)
            },
        forall|c: int, i: int|
            #![trigger d[c], selection(d, n)[i]]
            0 <= c < d.len() && c <= usize::MAX && !selection(d, n).contains(c as usize) && 0 <= i
                < n ==> d[selection(d, n)[i] as int] < d[c] || (d[selection(d, n)[i] as int]
                == d[c] && selection(d, n)[i] < c),
{
    selections_exist(d, n);
    let r = selection(d, n);
    assert forall|i: int, j: int| 0 <= i < j < n implies {
        let a = #[trigger] r[i] as int;
        let b = #[trigger] r[j] as int;
        d[a] < d[b] || (d[a] == d[b] && a < b)
    } by {
        assert(is_before(d, r[i] as int, r[j] as int));
    }
    assert forall|c: int, i: int|
        #![trigger d[c], r[i]]
        0 <= c < d.len() && c <= usize::MAX && !r.contains(c as usize) && 0 <= i
            < n implies d[r[i] as int] < d[c] || (d[r[i] as int] == d[c] && r[i] < c) by {
        let x = c as usize;
        assert(is_before(d, r[i] as int, x as int));
    }
}

} // verus!
