//! Ordering positions of a list by a key, with equal keys kept in list order.

use vstd::prelude::*;
use vstd::relations::{sorted_by, total_ordering};
use vstd::seq_lib::{group_to_multiset_ensures, lemma_sorted_unique, to_multiset_insert};

verus! {

/// Whether position `a` comes no later than position `b`: by number, then
/// `false` before `true`, then by position.
pub open spec fn comes_first(keys: Seq<(u64, bool)>, a: usize, b: usize) -> bool {
    let (x, p) = keys[a as int];
    let (y, q) = keys[b as int];
    if x != y {
        x < y
    } else if p != q {
        q
    } else {
        a <= b
    }
}

/// The positions of `keys`, sorted.
pub open spec fn sorted_positions(keys: Seq<(u64, bool)>) -> Seq<usize> {
    Seq::new(keys.len(), |i: int| i as usize).sort_by(|a: usize, b: usize| comes_first(keys, a, b))
}

proof fn lemma_comes_first_is_total(keys: Seq<(u64, bool)>)
    ensures
        total_ordering(|a: usize, b: usize| comes_first(keys, a, b)),
{
}

/// Sorted positions name each position once, in key order.
pub proof fn lemma_sorted_positions(keys: Seq<(u64, bool)>)
    requires
        keys.len() <= usize::MAX,
    ensures
        sorted_positions(keys).len() == keys.len(),
        sorted_positions(keys).no_duplicates(),
        forall|i: int| 0 <= i < keys.len() ==> #[trigger] sorted_positions(keys)[i] < keys.len(),
        forall|p: usize| p < keys.len() ==> #[trigger] sorted_positions(keys).contains(p),
        forall|i: int, j: int|
            0 <= i < j < keys.len() ==> comes_first(
                keys,
                #[trigger] sorted_positions(keys)[i],
                #[trigger] sorted_positions(keys)[j],
            ),
{
    broadcast use group_to_multiset_ensures;

    let all = Seq::new(keys.len(), |i: int| i as usize);
    let leq = |a: usize, b: usize| comes_first(keys, a, b);
    let out = sorted_positions(keys);
    lemma_comes_first_is_total(keys);
    all.lemma_sort_by_ensures(leq);
    assert(all.no_duplicates());
    all.lemma_multiset_has_no_duplicates();
    out.lemma_multiset_has_no_duplicates_conv();
    assert(out.len() == out.to_multiset().len() == all.len());
    assert forall|i: int| 0 <= i < keys.len() implies #[trigger] out[i] < keys.len() by {
        assert(out.contains(out[i]));
        assert(out.to_multiset().count(out[i]) > 0);
        assert(all.contains(out[i]));
    }
    assert forall|p: usize| p < keys.len() implies #[trigger] out.contains(p) by {
        assert(all[p as int] == p);
        assert(all.contains(p));
        assert(all.to_multiset().count(p) > 0);
    }
    assert forall|i: int, j: int| 0 <= i < j < keys.len() implies comes_first(
        keys,
        #[trigger] out[i],
        #[trigger] out[j],
    ) by {
        assert(sorted_by(out, leq));
        assert(leq(out[i], out[j]));
    }
}

fn in_order(keys: &Vec<(u64, bool)>, a: usize, b: usize) -> (r: bool)
    requires
        a < keys@.len(),
        b < keys@.len(),
    ensures
        r == comes_first(keys@, a, b),
{
    let (x, p): (u64, bool) = keys[a];
    let (y, q): (u64, bool) = keys[b];
    if x != y {
        x < y
    } else if p != q {
        q
    } else {
        a <= b
    }
}

/// Sorts the positions of `keys`; positions with equal keys stay in order.
pub fn sort_positions(keys: &Vec<(u64, bool)>) -> (r: Vec<usize>)
    ensures
        r@ == sorted_positions(keys@),
{
    broadcast use group_to_multiset_ensures;

    let ghost leq = |a: usize, b: usize| comes_first(keys@, a, b);
    let ghost all = Seq::new(keys@.len(), |i: int| i as usize);
    let mut out: Vec<usize> = Vec::new();
    assert(all.take(0) =~= out@);
    for i in 0..keys.len()
        invariant
            leq == (|a: usize, b: usize| comes_first(keys@, a, b)),
            all == Seq::new(keys@.len(), |i: int| i as usize),
            out@.len() == i,
            forall|j: int| 0 <= j < i ==> #[trigger] out@[j] < i,
            sorted_by(out@, leq),
            out@.to_multiset() == all.take(i as int).to_multiset(),
    {
        broadcast use group_to_multiset_ensures;

        let mut p: usize = i;
        while p > 0 && !in_order(keys, out[p - 1], i)
            invariant
                p <= i,
                i < keys@.len(),
                out@.len() == i,
                leq == (|a: usize, b: usize| comes_first(keys@, a, b)),
                forall|j: int| 0 <= j < i ==> #[trigger] out@[j] < i,
                forall|j: int| p <= j < i ==> !comes_first(keys@, #[trigger] out@[j], i),
            decreases p,
        {
            p = p - 1;
        }
        let ghost before = out@;
        proof {
            to_multiset_insert(before, p as int, i);
            assert(all.take(i + 1) =~= all.take(i as int).push(i));
        }
        out.insert(p, i);
        assert forall|j: int| 0 <= j < i + 1 implies #[trigger] out@[j] < i + 1 by {
            if j < p {
                assert(out@[j] == before[j]);
            } else if j > p {
                assert(out@[j] == before[j - 1]);
            }
        }
        assert forall|j: int, l: int| 0 <= j < l < out@.len() implies #[trigger] leq(
            out@[j],
            out@[l],
        ) by {
            if l < p {
                assert(leq(before[j], before[l]));
            } else if l == p {
                assert(out@[j] == before[j]);
                if j < p - 1 {
                    assert(leq(before[j], before[p - 1]));
                }
                assert(comes_first(keys@, before[p - 1], i));
            } else if j < p {
                assert(out@[j] == before[j] && out@[l] == before[l - 1]);
                assert(leq(before[j], before[l - 1]));
            } else if j == p {
                assert(out@[l] == before[l - 1]);
                assert(!comes_first(keys@, before[l - 1], i));
            } else {
                assert(out@[j] == before[j - 1] && out@[l] == before[l - 1]);
                assert(leq(before[j - 1], before[l - 1]));
            }
        }
    }
    proof {
        assert(all.take(keys@.len() as int) =~= all);
        lemma_comes_first_is_total(keys@);
        all.lemma_sort_by_ensures(leq);
        lemma_sorted_unique(out@, all.sort_by(leq), leq);
    }
    out
}

} // verus!
