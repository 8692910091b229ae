//! Stable sorting.
//!
//! A sort is described by the order in which it lists the items' positions.
//! For a stable sort that order is unique, so it can be stated exactly; the
//! items themselves never have to be moved while they are compared.

use vstd::prelude::*;

verus! {

/// Items with a total preorder.
pub trait Ranked: Sized {
    /// `self` may stand before `other`.
    spec fn ranks_le(&self, other: &Self) -> bool;

    proof fn ranks_le_total(a: &Self, b: &Self)
        ensures
            a.ranks_le(b) || b.ranks_le(a),
    ;

    proof fn ranks_le_transitive(a: &Self, b: &Self, c: &Self)
        requires
            a.ranks_le(b),
            b.ranks_le(c),
        ensures
            a.ranks_le(c),
    ;

    /// Whether `self` may stand before `other`.
    fn not_after(&self, other: &Self) -> (b: bool)
        ensures
            b == self.ranks_le(other),
    ;
}

/// Position `a` comes before position `b` in the stable order of `items`: the
/// item at `a` ranks lower, or the two rank equal and `a` is the earlier.
pub open spec fn comes_before<T: Ranked>(items: Seq<T>, a: int, b: int) -> bool {
    items[a].ranks_le(&items[b]) && (items[b].ranks_le(&items[a]) ==> a < b)
}

/// `order` lists the positions of `items`, each once, in the stable order.
pub open spec fn is_stable_order<T: Ranked>(items: Seq<T>, order: Seq<usize>) -> bool {
    &&& order.len() == items.len()
    &&& forall|i: int| 0 <= i < order.len() ==> (#[trigger] order[i]) < items.len()
    &&& forall|p: usize| p < items.len() ==> order.contains(p)
    &&& forall|i: int, j: int|
        0 <= i < j < order.len() ==> comes_before(
            items,
            #[trigger] order[i] as int,
            #[trigger] order[j] as int,
        )
}

/// `items` in the order that `order` lists.
pub open spec fn arranged<T>(items: Seq<T>, order: Seq<usize>) -> Seq<T> {
    Seq::new(order.len(), |i: int| items[order[i] as int])
}

/// No item stands before one that ranks strictly lower.
pub open spec fn is_sorted<T: Ranked>(items: Seq<T>) -> bool {
    forall|i: int, j: int|
        #![trigger items[i], items[j]]
        0 <= i < j < items.len() ==> items[i].ranks_le(&items[j])
}

proof fn lemma_comes_before_transitive<T: Ranked>(items: Seq<T>, a: int, b: int, c: int)
    requires
        comes_before(items, a, b),
        comes_before(items, b, c),
    ensures
        comes_before(items, a, c),
{
    T::ranks_le_transitive(&items[a], &items[b], &items[c]);
    if items[c].ranks_le(&items[a]) {
        T::ranks_le_transitive(&items[c], &items[a], &items[b]);
        T::ranks_le_transitive(&items[b], &items[c], &items[a]);
    }
}

/// What `sort_range` owes of the positions `lo..hi`.
spec fn is_range_order<T: Ranked>(items: Seq<T>, lo: int, hi: int, order: Seq<usize>) -> bool {
    &&& order.len() == hi - lo
    &&& forall|i: int| 0 <= i < order.len() ==> lo <= (#[trigger] order[i]) < hi
    &&& forall|p: usize| lo <= p < hi ==> order.contains(p)
    &&& forall|i: int, j: int|
        0 <= i < j < order.len() ==> comes_before(
            items,
            #[trigger] order[i] as int,
            #[trigger] order[j] as int,
        )
}

fn merge<T: Ranked>(
    items: &Vec<T>,
    lo: usize,
    mid: usize,
    hi: usize,
    left: &Vec<usize>,
    right: &Vec<usize>,
) -> (out: Vec<usize>)
    requires
        lo <= mid <= hi <= items.len(),
        is_range_order(items@, lo as int, mid as int, left@),
        is_range_order(items@, mid as int, hi as int, right@),
    ensures
        is_range_order(items@, lo as int, hi as int, out@),
{
    let mut out: Vec<usize> = Vec::new();
    let mut i: usize = 0;
    let mut j: usize = 0;
    while i < left.len() || j < right.len()
        invariant
            lo <= mid <= hi <= items.len(),
            is_range_order(items@, lo as int, mid as int, left@),
            is_range_order(items@, mid as int, hi as int, right@),
            i <= left.len(),
            j <= right.len(),
            out.len() == i + j,
            forall|a: int| 0 <= a < out.len() ==> lo <= (#[trigger] out[a]) < hi,
            forall|a: int| 0 <= a < i ==> out@.contains(#[trigger] left[a]),
            forall|a: int| 0 <= a < j ==> out@.contains(#[trigger] right[a]),
            forall|a: int, b: int|
                0 <= a < b < out.len() ==> comes_before(
                    items@,
                    #[trigger] out[a] as int,
                    #[trigger] out[b] as int,
                ),
            forall|a: int, b: int|
                0 <= a < out.len() && i <= b < left.len() ==> comes_before(
                    items@,
                    #[trigger] out[a] as int,
                    #[trigger] left[b] as int,
                ),
            forall|a: int, b: int|
                0 <= a < out.len() && j <= b < right.len() ==> comes_before(
                    items@,
                    #[trigger] out[a] as int,
                    #[trigger] right[b] as int,
                ),
        decreases left.len() - i + right.len() - j,
    {
        let from_left: bool = if i == left.len() {
            false
        } else if j == right.len() {
            true
        } else {
            items[left[i]].not_after(&items[right[j]])
        };
        let ghost before = out@;
        if from_left {
            proof {
                assert forall|b: int| j <= b < right.len() implies comes_before(
                    items@,
                    left[i as int] as int,
                    #[trigger] right[b] as int,
                ) by {
                    assert(comes_before(items@, left[i as int] as int, right[j as int] as int));
                    if b > j {
                        lemma_comes_before_transitive(
                            items@,
                            left[i as int] as int,
                            right[j as int] as int,
                            right[b] as int,
                        );
                    }
                }
            }
            out.push(left[i]);
            i = i + 1;
        } else {
            proof {
                assert forall|b: int| i <= b < left.len() implies comes_before(
                    items@,
                    right[j as int] as int,
                    #[trigger] left[b] as int,
                ) by {
                    T::ranks_le_total(&items@[left[i as int] as int], &items@[right[j as int] as int]);
                    assert(comes_before(items@, right[j as int] as int, left[i as int] as int));
                    if b > i {
                        lemma_comes_before_transitive(
                            items@,
                            right[j as int] as int,
                            left[i as int] as int,
                            left[b] as int,
                        );
                    }
                }
            }
            out.push(right[j]);
            j = j + 1;
        }
        proof {
            assert(out@.drop_last() =~= before);
            assert(out@.last() == out@[out@.len() - 1]);
            assert forall|p: usize| before.contains(p) implies out@.contains(p) by {
                let a = choose|a: int| 0 <= a < before.len() && before[a] == p;
                assert(out@[a] == p);
            }
        }
    }
    proof {
        assert forall|p: usize| lo <= p < hi implies out@.contains(p) by {
            if p < mid {
                assert(left@.contains(p));
            } else {
                assert(right@.contains(p));
            }
        }
    }
    out
}

fn sort_range<T: Ranked>(items: &Vec<T>, lo: usize, hi: usize) -> (order: Vec<usize>)
    requires
        lo <= hi <= items.len(),
    ensures
        is_range_order(items@, lo as int, hi as int, order@),
    decreases hi - lo,
{
    if hi - lo <= 1 {
        let mut order: Vec<usize> = Vec::new();
        if lo < hi {
            order.push(lo);
            assert(order@[0] == lo);
        }
        order
    } else {
        let mid: usize = lo + (hi - lo) / 2;
        let left: Vec<usize> = sort_range(items, lo, mid);
        let right: Vec<usize> = sort_range(items, mid, hi);
        merge(items, lo, mid, hi, &left, &right)
    }
}

/// The stable order of the items.
pub fn stable_order<T: Ranked>(items: &Vec<T>) -> (order: Vec<usize>)
    ensures
        is_stable_order(items@, order@),
{
    sort_range(items, 0, items.len())
}

/// Sorts copyable items.
pub fn sorted<T: Ranked + Copy>(items: &Vec<T>) -> (out: Vec<T>)
    ensures
        is_sorted(out@),
        out@.to_multiset() == items@.to_multiset(),
        exists|order: Seq<usize>| #[trigger]
            is_stable_order(items@, order) && out@ == arranged(items@, order),
{
    let order: Vec<usize> = stable_order(items);
    let mut out: Vec<T> = Vec::new();
    let mut i: usize = 0;
    while i < order.len()
        invariant
            i <= order.len(),
            is_stable_order(items@, order@),
            out@ =~= arranged(items@, order@).take(i as int),
        decreases order.len() - i,
    {
        out.push(items[order[i]]);
        i = i + 1;
    }
    assert(out@ =~= arranged(items@, order@));
    proof {
        lemma_arranged_keeps_items(items@, order@);
    }
    out
}

/// Listing items in their stable order neither loses nor duplicates one, and
/// leaves them sorted.
pub proof fn lemma_arranged_keeps_items<T: Ranked>(items: Seq<T>, order: Seq<usize>)
    requires
        is_stable_order(items, order),
        items.len() <= usize::MAX,
    ensures
        arranged(items, order).to_multiset() == items.to_multiset(),
        is_sorted(arranged(items, order)),
{
    assert(order.no_duplicates()) by {
        assert forall|i: int, j: int| 0 <= i < j < order.len() implies order[i] != order[j] by {
            assert(comes_before(items, order[i] as int, order[j] as int));
        }
    }
    lemma_arranged_is_permutation(items, order);
}

proof fn lemma_arranged_is_permutation<T>(items: Seq<T>, order: Seq<usize>)
    requires
        order.len() == items.len() <= usize::MAX,
        forall|i: int| 0 <= i < order.len() ==> (#[trigger] order[i]) < items.len(),
        forall|p: usize| p < items.len() ==> order.contains(p),
        order.no_duplicates(),
    ensures
        arranged(items, order).to_multiset() == items.to_multiset(),
    decreases items.len(),
{
    let n = items.len() as int;
    if n == 0 {
        assert(arranged(items, order) =~= items);
    } else {
        let last = (n - 1) as usize;
        assert(order.contains(last));
        let at = choose|i: int| 0 <= i < order.len() && order[i] == last;
        let rest = order.remove(at);
        let fewer = items.drop_last();
        assert forall|i: int| 0 <= i < rest.len() implies (#[trigger] rest[i]) < fewer.len() by {
            let k = if i < at { i } else { i + 1 };
            assert(rest[i] == order[k]);
            assert(order[k] != order[at]);
        }
        assert forall|p: usize| p < fewer.len() implies rest.contains(p) by {
            assert(order.contains(p));
            let k = choose|k: int| 0 <= k < order.len() && order[k] == p;
            let i = if k < at { k } else { k - 1 };
            assert(rest[i] == p);
        }
        assert forall|i: int, j: int| 0 <= i < j < rest.len() implies rest[i] != rest[j] by {
            let k = if i < at { i } else { i + 1 };
            let l = if j < at { j } else { j + 1 };
            assert(rest[i] == order[k] && rest[j] == order[l]);
        }
        lemma_arranged_is_permutation(fewer, rest);
        assert(arranged(items, order) =~= arranged(fewer, rest).insert(at, items[n - 1])) by {
            assert forall|i: int| 0 <= i < n implies arranged(items, order)[i] == arranged(
                fewer,
                rest,
            ).insert(at, items[n - 1])[i] by {
                if i < at {
                    assert(rest[i] == order[i]);
                } else if i > at {
                    assert(rest[i - 1] == order[i]);
                }
            }
        }
        vstd::seq_lib::to_multiset_insert(arranged(fewer, rest), at, items[n - 1]);
        assert(items =~= fewer.push(items[n - 1]));
        vstd::seq_lib::to_multiset_build(fewer, items[n - 1]);
    }
}

/// A list has only one stable order.
pub proof fn law_stable_order_is_unique<T: Ranked>(items: Seq<T>, a: Seq<usize>, b: Seq<usize>)
    requires
        is_stable_order(items, a),
        is_stable_order(items, b),
    ensures
        a == b,
{
    lemma_stable_orders_agree(items, a, b, a.len() as int);
    assert(a =~= b);
}

proof fn lemma_stable_orders_agree<T: Ranked>(
    items: Seq<T>,
    a: Seq<usize>,
    b: Seq<usize>,
    n: int,
)
    requires
        is_stable_order(items, a),
        is_stable_order(items, b),
        0 <= n <= a.len(),
    ensures
        forall|i: int| 0 <= i < n ==> a[i] == b[i],
    decreases n,
{
    if n > 0 {
        let m = n - 1;
        lemma_stable_orders_agree(items, a, b, m);
        if a[m] != b[m] {
            assert(b.contains(a[m]));
            let i = choose|i: int| 0 <= i < b.len() && b[i] == a[m];
            if i < m {
                assert(a[i] == b[i]);
                assert(comes_before(items, a[i] as int, a[m] as int));
            }
            assert(a.contains(b[m]));
            let j = choose|j: int| 0 <= j < a.len() && a[j] == b[m];
            if j < m {
                assert(a[j] == b[j]);
                assert(comes_before(items, b[j] as int, b[m] as int));
            }
            assert(m < i && m < j);
            assert(comes_before(items, b[m] as int, b[i] as int));
            assert(comes_before(items, a[m] as int, a[j] as int));
        }
    }
}

/// The places of the items that a filter keeps.
pub proof fn lemma_filter_places<A>(s: Seq<A>, keep: spec_fn(A) -> bool) -> (at: Seq<int>)
    ensures
        at.len() == s.filter(keep).len(),
        forall|i: int|
            0 <= i < at.len() ==> 0 <= (#[trigger] at[i]) < s.len() && s.filter(keep)[i]
                == s[at[i]],
        forall|i: int, j: int|
            #![trigger at[i], at[j]]
            0 <= i < j < at.len() ==> at[i] < at[j],
        forall|p: int|
            #![trigger s[p]]
            0 <= p < s.len() ==> (keep(s[p]) <==> exists|i: int|
                0 <= i < at.len() && #[trigger] at[i] == p),
    decreases s.len(),
{
    reveal(Seq::filter);
    if s.len() == 0 {
        Seq::empty()
    } else {
        let before = s.drop_last();
        let n = s.len() - 1;
        let early = lemma_filter_places(before, keep);
        assert(forall|p: int| 0 <= p < before.len() ==> #[trigger] before[p] == s[p]);
        assert(s.last() == s[n]);
        let at = if keep(s[n]) {
            early.push(n)
        } else {
            early
        };
        assert forall|p: int| #![trigger s[p]] 0 <= p < s.len() implies (keep(s[p]) <==> exists|
            i: int,
        |
            0 <= i < at.len() && #[trigger] at[i] == p) by {
            if p < n {
                assert(before[p] == s[p]);
                if keep(s[p]) {
                    let i = choose|i: int| 0 <= i < early.len() && #[trigger] early[i] == p;
                    assert(at[i] == p);
                }
                if exists|i: int| 0 <= i < at.len() && #[trigger] at[i] == p {
                    let i = choose|i: int| 0 <= i < at.len() && #[trigger] at[i] == p;
                    assert(early[i] == p);
                }
            } else if keep(s[n]) {
                assert(at[early.len() as int] == n);
            } else if exists|i: int| 0 <= i < at.len() && #[trigger] at[i] == p {
                let i = choose|i: int| 0 <= i < at.len() && #[trigger] at[i] == p;
                assert(early[i] < before.len());
            }
        }
        at
    }
}

/// What sorting does: every position is listed once, no item stands before one
/// that ranks strictly lower, and items that rank equal keep their order.
pub proof fn law_stable_order_sorts<T: Ranked>(items: Seq<T>, order: Seq<usize>)
    requires
        is_stable_order(items, order),
        items.len() <= usize::MAX,
    ensures
        order.len() == items.len(),
        order.no_duplicates(),
        forall|p: usize| p < items.len() ==> #[trigger] order.contains(p),
        forall|i: int|
            0 <= i < order.len() ==> (#[trigger] order[i]) < items.len() && arranged(
                items,
                order,
            )[i] == items[order[i] as int],
        forall|i: int, j: int|
            #![trigger order[i], order[j]]
            0 <= i < j < order.len() ==> {
                let a = items[order[i] as int];
                let b = items[order[j] as int];
                a.ranks_le(&b) && (b.ranks_le(&a) ==> order[i] < order[j])
            },
{
    assert forall|i: int, j: int|
        #![trigger order[i], order[j]]
        0 <= i < j < order.len() implies {
        let a = items[order[i] as int];
        let b = items[order[j] as int];
        a.ranks_le(&b) && (b.ranks_le(&a) ==> order[i] < order[j])
    } by {
        assert(comes_before(items, order[i] as int, order[j] as int));
    }
    assert forall|i: int, j: int| 0 <= i < j < order.len() implies order[i] != order[j] by {
        assert(comes_before(items, order[i] as int, order[j] as int));
    }
}

} // verus!
