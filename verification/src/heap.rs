//! A binary heap of scores with the worst one on top.

use vstd::multiset::Multiset;
use vstd::prelude::*;

use crate::score::Score;

verus! {

/// A heap whose top is the worst score: the lowest score and, among equal
/// scores, the lowest offset.
#[derive(Debug)]
pub struct ScoreHeap {
    items: Vec<Score>,
}

/// `s` is the worst of the scores in `m`.
pub open spec fn is_worst(m: Multiset<Score>, s: Score) -> bool {
    &&& m.contains(s)
    &&& forall|x: Score| #[trigger] m.contains(x) ==> !x.worse(s)
}

/// The parent of `child` is not better than it.
spec fn ordered_at(items: Seq<Score>, child: int) -> bool {
    !items[child].worse(items[(child - 1) / 2])
}

spec fn is_heap(items: Seq<Score>) -> bool {
    forall|c: int| 0 < c < items.len() ==> #[trigger] ordered_at(items, c)
}

proof fn lemma_top_is_worst(items: Seq<Score>, i: int)
    requires
        is_heap(items),
        0 <= i < items.len(),
    ensures
        !items[i].worse(items[0]),
    decreases i,
{
    if i > 0 {
        lemma_top_is_worst(items, (i - 1) / 2);
        assert(ordered_at(items, i));
    }
}

proof fn lemma_top_is_worst_of_all(items: Seq<Score>)
    requires
        is_heap(items),
        items.len() > 0,
    ensures
        is_worst(items.to_multiset(), items[0]),
{
    vstd::seq_lib::to_multiset_contains(items, items[0]);
    assert forall|x: Score| #[trigger] items.to_multiset().contains(x) implies !x.worse(
        items[0],
    ) by {
        vstd::seq_lib::to_multiset_contains(items, x);
        let i = choose|i: int| 0 <= i < items.len() && items[i] == x;
        lemma_top_is_worst(items, i);
    }
}

proof fn lemma_swap_keeps_items(items: Seq<Score>, i: int, j: int)
    requires
        0 <= i < items.len(),
        0 <= j < items.len(),
        i != j,
    ensures
        items.update(i, items[j]).update(j, items[i]).to_multiset() == items.to_multiset(),
{
    let a = items[i];
    let b = items[j];
    vstd::seq_lib::to_multiset_update(items, i, b);
    vstd::seq_lib::to_multiset_update(items.update(i, b), j, a);
    vstd::seq_lib::to_multiset_contains(items, a);
    assert(items.to_multiset().insert(b).remove(a).insert(a).remove(b) =~= items.to_multiset());
}

/// Swaps two items.
fn swap(items: &mut Vec<Score>, i: usize, j: usize)
    requires
        i < old(items).len(),
        j < old(items).len(),
        i != j,
    ensures
        final(items)@ == old(items)@.update(i as int, old(items)@[j as int]).update(
            j as int,
            old(items)@[i as int],
        ),
        final(items)@.to_multiset() == old(items)@.to_multiset(),
{
    let a: Score = items[i];
    let b: Score = items[j];
    proof {
        lemma_swap_keeps_items(items@, i as int, j as int);
    }
    items[i] = b;
    items[j] = a;
}

/// Moves the last item up to its place.
fn sift_up(items: &mut Vec<Score>)
    requires
        old(items).len() > 0,
        is_heap(old(items)@.drop_last()),
    ensures
        is_heap(final(items)@),
        final(items)@.to_multiset() == old(items)@.to_multiset(),
{
    let mut i: usize = items.len() - 1;
    proof {
        assert forall|c: int| 0 < c < items.len() && c != i implies #[trigger] ordered_at(
            items@,
            c,
        ) by {
            assert(ordered_at(items@.drop_last(), c));
        }
    }
    while i > 0 && items[i].is_worse(&items[(i - 1) / 2])
        invariant
            i < items.len(),
            items@.to_multiset() == old(items)@.to_multiset(),
            forall|c: int| 0 < c < items.len() && c != i ==> #[trigger] ordered_at(items@, c),
            forall|c: int|
                0 < c < items.len() && (c - 1) / 2 == i && i > 0 ==> !(#[trigger] items@[c]).worse(
                    items@[(i - 1) / 2],
                ),
        decreases i,
    {
        let parent: usize = (i - 1) / 2;
        let ghost before = items@;
        swap(items, i, parent);
        proof {
            assert forall|c: int| 0 < c < items.len() && c != parent implies #[trigger] ordered_at(
                items@,
                c,
            ) by {
                if c != i {
                    assert(ordered_at(before, c));
                }
            }
            assert forall|c: int|
                0 < c < items.len() && (c - 1) / 2 == parent && parent > 0 implies !(
            #[trigger] items@[c]).worse(items@[(parent - 1) / 2]) by {
                assert(ordered_at(before, parent as int));
                if c != i {
                    assert(ordered_at(before, c));
                }
            }
        }
        i = parent;
    }
    proof {
        assert forall|c: int| 0 < c < items.len() implies #[trigger] ordered_at(items@, c) by {}
    }
}

/// Moves the first item down to its place.
fn sift_down(items: &mut Vec<Score>)
    requires
        forall|c: int|
            0 < c < old(items).len() && (c - 1) / 2 != 0 ==> #[trigger] ordered_at(old(items)@, c),
    ensures
        is_heap(final(items)@),
        final(items)@.to_multiset() == old(items)@.to_multiset(),
{
    let mut i: usize = 0;
    loop
        invariant
            items@.len() == old(items)@.len(),
            i == 0 || i < items.len(),
            items@.to_multiset() == old(items)@.to_multiset(),
            forall|c: int|
                0 < c < items.len() && (c - 1) / 2 != i ==> #[trigger] ordered_at(items@, c),
            forall|c: int|
                0 < c < items.len() && (c - 1) / 2 == i && i > 0 ==> !(#[trigger] items@[c]).worse(
                    items@[(i - 1) / 2],
                ),
        ensures
            is_heap(items@),
            items@.to_multiset() == old(items)@.to_multiset(),
        decreases items.len() - i,
    {
        if i >= items.len() / 2 {
            assert forall|c: int| 0 < c < items.len() implies #[trigger] ordered_at(
                items@,
                c,
            ) by {
                assert((c - 1) / 2 != i);
            }
            break;
        }
        let left: usize = 2 * i + 1;
        let right: usize = left + 1;
        let child: usize = if right < items.len() && items[right].is_worse(&items[left]) {
            right
        } else {
            left
        };
        if !items[child].is_worse(&items[i]) {
            assert forall|c: int| 0 < c < items.len() implies #[trigger] ordered_at(
                items@,
                c,
            ) by {
                if (c - 1) / 2 == i {
                    assert(c == left || c == right);
                }
            }
            break;
        }
        let ghost before = items@;
        swap(items, i, child);
        proof {
            assert((child - 1) / 2 == i);
            assert forall|c: int|
                0 < c < items.len() && (c - 1) / 2 != child implies #[trigger] ordered_at(
                items@,
                c,
            ) by {
                if (c - 1) / 2 == i {
                    assert(c == left || c == right);
                } else if c == i {
                    assert(!before[child as int].worse(before[(i - 1) / 2]));
                } else {
                    assert(ordered_at(before, c));
                }
            }
            assert forall|c: int|
                0 < c < items.len() && (c - 1) / 2 == child implies !(#[trigger] items@[c]).worse(
                items@[(child - 1) / 2],
            ) by {
                assert(ordered_at(before, c));
            }
        }
        i = child;
    }
}

impl ScoreHeap {
    /// The scores in the heap.
    pub closed spec fn view(&self) -> Multiset<Score> {
        self.items@.to_multiset()
    }

    pub closed spec fn wf(&self) -> bool {
        is_heap(self.items@)
    }

    pub fn new() -> (h: ScoreHeap)
        ensures
            h.wf(),
            h@ == Multiset::<Score>::empty(),
    {
        let h: ScoreHeap = ScoreHeap { items: Vec::new() };
        proof {
            h.items@.to_multiset_ensures();
            assert(h@ =~= Multiset::<Score>::empty());
        }
        h
    }

    pub fn len(&self) -> (n: usize)
        ensures
            n == self@.len(),
    {
        proof {
            vstd::seq_lib::to_multiset_len(self.items@);
        }
        self.items.len()
    }

    /// The worst score, if there is one.
    pub fn peek(&self) -> (top: Option<Score>)
        requires
            self.wf(),
        ensures
            top is None <==> self@.len() == 0,
            top matches Some(s) ==> is_worst(self@, s),
    {
        proof {
            vstd::seq_lib::to_multiset_len(self.items@);
        }
        if self.items.len() == 0 {
            None
        } else {
            proof {
                lemma_top_is_worst_of_all(self.items@);
            }
            Some(self.items[0])
        }
    }

    /// Adds a score.
    pub fn push(&mut self, s: Score)
        requires
            old(self).wf(),
        ensures
            final(self).wf(),
            final(self)@ == old(self)@.insert(s),
    {
        proof {
            vstd::seq_lib::to_multiset_build(self.items@, s);
        }
        self.items.push(s);
        assert(self.items@.drop_last() =~= old(self).items@);
        sift_up(&mut self.items);
    }

    /// Removes the worst score, if there is one.
    pub fn pop(&mut self) -> (top: Option<Score>)
        requires
            old(self).wf(),
        ensures
            final(self).wf(),
            top is None <==> old(self)@.len() == 0,
            top is None ==> final(self)@ == old(self)@,
            top matches Some(s) ==> is_worst(old(self)@, s) && final(self)@ == old(self)@.remove(s),
    {
        proof {
            vstd::seq_lib::to_multiset_len(self.items@);
        }
        let n: usize = self.items.len();
        if n == 0 {
            return None;
        }
        let ghost before = self.items@;
        proof {
            lemma_top_is_worst_of_all(before);
        }
        let top: Score = self.items[0];
        let last: Score = self.items[n - 1];
        self.items[0] = last;
        self.items.truncate(n - 1);
        proof {
            let after = self.items@;
            vstd::seq_lib::to_multiset_remove(before.update(0, last), n - 1);
            assert(after =~= before.update(0, last).remove(n - 1));
            vstd::seq_lib::to_multiset_update(before, 0, last);
            vstd::seq_lib::to_multiset_contains(before, last);
            assert(before[n - 1] == last);
            vstd::seq_lib::to_multiset_contains(before, top);
            assert(after.to_multiset() =~= before.to_multiset().remove(top));
            assert forall|c: int|
                0 < c < after.len() && (c - 1) / 2 != 0 implies #[trigger] ordered_at(after, c) by {
                assert(ordered_at(before, c));
            }
        }
        sift_down(&mut self.items);
        Some(top)
    }

    /// The scores, in no particular order.
    pub fn into_vec(self) -> (v: Vec<Score>)
        ensures
            v@.to_multiset() == self@,
    {
        self.items
    }
}

/// A multiset has at most one worst score.
pub proof fn lemma_worst_is_unique(m: Multiset<Score>, a: Score, b: Score)
    requires
        is_worst(m, a),
        is_worst(m, b),
    ensures
        a == b,
{
    crate::weight::lemma_value_follows_rank(a.score, b.score);
}

/// The worst score: none has a lower one, and none with the same score a lower
/// offset.
pub proof fn law_worst_has_the_lowest_score(m: Multiset<Score>, s: Score)
    requires
        is_worst(m, s),
    ensures
        m.count(s) > 0,
        forall|x: Score| #[trigger]
            m.count(x) > 0 ==> x.score.rank() > s.score.rank() || (x.score.rank()
                == s.score.rank() && x.offset >= s.offset),
{
    assert forall|x: Score| #[trigger] m.count(x) > 0 implies x.score.rank() > s.score.rank() || (
    x.score.rank() == s.score.rank() && x.offset >= s.offset) by {
        assert(m.contains(x));
    }
}

} // verus!
