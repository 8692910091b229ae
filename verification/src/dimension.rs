//! Lists of dimension ids, and the order of their encoded keys.

use vstd::prelude::*;

use crate::order::Ranked;

verus! {

impl Ranked for u32 {
    open spec fn ranks_le(&self, other: &u32) -> bool {
        *self <= *other
    }

    proof fn ranks_le_total(a: &u32, b: &u32) {
    }

    proof fn ranks_le_transitive(a: &u32, b: &u32, c: &u32) {
    }

    fn not_after(&self, other: &u32) -> (b: bool) {
        *self <= *other
    }
}

/// Strictly rising, so that nothing occurs twice.
pub open spec fn is_rising(ids: Seq<u32>) -> bool {
    forall|i: int, j: int|
        #![trigger ids[i], ids[j]]
        0 <= i < j < ids.len() ==> ids[i] < ids[j]
}

/// The ids that occur, each once, in rising order.
pub fn distinct_sorted(ids: &Vec<u32>) -> (out: Vec<u32>)
    ensures
        is_rising(out@),
        forall|i: int, j: int|
            #![trigger out@[i], out@[j]]
            0 <= i < j < out.len() ==> out@[i] < out@[j],
        forall|id: u32| out@.contains(id) <==> ids@.contains(id),
{
    let sorted: Vec<u32> = crate::order::sorted(ids);
    proof {
        assert forall|id: u32| sorted@.contains(id) <==> ids@.contains(id) by {
            vstd::seq_lib::to_multiset_contains(sorted@, id);
            vstd::seq_lib::to_multiset_contains(ids@, id);
        }
    }
    let mut out: Vec<u32> = Vec::new();
    let mut i: usize = 0;
    while i < sorted.len()
        invariant
            i <= sorted.len(),
            crate::order::is_sorted(sorted@),
            is_rising(out@),
            out.len() == 0 <==> i == 0,
            out.len() > 0 ==> out@[out.len() - 1] == sorted@[i - 1],
            forall|a: int| 0 <= a < out.len() ==> sorted@.contains(#[trigger] out@[a]),
            forall|a: int| 0 <= a < i ==> out@.contains(#[trigger] sorted@[a]),
        decreases sorted.len() - i,
    {
        let id: u32 = sorted[i];
        let ghost before = out@;
        if out.len() == 0 || out[out.len() - 1] != id {
            proof {
                assert forall|a: int| 0 <= a < out.len() implies #[trigger] out@[a] < id by {
                    let last = out.len() - 1;
                    assert(sorted@[i - 1].ranks_le(&sorted@[i as int]));
                    assert(out@[last] < id);
                    if a < last {
                        assert(out@[a] < out@[last]);
                    }
                }
            }
            out.push(id);
            proof {
                assert(out@[before.len() as int] == id);
                assert forall|a: int| 0 <= a < i implies out@.contains(#[trigger] sorted@[a]) by {
                    assert(before.contains(sorted@[a]));
                    let b = choose|b: int| 0 <= b < before.len() && before[b] == sorted@[a];
                    assert(out@[b] == sorted@[a]);
                }
            }
        } else {
            assert(out@[out.len() - 1] == id);
        }
        i = i + 1;
    }
    proof {
        assert forall|id: u32| out@.contains(id) <==> ids@.contains(id) by {
            if ids@.contains(id) {
                assert(sorted@.contains(id));
            }
        }
    }
    out
}

/// The ids of either list, each once, in rising order.
pub fn merged_ids(a: &Vec<u32>, b: &Vec<u32>) -> (out: Vec<u32>)
    ensures
        is_rising(out@),
        forall|i: int, j: int|
            #![trigger out@[i], out@[j]]
            0 <= i < j < out.len() ==> out@[i] < out@[j],
        forall|id: u32| out@.contains(id) <==> a@.contains(id) || b@.contains(id),
{
    let mut both: Vec<u32> = Vec::new();
    let mut i: usize = 0;
    while i < a.len()
        invariant
            i <= a.len(),
            both@ =~= a@.take(i as int),
        decreases a.len() - i,
    {
        both.push(a[i]);
        i = i + 1;
    }
    let mut j: usize = 0;
    while j < b.len()
        invariant
            j <= b.len(),
            both@ =~= a@ + b@.take(j as int),
        decreases b.len() - j,
    {
        both.push(b[j]);
        j = j + 1;
    }
    proof {
        assert forall|id: u32| both@.contains(id) <==> a@.contains(id) || b@.contains(id) by {
            if a@.contains(id) {
                let n = choose|n: int| 0 <= n < a.len() && a@[n] == id;
                assert(both@[n] == id);
            }
            if b@.contains(id) {
                let n = choose|n: int| 0 <= n < b.len() && b@[n] == id;
                assert(both@[a.len() + n] == id);
            }
        }
    }
    distinct_sorted(&both)
}

/// Strings of bytes in the order of a dictionary.
pub open spec fn lexicographic(a: Seq<u8>, b: Seq<u8>) -> bool
    decreases a.len(),
{
    if a.len() == 0 {
        true
    } else if b.len() == 0 {
        false
    } else {
        a[0] < b[0] || (a[0] == b[0] && lexicographic(a.drop_first(), b.drop_first()))
    }
}

proof fn lemma_lexicographic_total(a: Seq<u8>, b: Seq<u8>)
    ensures
        lexicographic(a, b) || lexicographic(b, a),
    decreases a.len(),
{
    if a.len() > 0 && b.len() > 0 {
        lemma_lexicographic_total(a.drop_first(), b.drop_first());
    }
}

proof fn lemma_lexicographic_transitive(a: Seq<u8>, b: Seq<u8>, c: Seq<u8>)
    requires
        lexicographic(a, b),
        lexicographic(b, c),
    ensures
        lexicographic(a, c),
    decreases a.len(),
{
    if a.len() > 0 && b.len() > 0 && c.len() > 0 && a[0] == b[0] && b[0] == c[0] {
        lemma_lexicographic_transitive(a.drop_first(), b.drop_first(), c.drop_first());
    }
}

/// Encoded keys stand in the order of a dictionary.
impl Ranked for Vec<u8> {
    open spec fn ranks_le(&self, other: &Vec<u8>) -> bool {
        lexicographic(self@, other@)
    }

    proof fn ranks_le_total(a: &Vec<u8>, b: &Vec<u8>) {
        lemma_lexicographic_total(a@, b@);
    }

    proof fn ranks_le_transitive(a: &Vec<u8>, b: &Vec<u8>, c: &Vec<u8>) {
        lemma_lexicographic_transitive(a@, b@, c@);
    }

    fn not_after(&self, other: &Vec<u8>) -> (b: bool) {
        let mut i: usize = 0;
        assert(self@.skip(0) =~= self@);
        assert(other@.skip(0) =~= other@);
        while i < self.len() && i < other.len()
            invariant
                i <= self.len(),
                i <= other.len(),
                lexicographic(self@, other@) == lexicographic(
                    self@.skip(i as int),
                    other@.skip(i as int),
                ),
            decreases self.len() - i,
        {
            let mine: u8 = self[i];
            let theirs: u8 = other[i];
            proof {
                assert(self@.skip(i as int)[0] == mine);
                assert(other@.skip(i as int)[0] == theirs);
                assert(self@.skip(i as int).drop_first() =~= self@.skip(i + 1));
                assert(other@.skip(i as int).drop_first() =~= other@.skip(i + 1));
            }
            if mine != theirs {
                return mine < theirs;
            }
            i = i + 1;
        }
        i == self.len()
    }
}

/// The order of a dictionary: the first byte in which two strings differ
/// decides, and without one the shorter string comes first.
pub proof fn law_first_difference_decides(a: Seq<u8>, b: Seq<u8>, n: int)
    requires
        0 <= n <= a.len(),
        n <= b.len(),
        forall|i: int| 0 <= i < n ==> a[i] == b[i],
    ensures
        n < a.len() && n < b.len() && a[n] != b[n] ==> (lexicographic(a, b) <==> a[n] < b[n]),
        n == a.len() ==> lexicographic(a, b),
        n == b.len() && n < a.len() ==> !lexicographic(a, b),
    decreases n,
{
    if n > 0 {
        let a1 = a.drop_first();
        let b1 = b.drop_first();
        assert(a[0] == b[0]);
        assert(forall|i: int| 0 <= i < n - 1 ==> a1[i] == a[i + 1] && b1[i] == b[i + 1]);
        law_first_difference_decides(a1, b1, n - 1);
    }
}

/// Keys in their stable order: each is listed once, and where two of them first
/// differ, the earlier has the lesser byte or has ended.
pub proof fn law_keys_stand_in_dictionary_order(
    keys: Seq<Vec<u8>>,
    order: Seq<usize>,
    i: int,
    j: int,
    n: int,
)
    requires
        crate::order::is_stable_order(keys, order),
        keys.len() <= usize::MAX,
        0 <= i < j < order.len(),
        0 <= n <= keys[order[i] as int].len(),
        n <= keys[order[j] as int].len(),
        forall|b: int| 0 <= b < n ==> keys[order[i] as int]@[b] == keys[order[j] as int]@[b],
    ensures
        order.len() == keys.len(),
        order.no_duplicates(),
        forall|p: usize| p < keys.len() ==> #[trigger] order.contains(p),
        ({
            let a = keys[order[i] as int]@;
            let b = keys[order[j] as int]@;
            &&& n < a.len() && n < b.len() ==> a[n] <= b[n]
            &&& n == b.len() ==> n == a.len()
        }),
{
    crate::order::law_stable_order_sorts(keys, order);
    assert(keys[order[i] as int].ranks_le(&keys[order[j] as int]));
    law_first_difference_decides(keys[order[i] as int]@, keys[order[j] as int]@, n);
}

} // verus!
