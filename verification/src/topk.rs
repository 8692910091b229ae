//! The running top-k set of a search.

use vstd::multiset::Multiset;
use vstd::prelude::*;

use crate::heap::ScoreHeap;
use crate::order::Ranked;
use crate::score::Score;
use crate::weight::Weight;

verus! {

/// What a top-k set is: its capacity, the scores that it holds, and the score
/// that a newcomer has to exceed once it is full.
pub struct TopKState {
    pub k: nat,
    pub items: Multiset<Score>,
    pub threshold: Weight,
}

/// The worst score of a non-empty multiset.
pub open spec fn worst(m: Multiset<Score>) -> Score {
    choose|s: Score| crate::heap::is_worst(m, s)
}

impl TopKState {
    /// The empty set of capacity `k`.
    pub open spec fn start(k: nat) -> TopKState {
        TopKState {
            k,
            items: Multiset::empty(),
            threshold: Weight { bits: crate::weight::LOWEST_BITS },
        }
    }

    pub open spec fn full(self) -> bool {
        self.items.len() >= self.k
    }

    /// At most `k` scores; the threshold is the worst score of a full set and
    /// the lowest finite number before that.
    pub open spec fn wf(self) -> bool {
        &&& 0 < self.k
        &&& self.items.len() <= self.k
        &&& self.full() ==> self.threshold == worst(self.items).score
        &&& !self.full() ==> self.threshold.bits == crate::weight::LOWEST_BITS
    }

    /// Whether a candidate with this score gets in.
    pub open spec fn admits(self, score: Weight) -> bool {
        score.gt(self.threshold) || !self.full()
    }

    /// The set after a candidate was offered to it.
    pub open spec fn offered(self, candidate: Score) -> TopKState {
        if self.admits(candidate.score) {
            let grown = self.items.insert(candidate);
            let kept = if grown.len() > self.k {
                grown.remove(worst(grown))
            } else {
                grown
            };
            TopKState {
                k: self.k,
                items: kept,
                threshold: if kept.len() == self.k {
                    worst(kept).score
                } else {
                    self.threshold
                },
            }
        } else {
            self
        }
    }

    /// The set after candidates were offered to it one by one.
    pub open spec fn offered_all(self, candidates: Seq<Score>) -> TopKState
        decreases candidates.len(),
    {
        if candidates.len() == 0 {
            self
        } else {
            self.offered_all(candidates.drop_last()).offered(candidates.last())
        }
    }
}

/// Results come best first: by falling score, then by rising offset.
impl Ranked for Score {
    open spec fn ranks_le(&self, other: &Score) -> bool {
        !other.precedes(*self)
    }

    proof fn ranks_le_total(a: &Score, b: &Score) {
    }

    proof fn ranks_le_transitive(a: &Score, b: &Score, c: &Score) {
    }

    fn not_after(&self, other: &Score) -> (b: bool) {
        let mine: i64 = self.score.total_rank();
        let theirs: i64 = other.score.total_rank();
        mine > theirs || (mine == theirs && self.offset <= other.offset)
    }
}

/// `results` lists the scores of `items`, best first.
pub open spec fn is_ranking(results: Seq<Score>, items: Multiset<Score>) -> bool {
    &&& results.to_multiset() == items
    &&& forall|i: int, j: int|
        #![trigger results[i], results[j]]
        0 <= i < j < results.len() ==> !results[j].precedes(results[i])
}

/// The `k` best of the scores offered so far.
#[derive(Debug)]
pub struct TopK {
    k: usize,
    heap: ScoreHeap,
    threshold: Weight,
}

impl TopK {
    pub closed spec fn view(&self) -> TopKState {
        TopKState { k: self.k as nat, items: self.heap@, threshold: self.threshold }
    }

    pub closed spec fn wf(&self) -> bool {
        self.heap.wf() && self@.wf()
    }

    /// An empty set for `k` scores.
    pub fn new(k: usize) -> (t: TopK)
        requires
            k > 0,
        ensures
            t.wf(),
            t@ == TopKState::start(k as nat),
    {
        TopK { k, heap: ScoreHeap::new(), threshold: Weight::lowest() }
    }

    /// The score that a newcomer has to exceed once the set is full.
    pub fn threshold(&self) -> (w: Weight)
        ensures
            w == self@.threshold,
    {
        self.threshold
    }

    pub fn is_full(&self) -> (b: bool)
        ensures
            b == self@.full(),
    {
        self.heap.len() >= self.k
    }

    /// Whether a candidate with this score would get in.
    pub fn would_admit(&self, score: Weight) -> (b: bool)
        ensures
            b == self@.admits(score),
    {
        score.exceeds(self.threshold) || self.heap.len() < self.k
    }

    /// Offers a candidate.
    pub fn offer(&mut self, candidate: Score)
        requires
            old(self).wf(),
        ensures
            final(self).wf(),
            final(self)@ == old(self)@.offered(candidate),
    {
        if self.would_admit(candidate.score) {
            self.heap.push(candidate);
            if self.heap.len() > self.k {
                let ghost grown = self.heap@;
                let top: Option<Score> = self.heap.pop();
                proof {
                    lemma_worst(grown, top->0);
                }
            }
            if self.heap.len() == self.k {
                let top: Option<Score> = self.heap.peek();
                if let Some(s) = top {
                    proof {
                        lemma_worst(self.heap@, s);
                    }
                    self.threshold = s.score;
                }
            }
        }
    }

    /// The scores, best first.
    pub fn into_results(self) -> (results: Vec<Score>)
        ensures
            is_ranking(results@, self@.items),
    {
        let items: Vec<Score> = self.heap.into_vec();
        let results: Vec<Score> = crate::order::sorted(&items);
        assert(forall|i: int, j: int|
            #![trigger results@[i], results@[j]]
            0 <= i < j < results@.len() ==> results@[i].ranks_le(&results@[j]));
        results
    }
}

/// `worst` picks the worst score.
proof fn lemma_worst(m: Multiset<Score>, s: Score)
    requires
        crate::heap::is_worst(m, s),
    ensures
        worst(m) == s,
{
    crate::heap::lemma_worst_is_unique(m, worst(m), s);
}

/// A non-empty multiset has a worst score.
pub proof fn lemma_worst_exists(m: Multiset<Score>)
    requires
        m.len() > 0,
    ensures
        crate::heap::is_worst(m, worst(m)),
    decreases m.len(),
{
    let x = m.choose();
    assert(m.contains(x));
    let rest = m.remove(x);
    if rest.len() == 0 {
        assert forall|y: Score| #[trigger] m.contains(y) implies y == x by {
            if y != x {
                assert(rest.count(y) > 0);
            }
        }
        assert(crate::heap::is_worst(m, x));
    } else {
        lemma_worst_exists(rest);
        let w = worst(rest);
        let best = if x.worse(w) {
            x
        } else {
            w
        };
        assert forall|y: Score| #[trigger] m.contains(y) implies !y.worse(best) by {
            if y != x {
                assert(rest.contains(y));
            }
        }
        assert(crate::heap::is_worst(m, best));
    }
}

/// Offering keeps a set well formed, and one that is full stays full with a
/// worst score that never falls.
pub proof fn law_offering_raises_the_bar(s: TopKState, c: Score)
    requires
        s.wf(),
    ensures
        s.offered(c).wf(),
        s.offered(c).k == s.k,
        s.full() ==> s.offered(c).full(),
        s.full() ==> s.offered(c).threshold.rank() >= s.threshold.rank(),
{
    if s.admits(c.score) {
        let grown = s.items.insert(c);
        let after = s.offered(c);
        lemma_worst_exists(grown);
        if s.full() {
            lemma_worst_exists(s.items);
            lemma_worst_exists(after.items);
            crate::weight::lemma_value_follows_rank(c.score, s.threshold);
            let w = worst(after.items);
            assert(grown.contains(w));
            if w != c {
                assert(s.items.contains(w));
            }
        }
    }
}

/// A score that cannot enter a full set can never enter it later.
proof fn lemma_hopeless_stays_hopeless(s: TopKState, w: Weight, c: Score)
    requires
        s.wf(),
        !s.admits(w),
    ensures
        !s.offered(c).admits(w),
{
    law_offering_raises_the_bar(s, c);
    let t = s.offered(c).threshold;
    crate::weight::lemma_value_follows_rank(s.threshold, t);
}

/// Offering keeps well-formedness over any number of candidates.
pub proof fn lemma_offered_all_wf(s: TopKState, candidates: Seq<Score>)
    requires
        s.wf(),
    ensures
        s.offered_all(candidates).wf(),
        s.offered_all(candidates).k == s.k,
        s.full() ==> s.offered_all(candidates).full(),
    decreases candidates.len(),
{
    if candidates.len() > 0 {
        lemma_offered_all_wf(s, candidates.drop_last());
        law_offering_raises_the_bar(s.offered_all(candidates.drop_last()), candidates.last());
    }
}

/// Offering two lists one after the other is offering their concatenation.
pub proof fn lemma_offered_all_concat(s: TopKState, a: Seq<Score>, b: Seq<Score>)
    ensures
        s.offered_all(a + b) == s.offered_all(a).offered_all(b),
    decreases b.len(),
{
    if b.len() == 0 {
        assert(a + b =~= a);
    } else {
        assert((a + b).drop_last() =~= a + b.drop_last());
        lemma_offered_all_concat(s, a, b.drop_last());
    }
}

proof fn lemma_hopeless_after_all(s: TopKState, w: Weight, candidates: Seq<Score>)
    requires
        s.wf(),
        !s.admits(w),
    ensures
        !s.offered_all(candidates).admits(w),
    decreases candidates.len(),
{
    if candidates.len() > 0 {
        let before = candidates.drop_last();
        lemma_hopeless_after_all(s, w, before);
        lemma_offered_all_wf(s, before);
        lemma_hopeless_stays_hopeless(s.offered_all(before), w, candidates.last());
    }
}

/// Pruning is safe: candidates that the set would not admit *now* may be left
/// out of whatever is offered from now on, and the outcome is the same.
pub proof fn law_pruning_changes_nothing(
    s: TopKState,
    all: Seq<Score>,
    keep: spec_fn(Score) -> bool,
)
    requires
        s.wf(),
        forall|i: int|
            0 <= i < all.len() && !keep(#[trigger] all[i]) ==> !s.admits(all[i].score),
    ensures
        s.offered_all(all.filter(keep)) == s.offered_all(all),
    decreases all.len(),
{
    reveal(Seq::filter);
    if all.len() > 0 {
        let before = all.drop_last();
        let last = all.last();
        assert(last == all[all.len() - 1]);
        assert forall|i: int| 0 <= i < before.len() && !keep(#[trigger] before[i]) implies !s.admits(
            before[i].score,
        ) by {
            assert(before[i] == all[i]);
        }
        law_pruning_changes_nothing(s, before, keep);
        if keep(last) {
            assert(before.filter(keep).push(last).drop_last() =~= before.filter(keep));
        } else {
            lemma_hopeless_after_all(s, last.score, before);
        }
    }
}

/// A NaN that sorts below every number.
pub open spec fn is_negative_nan(w: Weight) -> bool {
    w.nan() && w.negative()
}

/// A set that was offered `candidates` from the start holds `k` of them, or
/// all when there are fewer, and none that it let go scores higher than one
/// that it holds. (A NaN with its sign bit set would sort below every number
/// and, once it is the threshold, shut every later candidate out.)
pub proof fn law_kept_scores_are_the_best(k: nat, candidates: Seq<Score>)
    requires
        k > 0,
        forall|i: int|
            0 <= i < candidates.len() ==> !is_negative_nan((#[trigger] candidates[i]).score),
    ensures
        ({
            let kept = TopKState::start(k).offered_all(candidates).items;
            let all = candidates.to_multiset();
            &&& kept.subset_of(all)
            &&& kept.len() == if candidates.len() < k {
                candidates.len()
            } else {
                k
            }
            &&& forall|d: Score, x: Score| #[trigger]
                all.sub(kept).contains(d) && #[trigger] kept.contains(x) ==> !d.score.gt(x.score)
        }),
    decreases candidates.len(),
{
    let start = TopKState::start(k);
    if candidates.len() == 0 {
        candidates.to_multiset_ensures();
        assert(candidates.to_multiset() =~= Multiset::<Score>::empty());
    } else {
        let before = candidates.drop_last();
        let c = candidates.last();
        assert(c == candidates[candidates.len() - 1]);
        assert forall|i: int| 0 <= i < before.len() implies !is_negative_nan(
            (#[trigger] before[i]).score,
        ) by {
            assert(before[i] == candidates[i]);
        }
        law_kept_scores_are_the_best(k, before);
        lemma_offered_all_wf(start, before);
        let s = start.offered_all(before);
        let all0 = before.to_multiset();
        let all = candidates.to_multiset();
        assert(candidates =~= before.push(c));
        vstd::seq_lib::to_multiset_build(before, c);
        assert(all == all0.insert(c));
        vstd::seq_lib::to_multiset_len(before);
        assert forall|x: Score| #[trigger] all.contains(x) implies !is_negative_nan(x.score) by {
            vstd::seq_lib::to_multiset_contains(candidates, x);
        }
        let kept0 = s.items;
        let after = s.offered(c);
        let kept = after.items;
        assert(start.offered_all(candidates) == after);
        if !s.admits(c.score) {
            lemma_worst_exists(kept0);
            assert forall|d: Score, x: Score| #[trigger]
                all.sub(kept).contains(d) && #[trigger] kept.contains(x) implies !d.score.gt(
                x.score,
            ) by {
                if all0.sub(kept0).contains(d) {
                } else {
                    assert(d == c);
                    assert(all.contains(x));
                    assert(all.contains(worst(kept0)));
                    crate::weight::lemma_value_follows_rank(s.threshold, x.score);
                }
            }
        } else if !s.full() {
            assert(all0.sub(kept0).len() == 0);
            assert(all0.sub(kept0) =~= Multiset::<Score>::empty()) by {
                vstd::multiset::lemma_multiset_empty_len(all0.sub(kept0));
            }
            assert(all0 =~= kept0) by {
                assert forall|x: Score| all0.count(x) == kept0.count(x) by {
                    assert(all0.sub(kept0).count(x) == 0);
                }
            }
            assert(kept == all);
            assert forall|d: Score, x: Score| #[trigger]
                all.sub(kept).contains(d) && #[trigger] kept.contains(x) implies !d.score.gt(
                x.score,
            ) by {
                assert(all.sub(kept).count(d) == 0);
            }
        } else {
            let grown = kept0.insert(c);
            lemma_worst_exists(kept0);
            lemma_worst_exists(grown);
            let w = worst(grown);
            assert(kept == grown.remove(w));
            assert(kept.subset_of(all));
            assert forall|d: Score, x: Score| #[trigger]
                all.sub(kept).contains(d) && #[trigger] kept.contains(x) implies !d.score.gt(
                x.score,
            ) by {
                assert(grown.contains(x));
                if d == w {
                    crate::weight::lemma_value_follows_rank(d.score, x.score);
                } else {
                    assert(all0.sub(kept0).contains(d)) by {
                        assert(all.count(d) > kept.count(d));
                        assert(grown.count(d) == kept.count(d));
                    }
                    if kept0.contains(x) {
                    } else {
                        assert(x == c);
                        assert(kept0.contains(worst(kept0)));
                    }
                }
            }
        }
    }
}

/// What a search hands back: listing the set that was offered `candidates`
/// from the start gives `k` of them (all, when there are fewer), by falling
/// score, and a candidate that is not listed scores no higher than any that is.
pub proof fn law_ranking_is_the_top_k(k: nat, candidates: Seq<Score>, results: Seq<Score>)
    requires
        k > 0,
        forall|i: int|
            0 <= i < candidates.len() ==> !is_negative_nan((#[trigger] candidates[i]).score),
        is_ranking(results, TopKState::start(k).offered_all(candidates).items),
    ensures
        results.len() == if candidates.len() < k {
            candidates.len()
        } else {
            k
        },
        forall|i: int| 0 <= i < results.len() ==> candidates.contains(#[trigger] results[i]),
        forall|i: int, j: int|
            #![trigger results[i], results[j]]
            0 <= i < j < results.len() ==> !results[j].score.gt(results[i].score),
        forall|c: int, i: int|
            #![trigger candidates[c], results[i]]
            0 <= c < candidates.len() && 0 <= i < results.len() && !results.contains(candidates[c])
                ==> !candidates[c].score.gt(results[i].score),
{
    law_kept_scores_are_the_best(k, candidates);
    let kept = TopKState::start(k).offered_all(candidates).items;
    let all = candidates.to_multiset();
    vstd::seq_lib::to_multiset_len(results);
    assert forall|i: int| 0 <= i < results.len() implies candidates.contains(
        #[trigger] results[i],
    ) by {
        vstd::seq_lib::to_multiset_contains(results, results[i]);
        vstd::seq_lib::to_multiset_contains(candidates, results[i]);
        assert(kept.count(results[i]) <= all.count(results[i]));
    }
    assert forall|i: int, j: int|
        #![trigger results[i], results[j]]
        0 <= i < j < results.len() implies !results[j].score.gt(results[i].score) by {
        crate::weight::lemma_value_follows_rank(results[i].score, results[j].score);
        assert(!results[j].precedes(results[i]));
    }
    assert forall|c: int, i: int|
        #![trigger candidates[c], results[i]]
        0 <= c < candidates.len() && 0 <= i < results.len() && !results.contains(
            candidates[c],
        ) implies !candidates[c].score.gt(results[i].score) by {
        vstd::seq_lib::to_multiset_contains(results, results[i]);
        vstd::seq_lib::to_multiset_contains(results, candidates[c]);
        vstd::seq_lib::to_multiset_contains(candidates, candidates[c]);
        assert(all.sub(kept).contains(candidates[c]));
        assert(kept.contains(results[i]));
    }
}

/// How many of the candidates have a score above `v`.
spec fn count_above(m: Multiset<Score>, v: int) -> nat {
    m.filter(|s: Score| s.score.value() > v).len()
}

/// The place of a result tells whether its score is above `v`: it is, just when
/// more candidates than stand before it are.
proof fn lemma_place_tells_value(
    k: nat,
    candidates: Seq<Score>,
    results: Seq<Score>,
    v: int,
    i: int,
)
    requires
        k > 0,
        forall|c: int| 0 <= c < candidates.len() ==> !(#[trigger] candidates[c]).score.nan(),
        is_ranking(results, TopKState::start(k).offered_all(candidates).items),
        0 <= i < results.len(),
    ensures
        results[i].score.value() > v <==> i < count_above(candidates.to_multiset(), v),
{
    let kept = results.to_multiset();
    let all = candidates.to_multiset();
    let above = |s: Score| s.score.value() > v;
    law_kept_scores_are_the_best(k, candidates);
    assert forall|x: Score| #[trigger] all.contains(x) implies !x.score.nan() by {
        vstd::seq_lib::to_multiset_contains(candidates, x);
    }
    assert forall|a: int, b: int|
        #![trigger results[a], results[b]]
        0 <= a < b < results.len() implies results[a].score.value()
        >= results[b].score.value() by {
        crate::weight::lemma_value_follows_rank(results[a].score, results[b].score);
        assert(!results[b].precedes(results[a]));
    }
    if results[i].score.value() > v {
        let front = results.take(i + 1);
        let tail = results.skip(i + 1);
        let listed = front.to_multiset();
        assert(results =~= front + tail);
        vstd::seq_lib::lemma_multiset_commutative(front, tail);
        vstd::seq_lib::to_multiset_len(front);
        assert forall|x: Score| listed.count(x) <= #[trigger] all.filter(above).count(x) by {
            vstd::seq_lib::to_multiset_contains(front, x);
            if listed.count(x) > 0 {
                let a = choose|a: int| 0 <= a < front.len() && front[a] == x;
                assert(results[a] == x);
                assert(above(x));
            }
            assert(listed.count(x) <= kept.count(x));
            assert(kept.count(x) <= all.count(x));
        }
        assert(listed.subset_of(all.filter(above)));
        lemma_subset_is_no_larger(listed, all.filter(above));
    } else {
        let front = results.take(i);
        let tail = results.skip(i);
        let listed = front.to_multiset();
        assert(results =~= front + tail);
        vstd::seq_lib::lemma_multiset_commutative(front, tail);
        vstd::seq_lib::to_multiset_len(front);
        assert(kept.contains(results[i])) by {
            vstd::seq_lib::to_multiset_contains(results, results[i]);
        }
        assert forall|x: Score| #[trigger] all.filter(above).count(x) <= listed.count(x) by {
            if above(x) {
                assert(all.contains(results[i]));
                if all.count(x) > kept.count(x) {
                    assert(all.sub(kept).contains(x));
                    assert(!x.score.gt(results[i].score));
                    assert(all.contains(x));
                }
                if tail.to_multiset().count(x) > 0 {
                    vstd::seq_lib::to_multiset_contains(tail, x);
                    let a = choose|a: int| 0 <= a < tail.len() && tail[a] == x;
                    assert(results[i + a] == x);
                }
            }
        }
        assert(all.filter(above).subset_of(listed));
        lemma_subset_is_no_larger(all.filter(above), listed);
    }
}

proof fn lemma_subset_is_no_larger(a: Multiset<Score>, b: Multiset<Score>)
    requires
        a.subset_of(b),
    ensures
        a.len() <= b.len(),
{
    vstd::multiset::axiom_len_sub(b, a);
}

/// Asking for fewer gives the front of what asking for more gives: for
/// `k1 <= k2` the first ranking is as long as the second or `k1`, and place by
/// place the scores are equal; the documents are equal too when no two
/// candidates have equal scores. (No score is a NaN. Of the scores 1 and NaN,
/// offered in this order, a set of one keeps the 1, while a set of two keeps both
/// and lists the NaN first.)
pub proof fn law_fewer_results_are_the_front_of_more(
    k1: nat,
    k2: nat,
    candidates: Seq<Score>,
    results1: Seq<Score>,
    results2: Seq<Score>,
)
    requires
        0 < k1 <= k2,
        forall|c: int| 0 <= c < candidates.len() ==> !(#[trigger] candidates[c]).score.nan(),
        is_ranking(results1, TopKState::start(k1).offered_all(candidates).items),
        is_ranking(results2, TopKState::start(k2).offered_all(candidates).items),
    ensures
        results1.len() == if k1 < results2.len() {
            k1
        } else {
            results2.len()
        },
        forall|i: int|
            #![trigger results1[i]]
            #![trigger results2[i]]
            0 <= i < results1.len() ==> results1[i].score.numerically_equal(results2[i].score),
        (forall|c: int, d: int|
            #![trigger candidates[c], candidates[d]]
            0 <= c < d < candidates.len() ==> !candidates[c].score.numerically_equal(
                candidates[d].score,
            )) ==> results1 == results2.take(results1.len() as int),
{
    law_ranking_is_the_top_k(k1, candidates, results1);
    law_ranking_is_the_top_k(k2, candidates, results2);
    assert forall|i: int|
        #![trigger results1[i]]
        #![trigger results2[i]]
        0 <= i < results1.len() implies results1[i].score.numerically_equal(
        results2[i].score,
    ) by {
        assert(candidates.contains(results1[i]));
        assert(candidates.contains(results2[i]));
        let v1 = results1[i].score.value();
        let v2 = results2[i].score.value();
        lemma_place_tells_value(k1, candidates, results1, v2, i);
        lemma_place_tells_value(k2, candidates, results2, v2, i);
        lemma_place_tells_value(k1, candidates, results1, v1, i);
        lemma_place_tells_value(k2, candidates, results2, v1, i);
    }
    if forall|c: int, d: int|
        #![trigger candidates[c], candidates[d]]
        0 <= c < d < candidates.len() ==> !candidates[c].score.numerically_equal(
            candidates[d].score,
        ) {
        assert forall|i: int| 0 <= i < results1.len() implies results1[i] == results2[i] by {
            assert(results1[i].score.numerically_equal(results2[i].score));
            assert(candidates.contains(results1[i]));
            assert(candidates.contains(results2[i]));
            let c = choose|c: int| 0 <= c < candidates.len() && candidates[c] == results1[i];
            let d = choose|d: int| 0 <= d < candidates.len() && candidates[d] == results2[i];
            if c < d {
                assert(!candidates[c].score.numerically_equal(candidates[d].score));
            } else if d < c {
                assert(!candidates[d].score.numerically_equal(candidates[c].score));
            }
        }
        assert(results1 =~= results2.take(results1.len() as int));
    }
}

/// A set that was offered `candidates` from the start holds some of them: `k`, or
/// all when there are fewer.
pub proof fn lemma_kept_were_offered(k: nat, candidates: Seq<Score>)
    requires
        k > 0,
    ensures
        TopKState::start(k).offered_all(candidates).items.subset_of(candidates.to_multiset()),
        TopKState::start(k).offered_all(candidates).items.len() <= k,
        TopKState::start(k).offered_all(candidates).items.len() == if candidates.len() < k {
            candidates.len()
        } else {
            k
        },
    decreases candidates.len(),
{
    let start = TopKState::start(k);
    lemma_offered_all_wf(start, candidates);
    if candidates.len() > 0 {
        let before = candidates.drop_last();
        lemma_kept_were_offered(k, before);
        lemma_offered_all_wf(start, before);
        law_offering_swaps_out_the_worst(start.offered_all(before), candidates.last());
        assert(candidates =~= before.push(candidates.last()));
        vstd::seq_lib::to_multiset_build(before, candidates.last());
    }
}

/// What offering a candidate does. A set with room takes it. A full set takes it
/// just when its score exceeds the threshold, and lets one go that no other
/// undercuts, by score and then by offset; otherwise nothing changes. The
/// threshold is that of the lowest score once the set is full, and untouched
/// before.
pub proof fn law_offering_swaps_out_the_worst(s: TopKState, c: Score)
    requires
        s.wf(),
    ensures
        ({
            let after = s.offered(c);
            let grown = s.items.insert(c);
            &&& after.k == s.k
            &&& s.items.len() < s.k ==> after.items == grown
            &&& s.items.len() >= s.k && !c.score.gt(s.threshold) ==> after == s
            &&& s.items.len() >= s.k && c.score.gt(s.threshold) ==> exists|x: Score|
                #![trigger grown.remove(x)]
                {
                    &&& grown.count(x) > 0
                    &&& after.items == grown.remove(x)
                    &&& forall|y: Score| #[trigger]
                        grown.count(y) > 0 ==> y.score.rank() > x.score.rank() || (y.score.rank()
                            == x.score.rank() && y.offset >= x.offset)
                }
            &&& after.items.len() < s.k ==> after.threshold == s.threshold
            &&& after.items.len() >= s.k ==> (exists|x: Score| #[trigger]
                after.items.count(x) > 0 && x.score == after.threshold) && (forall|y: Score|
                #[trigger]
                after.items.count(y) > 0 ==> y.score.rank() >= after.threshold.rank())
        }),
{
    let after = s.offered(c);
    let grown = s.items.insert(c);
    law_offering_raises_the_bar(s, c);
    lemma_worst_exists(grown);
    crate::heap::law_worst_has_the_lowest_score(grown, worst(grown));
    if s.items.len() >= s.k && c.score.gt(s.threshold) {
        assert(after.items == grown.remove(worst(grown)));
    }
    if after.items.len() >= s.k {
        lemma_worst_exists(after.items);
        crate::heap::law_worst_has_the_lowest_score(after.items, worst(after.items));
        assert(after.items.count(worst(after.items)) > 0);
    }
}

/// Candidates are offered in turn, each to what the others before it left; a new
/// set is empty, and its threshold is the lowest finite number.
pub proof fn law_candidates_are_offered_in_turn(s: TopKState, before: Seq<Score>, c: Score, k: nat)
    ensures
        s.offered_all(Seq::empty()) == s,
        s.offered_all(before.push(c)) == s.offered_all(before).offered(c),
        TopKState::start(k).k == k,
        TopKState::start(k).items == Multiset::<Score>::empty(),
        TopKState::start(k).threshold.bits == 0xff7f_ffff,
        s.full() <==> s.items.len() >= s.k,
        s.admits(c.score) <==> c.score.gt(s.threshold) || s.items.len() < s.k,
{
    assert(before.push(c).drop_last() =~= before);
}

/// A ranking has the scores of the set, each as often, by falling score and then
/// by rising offset.
pub proof fn law_ranking_lists_the_set(results: Seq<Score>, items: Multiset<Score>)
    requires
        is_ranking(results, items),
    ensures
        results.len() == items.len(),
        forall|x: Score| #[trigger] results.to_multiset().count(x) == items.count(x),
        forall|i: int, j: int|
            #![trigger results[i], results[j]]
            0 <= i < j < results.len() ==> results[i].score.rank() > results[j].score.rank() || (
            results[i].score.rank() == results[j].score.rank() && results[i].offset
                <= results[j].offset),
{
    vstd::seq_lib::to_multiset_len(results);
    assert forall|i: int, j: int|
        #![trigger results[i], results[j]]
        0 <= i < j < results.len() implies results[i].score.rank() > results[j].score.rank() || (
    results[i].score.rank() == results[j].score.rank() && results[i].offset
        <= results[j].offset) by {
        assert(!results[j].precedes(results[i]));
    }
}

} // verus!
