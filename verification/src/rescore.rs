//! Two-phase retrieval: an oversampled candidate set with approximate scores
//! is scored again exactly, and the best by exact score are selected.

use vstd::prelude::*;

use crate::score::Score;
use crate::topk::TopK;
use crate::topk::TopKState;
use crate::weight::Weight;

verus! {

/// The candidates with the exact scores in place of the approximate ones, as
/// far as both lists go.
pub open spec fn rescored(candidates: Seq<Score>, exact_scores: Seq<Weight>) -> Seq<Score> {
    Seq::new(
        if candidates.len() <= exact_scores.len() {
            candidates.len()
        } else {
            exact_scores.len()
        },
        |i: int| Score { score: exact_scores[i], offset: candidates[i].offset },
    )
}

/// There is something to select from, and something to select.
pub open spec fn is_selection(candidates: Seq<Score>, k: nat) -> bool {
    candidates.len() > 0 && k > 0
}

/// No score without a candidate would be selected.
pub open spec fn surplus_is_idle(
    candidates: Seq<Score>,
    k: nat,
    exact_scores: Seq<Weight>,
) -> bool {
    forall|i: int|
        candidates.len() <= i < exact_scores.len() ==> !TopKState::start(k).offered_all(
            rescored(candidates, exact_scores),
        ).admits(#[trigger] exact_scores[i])
}

/// The documents to score exactly, in candidate order; `None` when the
/// selection is empty whatever their scores, so that nothing need be scored.
pub fn rescore_request(candidates: &Vec<Score>, k: usize) -> (doc_ids: Option<Vec<u32>>)
    ensures
        doc_ids is Some <==> is_selection(candidates@, k as nat),
        doc_ids is Some <==> candidates.len() > 0 && k > 0,
        doc_ids matches Some(ids) ==> ids@ == candidates@.map_values(|s: Score| s.offset),
{
    if candidates.len() == 0 || k == 0 {
        return None;
    }
    let mut ids: Vec<u32> = Vec::new();
    let mut i: usize = 0;
    while i < candidates.len()
        invariant
            i <= candidates.len(),
            ids@ =~= candidates@.take(i as int).map_values(|s: Score| s.offset),
        decreases candidates.len() - i,
    {
        ids.push(candidates[i].offset);
        i = i + 1;
    }
    assert(candidates@.take(i as int) =~= candidates@);
    Some(ids)
}

/// Offers the candidates with their exact scores, as far as both lists go.
fn offer_rescored(candidates: &Vec<Score>, k: usize, exact_scores: &Vec<Weight>) -> (top: TopK)
    requires
        k > 0,
    ensures
        top.wf(),
        top@ == TopKState::start(k as nat).offered_all(rescored(candidates@, exact_scores@)),
{
    let mut top: TopK = TopK::new(k);
    let mut i: usize = 0;
    let ghost all = rescored(candidates@, exact_scores@);
    while i < exact_scores.len() && i < candidates.len()
        invariant
            i <= all.len(),
            all == rescored(candidates@, exact_scores@),
            top.wf(),
            top@ == TopKState::start(k as nat).offered_all(all.take(i as int)),
        decreases exact_scores.len() - i,
    {
        top.offer(Score { score: exact_scores[i], offset: candidates[i].offset });
        assert(all.take(i + 1).drop_last() =~= all.take(i as int));
        i = i + 1;
    }
    assert(all.take(i as int) =~= all);
    top
}

/// Whether every score that would be selected belongs to a candidate.
pub fn exact_scores_fit(candidates: &Vec<Score>, k: usize, exact_scores: &Vec<Weight>) -> (b: bool)
    ensures
        b == (is_selection(candidates@, k as nat) ==> surplus_is_idle(
            candidates@,
            k as nat,
            exact_scores@,
        )),
{
    if candidates.len() == 0 || k == 0 || exact_scores.len() <= candidates.len() {
        return true;
    }
    let top: TopK = offer_rescored(candidates, k, exact_scores);
    let mut i: usize = candidates.len();
    while i < exact_scores.len()
        invariant
            candidates.len() <= i <= exact_scores.len(),
            is_selection(candidates@, k as nat),
            top@ == TopKState::start(k as nat).offered_all(rescored(candidates@, exact_scores@)),
            forall|j: int|
                candidates.len() <= j < i ==> !top@.admits(#[trigger] exact_scores@[j]),
        decreases exact_scores.len() - i,
    {
        if top.would_admit(exact_scores[i]) {
            return false;
        }
        i = i + 1;
    }
    true
}

/// The `k` candidates with the best exact scores, best first. The scores stand
/// in candidate order; candidates without one are not selected.
pub fn rescore_and_select(
    candidates: &Vec<Score>,
    k: usize,
    exact_scores: &Vec<Weight>,
) -> (results: Vec<Score>)
    requires
        is_selection(candidates@, k as nat) ==> surplus_is_idle(
            candidates@,
            k as nat,
            exact_scores@,
        ),
    ensures
        !is_selection(candidates@, k as nat) ==> results@.len() == 0,
        is_selection(candidates@, k as nat) ==> crate::topk::is_ranking(
            results@,
            TopKState::start(k as nat).offered_all(rescored(candidates@, exact_scores@)).items,
        ),
        results.len() <= k,
        results.len() <= candidates.len(),
        results.len() <= exact_scores.len(),
        results.len() == k || results.len() == candidates.len() || results.len()
            == exact_scores.len(),
        forall|r: int|
            0 <= r < results.len() ==> exists|i: int|
                #![trigger exact_scores@[i]]
                0 <= i < candidates.len() && i < exact_scores.len() && (
                #[trigger] results@[r]).score == exact_scores@[i] && results@[r].offset
                    == candidates@[i].offset,
        forall|r: int, q: int|
            #![trigger results@[r], results@[q]]
            0 <= r < q < results.len() ==> results@[r].score.rank() > results@[q].score.rank() || (
            results@[r].score.rank() == results@[q].score.rank() && results@[r].offset
                <= results@[q].offset),
        (forall|i: int|
            0 <= i < exact_scores.len() ==> !((#[trigger] exact_scores@[i]).nan()
                && exact_scores@[i].bits >= 0x8000_0000)) ==> forall|i: int, r: int|
            #![trigger exact_scores@[i], results@[r]]
            0 <= i < candidates.len() && i < exact_scores.len() && 0 <= r < results.len() && (
            forall|q: int|
                0 <= q < results.len() ==> !((#[trigger] results@[q]).score == exact_scores@[i]
                    && results@[q].offset == candidates@[i].offset)) ==> !exact_scores@[i].gt(
                results@[r].score,
            ),
{
    if candidates.len() == 0 || k == 0 {
        return Vec::new();
    }
    let results: Vec<Score> = offer_rescored(candidates, k, exact_scores).into_results();
    proof {
        law_selection_is_by_exact_score(candidates@, k as nat, exact_scores@, results@);
    }
    results
}

/// Rescoring selects by exact score: of the candidates with their exact scores,
/// the results are `k` (all, when there are fewer), by falling score, and one
/// that is not selected scores no higher than any that is. (A NaN with its sign
/// bit set is left out, as in [`crate::topk::law_kept_scores_are_the_best`].)
pub proof fn law_rescoring_selects_the_best(
    candidates: Seq<Score>,
    k: nat,
    exact_scores: Seq<Weight>,
    results: Seq<Score>,
)
    requires
        is_selection(candidates, k),
        forall|i: int|
            0 <= i < rescored(candidates, exact_scores).len() ==> !crate::topk::is_negative_nan(
                (#[trigger] rescored(candidates, exact_scores)[i]).score,
            ),
        crate::topk::is_ranking(
            results,
            TopKState::start(k).offered_all(rescored(candidates, exact_scores)).items,
        ),
    ensures
        ({
            let exact = rescored(candidates, exact_scores);
            &&& results.len() == if exact.len() < k {
                exact.len()
            } else {
                k
            }
            &&& forall|i: int| 0 <= i < results.len() ==> exact.contains(#[trigger] results[i])
            &&& forall|i: int, j: int|
                #![trigger results[i], results[j]]
                0 <= i < j < results.len() ==> !results[j].score.gt(results[i].score)
            &&& forall|c: int, i: int|
                #![trigger exact[c], results[i]]
                0 <= c < exact.len() && 0 <= i < results.len() && !results.contains(exact[c])
                    ==> !exact[c].score.gt(results[i].score)
        }),
{
    crate::topk::law_ranking_is_the_top_k(k, rescored(candidates, exact_scores), results);
}

/// What a selection holds, over the exact scores and the offsets alone. There are
/// `k` results, or as many as candidates with a score. Each is the offset of a
/// candidate with that candidate's exact score. They stand by falling score, then
/// by rising offset. And when no exact score is a NaN with its sign bit set, a
/// candidate whose offset and exact score are not among the results scores no
/// higher than any of them. The candidates' own scores play no part.
pub proof fn law_selection_is_by_exact_score(
    candidates: Seq<Score>,
    k: nat,
    exact_scores: Seq<Weight>,
    results: Seq<Score>,
)
    requires
        k > 0,
        crate::topk::is_ranking(
            results,
            TopKState::start(k).offered_all(rescored(candidates, exact_scores)).items,
        ),
    ensures
        results.len() <= k,
        results.len() <= candidates.len(),
        results.len() <= exact_scores.len(),
        results.len() == k || results.len() == candidates.len() || results.len()
            == exact_scores.len(),
        forall|r: int|
            0 <= r < results.len() ==> exists|i: int|
                #![trigger exact_scores[i]]
                0 <= i < candidates.len() && i < exact_scores.len() && (#[trigger] results[r]).score
                    == exact_scores[i] && results[r].offset == candidates[i].offset,
        forall|r: int, q: int|
            #![trigger results[r], results[q]]
            0 <= r < q < results.len() ==> results[r].score.rank() > results[q].score.rank() || (
            results[r].score.rank() == results[q].score.rank() && results[r].offset
                <= results[q].offset),
        (forall|i: int|
            0 <= i < exact_scores.len() ==> !((#[trigger] exact_scores[i]).nan()
                && exact_scores[i].bits >= 0x8000_0000)) ==> forall|i: int, r: int|
            #![trigger exact_scores[i], results[r]]
            0 <= i < candidates.len() && i < exact_scores.len() && 0 <= r < results.len() && (
            forall|q: int|
                0 <= q < results.len() ==> !((#[trigger] results[q]).score == exact_scores[i]
                    && results[q].offset == candidates[i].offset)) ==> !exact_scores[i].gt(
                results[r].score,
            ),
{
    let exact = rescored(candidates, exact_scores);
    let kept = TopKState::start(k).offered_all(exact).items;
    crate::topk::lemma_kept_were_offered(k, exact);
    crate::topk::law_ranking_lists_the_set(results, kept);
    assert forall|r: int| 0 <= r < results.len() implies exists|i: int|
        #![trigger exact_scores[i]]
        0 <= i < candidates.len() && i < exact_scores.len() && (#[trigger] results[r]).score
            == exact_scores[i] && results[r].offset == candidates[i].offset by {
        vstd::seq_lib::to_multiset_contains(results, results[r]);
        assert(kept.count(results[r]) <= exact.to_multiset().count(results[r]));
        vstd::seq_lib::to_multiset_contains(exact, results[r]);
        let i = choose|i: int| 0 <= i < exact.len() && exact[i] == results[r];
        assert(results[r].score == exact_scores[i]);
    }
    if forall|i: int|
        0 <= i < exact_scores.len() ==> !((#[trigger] exact_scores[i]).nan()
            && exact_scores[i].bits >= 0x8000_0000) {
        assert forall|i: int| 0 <= i < exact.len() implies !crate::topk::is_negative_nan(
            (#[trigger] exact[i]).score,
        ) by {
            assert(exact[i].score == exact_scores[i]);
        }
        crate::topk::law_ranking_is_the_top_k(k, exact, results);
        assert forall|i: int, r: int|
            #![trigger exact_scores[i], results[r]]
            0 <= i < candidates.len() && i < exact_scores.len() && 0 <= r < results.len() && (
            forall|q: int|
                0 <= q < results.len() ==> !((#[trigger] results[q]).score == exact_scores[i]
                    && results[q].offset == candidates[i].offset)) implies !exact_scores[i].gt(
            results[r].score,
        ) by {
            assert(exact[i].score == exact_scores[i]);
            if results.contains(exact[i]) {
                let q = choose|q: int| 0 <= q < results.len() && results[q] == exact[i];
                assert(!(results[q].score == exact_scores[i] && results[q].offset
                    == candidates[i].offset));
            }
        }
    }
}

/// When scores without a candidate are idle: there are none, or the set of the
/// candidates' exact scores is full and none of them exceeds its threshold.
pub proof fn law_idle_surplus_enters_nothing(
    candidates: Seq<Score>,
    k: nat,
    exact_scores: Seq<Weight>,
)
    requires
        k > 0,
    ensures
        is_selection(candidates, k) <==> candidates.len() > 0,
        exact_scores.len() <= candidates.len() ==> surplus_is_idle(candidates, k, exact_scores),
        exact_scores.len() > candidates.len() && candidates.len() < k ==> !surplus_is_idle(
            candidates,
            k,
            exact_scores,
        ),
        exact_scores.len() > candidates.len() && candidates.len() >= k ==> (surplus_is_idle(
            candidates,
            k,
            exact_scores,
        ) <==> forall|i: int|
            candidates.len() <= i < exact_scores.len() ==> !(#[trigger] exact_scores[i]).gt(
                TopKState::start(k).offered_all(rescored(candidates, exact_scores)).threshold,
            )),
{
    let exact = rescored(candidates, exact_scores);
    crate::topk::lemma_kept_were_offered(k, exact);
    if exact_scores.len() > candidates.len() && candidates.len() < k {
        let n = candidates.len() as int;
        assert(TopKState::start(k).offered_all(exact).admits(exact_scores[n])) by {
            crate::topk::lemma_offered_all_wf(TopKState::start(k), exact);
        }
    }
    crate::topk::lemma_offered_all_wf(TopKState::start(k), exact);
}

} // verus!
