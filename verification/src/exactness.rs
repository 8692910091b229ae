//! Why pruning loses nothing.
//!
//! Let `all` be the documents of a window that occur in any term, each with its
//! complete score, by rising offset. A search that scores every one of them and
//! offers it to the top-k set is exhaustive. The laws below show that the
//! candidates which survive pruning leave the top-k set as the exhaustive
//! search does, as long as the bounds and cutoffs handed in are bounds indeed.

use vstd::prelude::*;

use crate::query::Next;
use crate::score::Score;
use crate::search::SearchState;
use crate::topk::TopKState;
use crate::weight::Weight;
use crate::window::WINDOW_WIDTH;

verus! {

/// The two lists name the same documents in the same order.
pub open spec fn same_documents(a: Seq<Score>, b: Seq<Score>) -> bool {
    &&& a.len() == b.len()
    &&& forall|i: int| 0 <= i < a.len() ==> (#[trigger] a[i]).offset == (#[trigger] b[i]).offset
}

/// No document is listed twice.
pub open spec fn distinct_documents(a: Seq<Score>) -> bool {
    forall|i: int, j: int|
        #![trigger a[i], a[j]]
        0 <= i < j < a.len() ==> a[i].offset != a[j].offset
}

/// `candidates` names the documents of `all` that `keep` selects, in order,
/// and what it leaves out could not enter the top-k set anyway.
pub open spec fn covers_by(
    top: TopKState,
    all: Seq<Score>,
    candidates: Seq<Score>,
    keep: spec_fn(Score) -> bool,
) -> bool {
    &&& same_documents(candidates, all.filter(keep))
    &&& forall|i: int|
        0 <= i < all.len() && !keep(#[trigger] all[i]) ==> !top.admits(all[i].score)
}

/// The candidates name every document of `all` that could still enter the
/// top-k set. (Their scores may be incomplete.)
pub open spec fn covers(top: TopKState, all: Seq<Score>, candidates: Seq<Score>) -> bool {
    exists|keep: spec_fn(Score) -> bool| #[trigger] covers_by(top, all, candidates, keep)
}

/// Every candidate has its complete score.
pub open spec fn completely_scored(all: Seq<Score>, candidates: Seq<Score>) -> bool {
    forall|i: int, j: int|
        #![trigger candidates[i], all[j]]
        0 <= i < candidates.len() && 0 <= j < all.len() && candidates[i].offset == all[j].offset
            ==> candidates[i].score == all[j].score
}

/// A document that only non-essential terms contain cannot enter the top-k set:
/// its score is at most the running bound before the first essential term, and
/// that bound is below the threshold.
pub proof fn law_non_essential_documents_cannot_enter(
    top: TopKState,
    prefix_sums: Seq<Weight>,
    essential: nat,
    score: Weight,
)
    requires
        top.full(),
        crate::search::splits(prefix_sums, top.threshold, essential),
        0 < essential,
        !prefix_sums[essential - 1].nan(),
        score.nan() || score.value() <= prefix_sums[essential - 1].value(),
    ensures
        !top.admits(score),
{
    assert(!prefix_sums[essential - 1].ge(top.threshold));
}

/// Before the top-k set is full every term is essential, unless the lowest
/// bound is a NaN or below every finite number: nothing is pruned too early.
pub proof fn law_all_terms_are_essential_at_first(
    top: TopKState,
    prefix_sums: Seq<Weight>,
    essential: nat,
)
    requires
        top.wf(),
        !top.full(),
        crate::search::splits(prefix_sums, top.threshold, essential),
        prefix_sums.len() > 0,
        !prefix_sums[0].nan(),
        prefix_sums[0].value() >= (Weight { bits: crate::weight::LOWEST_BITS }).value(),
    ensures
        essential == 0,
{
    if essential > 0 {
        assert(!prefix_sums[0].ge(top.threshold));
    }
}

/// A candidate that does not exceed the cutoff cannot enter a full top-k set:
/// what the remaining terms may add is at most `rest`, and the cutoff is at
/// most the threshold less `rest`.
pub proof fn law_filtered_candidates_cannot_enter(
    top: TopKState,
    partial: Weight,
    cutoff: Weight,
    rest: int,
    score: Weight,
)
    requires
        top.full(),
        !partial.nan(),
        !cutoff.nan(),
        !partial.gt(cutoff),
        cutoff.value() <= top.threshold.value() - rest,
        score.nan() || score.value() <= partial.value() + rest,
    ensures
        !top.admits(score),
{
}

/// Draining covers the window: candidates that name exactly the documents of
/// the essential terms cover everything, when the documents outside those terms
/// cannot enter.
pub proof fn law_draining_covers(
    top: TopKState,
    all: Seq<Score>,
    candidates: Seq<Score>,
    essential: spec_fn(Score) -> bool,
)
    requires
        same_documents(candidates, all.filter(essential)),
        forall|i: int|
            0 <= i < all.len() && !essential(#[trigger] all[i]) ==> !top.admits(all[i].score),
    ensures
        covers(top, all, candidates),
{
    assert(covers_by(top, all, candidates, essential));
}

/// Giving the candidates new scores keeps the window covered.
pub proof fn law_rescoring_keeps_cover(
    top: TopKState,
    all: Seq<Score>,
    state: SearchState,
    scores: Seq<Weight>,
)
    requires
        covers(top, all, state.candidates),
    ensures
        covers(top, all, crate::search::with_scores(state, scores).candidates),
{
    let keep = choose|keep: spec_fn(Score) -> bool| #[trigger]
        covers_by(top, all, state.candidates, keep);
    let after = crate::search::with_scores(state, scores).candidates;
    assert forall|i: int| 0 <= i < after.len() implies (#[trigger] after[i]).offset
        == (#[trigger] all.filter(keep)[i]).offset by {
        assert(state.candidates[i].offset == all.filter(keep)[i].offset);
    }
    assert(covers_by(top, all, after, keep));
}

/// Filtering two lists of the same documents by tests that agree leaves lists
/// of the same documents.
proof fn lemma_aligned_filters(
    a: Seq<Score>,
    p: spec_fn(Score) -> bool,
    b: Seq<Score>,
    q: spec_fn(Score) -> bool,
)
    requires
        same_documents(a, b),
        forall|i: int| 0 <= i < a.len() ==> p(#[trigger] a[i]) == q(#[trigger] b[i]),
    ensures
        same_documents(a.filter(p), b.filter(q)),
    decreases a.len(),
{
    reveal(Seq::filter);
    if a.len() > 0 {
        let a0 = a.drop_last();
        let b0 = b.drop_last();
        assert(forall|i: int| 0 <= i < a0.len() ==> a0[i] == a[i] && b0[i] == b[i]);
        assert forall|i: int| 0 <= i < a0.len() implies p(#[trigger] a0[i]) == q(
            #[trigger] b0[i],
        ) by {
            assert(p(a[i]) == q(b[i]));
        }
        lemma_aligned_filters(a0, p, b0, q);
        let n = a.len() - 1;
        assert(p(a[n]) == q(b[n]));
        assert(a[n].offset == b[n].offset);
    }
}

/// Filtering by two tests in turn is filtering by both.
proof fn lemma_filter_by_both(
    s: Seq<Score>,
    p: spec_fn(Score) -> bool,
    q: spec_fn(Score) -> bool,
    both: spec_fn(Score) -> bool,
)
    requires
        forall|x: Score| #[trigger] both(x) == (p(x) && q(x)),
    ensures
        s.filter(p).filter(q) == s.filter(both),
    decreases s.len(),
{
    reveal(Seq::filter);
    if s.len() > 0 {
        lemma_filter_by_both(s.drop_last(), p, q, both);
        let before = s.drop_last().filter(p);
        assert(both(s.last()) == (p(s.last()) && q(s.last())));
        if p(s.last()) {
            assert(before.push(s.last()).drop_last() =~= before);
        }
    }
}

/// Whether some candidate of this document exceeds the cutoff.
spec fn competitive(candidates: Seq<Score>, cutoff: Weight, x: Score) -> bool {
    exists|i: int|
        0 <= i < candidates.len() && (#[trigger] candidates[i]).offset == x.offset
            && candidates[i].score.gt(cutoff)
}

/// Dropping candidates that cannot enter the top-k set keeps the window
/// covered.
pub proof fn law_filtering_keeps_cover(
    top: TopKState,
    all: Seq<Score>,
    candidates: Seq<Score>,
    cutoff: Weight,
)
    requires
        distinct_documents(all),
        covers(top, all, candidates),
        forall|i: int, j: int|
            #![trigger candidates[i], all[j]]
            0 <= i < candidates.len() && 0 <= j < all.len() && candidates[i].offset == all[j].offset
                && !candidates[i].score.gt(cutoff) ==> !top.admits(all[j].score),
    ensures
        covers(top, all, candidates.filter(|c: Score| c.score.gt(cutoff))),
{
    let keep = choose|keep: spec_fn(Score) -> bool| #[trigger]
        covers_by(top, all, candidates, keep);
    let above = |c: Score| c.score.gt(cutoff);
    let listed = |x: Score| competitive(candidates, cutoff, x);
    let both = |x: Score| keep(x) && competitive(candidates, cutoff, x);
    let kept = all.filter(keep);
    lemma_filter_distinct(all, keep);
    assert forall|i: int| 0 <= i < candidates.len() implies above(#[trigger] candidates[i])
        == listed(#[trigger] kept[i]) by {
        assert(candidates[i].offset == kept[i].offset);
        if listed(kept[i]) {
            let j = choose|j: int|
                0 <= j < candidates.len() && (#[trigger] candidates[j]).offset == kept[i].offset
                    && candidates[j].score.gt(cutoff);
            assert(candidates[j].offset == kept[j].offset);
            if i < j {
                assert(kept[i].offset != kept[j].offset);
            } else if j < i {
                assert(kept[j].offset != kept[i].offset);
            }
        }
    }
    lemma_aligned_filters(candidates, above, kept, listed);
    lemma_filter_by_both(all, keep, listed, both);
    assert forall|i: int| 0 <= i < all.len() && !both(#[trigger] all[i]) implies !top.admits(
        all[i].score,
    ) by {
        if keep(all[i]) {
            all.lemma_filter_contains(keep, i);
            let j = choose|j: int| 0 <= j < kept.len() && kept[j] == all[i];
            assert(candidates[j].offset == kept[j].offset);
            assert(!candidates[j].score.gt(cutoff));
        }
    }
    assert(covers_by(top, all, candidates.filter(above), both));
}

/// Preparing the non-essential terms keeps the window covered: `rest` bounds
/// what they can add to a candidate, and the cutoff is at most the threshold
/// less `rest`.
pub proof fn law_pruning_keeps_cover(
    state: SearchState,
    all: Seq<Score>,
    remaining: Weight,
    cutoff: Weight,
    rest: int,
)
    requires
        distinct_documents(all),
        covers(state.top, all, state.candidates),
        crate::query::is_pruning(state, remaining) ==> !cutoff.nan() && cutoff.value()
            <= state.top.threshold.value() - rest,
        forall|i: int, j: int|
            #![trigger state.candidates[i], all[j]]
            crate::query::is_pruning(state, remaining) && 0 <= i < state.candidates.len() && 0 <= j
                < all.len() && state.candidates[i].offset == all[j].offset ==> {
                &&& !state.candidates[i].score.nan()
                &&& all[j].score.nan() || all[j].score.value() <= state.candidates[i].score.value()
                    + rest
            },
    ensures
        covers(
            state.top,
            all,
            crate::query::pruned_state(state, remaining, cutoff).candidates,
        ),
{
    if crate::query::is_pruning(state, remaining) {
        assert forall|i: int, j: int|
            #![trigger state.candidates[i], all[j]]
            0 <= i < state.candidates.len() && 0 <= j < all.len() && state.candidates[i].offset
                == all[j].offset && !state.candidates[i].score.gt(
                cutoff,
            ) implies !state.top.admits(all[j].score) by {
            law_filtered_candidates_cannot_enter(
                state.top,
                state.candidates[i].score,
                cutoff,
                rest,
                all[j].score,
            );
        }
        law_filtering_keeps_cover(state.top, all, state.candidates, cutoff);
    }
}

/// Filtering keeps documents apart.
proof fn lemma_filter_distinct(all: Seq<Score>, keep: spec_fn(Score) -> bool)
    requires
        distinct_documents(all),
    ensures
        distinct_documents(all.filter(keep)),
        forall|i: int| 0 <= i < all.filter(keep).len() ==> all.contains(#[trigger] all.filter(keep)[i]),
    decreases all.len(),
{
    reveal(Seq::filter);
    if all.len() > 0 {
        let before = all.drop_last();
        assert(forall|i: int| 0 <= i < before.len() ==> #[trigger] before[i] == all[i]);
        lemma_filter_distinct(before, keep);
        let kept = all.filter(keep);
        let n = all.len() - 1;
        assert(all.last() == all[n]);
        assert forall|i: int| 0 <= i < kept.len() implies all.contains(#[trigger] kept[i]) by {
            if i < before.filter(keep).len() {
                assert(kept[i] == before.filter(keep)[i]);
                assert(before.contains(kept[i]));
                let j = choose|j: int| 0 <= j < before.len() && before[j] == kept[i];
                assert(all[j] == kept[i]);
            } else {
                assert(kept[i] == all[n]);
            }
        }
        assert forall|i: int, j: int|
            #![trigger kept[i], kept[j]]
            0 <= i < j < kept.len() implies kept[i].offset != kept[j].offset by {
            assert(kept[i] == before.filter(keep)[i]);
            if j < before.filter(keep).len() {
                assert(kept[j] == before.filter(keep)[j]);
            } else {
                assert(kept[j] == all[n]);
                assert(before.contains(before.filter(keep)[i]));
                let m = choose|m: int| 0 <= m < before.len() && before[m] == kept[i];
                assert(all[m].offset != all[n].offset);
            }
        }
    }
}

/// Candidates that cover the window and have their complete scores leave the
/// top-k set as offering every document of the window would.
pub proof fn law_covering_candidates_decide(
    top: TopKState,
    all: Seq<Score>,
    candidates: Seq<Score>,
)
    requires
        top.wf(),
        distinct_documents(all),
        covers(top, all, candidates),
        completely_scored(all, candidates),
    ensures
        top.offered_all(candidates) == top.offered_all(all),
{
    let keep = choose|keep: spec_fn(Score) -> bool| #[trigger]
        covers_by(top, all, candidates, keep);
    let kept = all.filter(keep);
    lemma_filter_distinct(all, keep);
    assert forall|i: int| 0 <= i < candidates.len() implies candidates[i] == kept[i] by {
        assert(candidates[i].offset == kept[i].offset);
        assert(all.contains(kept[i]));
        let j = choose|j: int| 0 <= j < all.len() && all[j] == kept[i];
        assert(candidates[i].score == all[j].score);
    }
    assert(candidates =~= kept);
    crate::topk::law_pruning_changes_nothing(top, all, keep);
}

/// The top-k set after the first `n` windows were offered.
pub open spec fn after_windows(k: nat, windows: Seq<Seq<Score>>, n: nat) -> TopKState
    decreases n,
{
    if n == 0 {
        TopKState::start(k)
    } else {
        after_windows(k, windows, (n - 1) as nat).offered_all(windows[n - 1])
    }
}

/// Finishing a window counts its candidates in, whether another window follows
/// or the results are listed.
pub proof fn law_finishing_a_window_counts_it(
    k: nat,
    candidates: Seq<Seq<Score>>,
    n: nat,
    state: SearchState,
    next: Next,
)
    requires
        n < candidates.len(),
        state.top == after_windows(k, candidates, n),
        state.candidates == candidates[n as int],
        crate::query::window_finished(state, next),
    ensures
        match next {
            Next::Window(step) => step@.top == after_windows(k, candidates, n + 1),
            Next::Finished(results) => crate::topk::is_ranking(
                results@,
                after_windows(k, candidates, n + 1).items,
            ),
        },
{
}

/// Offering window by window is offering all documents in one go.
proof fn lemma_after_windows_is_flat(k: nat, windows: Seq<Seq<Score>>, n: nat)
    requires
        k > 0,
        n <= windows.len(),
    ensures
        after_windows(k, windows, n) == TopKState::start(k).offered_all(
            windows.take(n as int).flatten(),
        ),
        after_windows(k, windows, n).wf(),
    decreases n,
{
    if n == 0 {
        assert(windows.take(0).flatten() =~= Seq::<Score>::empty());
    } else {
        let m = (n - 1) as nat;
        lemma_after_windows_is_flat(k, windows, m);
        let before = windows.take(m as int);
        assert(windows.take(n as int) =~= before.push(windows[m as int]));
        before.lemma_flatten_push(windows[m as int]);
        crate::topk::lemma_offered_all_concat(
            TopKState::start(k),
            before.flatten(),
            windows[m as int],
        );
        crate::topk::lemma_offered_all_wf(after_windows(k, windows, m), windows[m as int]);
    }
}

/// A search whose candidates cover each window, given what the search had
/// found before it, ends where the exhaustive search ends.
pub proof fn law_search_is_exhaustive(
    k: nat,
    documents: Seq<Seq<Score>>,
    candidates: Seq<Seq<Score>>,
    n: nat,
)
    requires
        k > 0,
        n <= documents.len(),
        n <= candidates.len(),
        forall|w: int|
            #![trigger documents[w]]
            0 <= w < n ==> {
                &&& distinct_documents(documents[w])
                &&& covers(
                    after_windows(k, candidates, w as nat),
                    documents[w],
                    candidates[w],
                )
                &&& completely_scored(documents[w], candidates[w])
            },
    ensures
        after_windows(k, candidates, n) == after_windows(k, documents, n),
    decreases n,
{
    if n > 0 {
        let m = (n - 1) as nat;
        law_search_is_exhaustive(k, documents, candidates, m);
        lemma_after_windows_is_flat(k, candidates, m);
        law_covering_candidates_decide(
            after_windows(k, candidates, m),
            documents[m as int],
            candidates[m as int],
        );
    }
}

/// What a query returns: under the conditions of
/// [`law_search_is_exhaustive`], the results are `k` of the documents that occur
/// in any term (all of them, when there are fewer), by falling score, and no
/// other document scores higher than one of them.
pub proof fn law_query_returns_the_top_k(
    k: nat,
    documents: Seq<Seq<Score>>,
    candidates: Seq<Seq<Score>>,
    results: Seq<Score>,
)
    requires
        k > 0,
        documents.len() == candidates.len(),
        forall|w: int|
            #![trigger documents[w]]
            0 <= w < documents.len() ==> {
                &&& distinct_documents(documents[w])
                &&& covers(
                    after_windows(k, candidates, w as nat),
                    documents[w],
                    candidates[w],
                )
                &&& completely_scored(documents[w], candidates[w])
            },
        forall|i: int|
            0 <= i < documents.flatten().len() ==> !crate::topk::is_negative_nan(
                (#[trigger] documents.flatten()[i]).score,
            ),
        crate::topk::is_ranking(
            results,
            after_windows(k, candidates, candidates.len()).items,
        ),
    ensures
        results.len() == if documents.flatten().len() < k {
            documents.flatten().len()
        } else {
            k
        },
        forall|i: int|
            0 <= i < results.len() ==> documents.flatten().contains(#[trigger] results[i]),
        forall|i: int, j: int|
            #![trigger results[i], results[j]]
            0 <= i < j < results.len() ==> !results[j].score.gt(results[i].score),
        forall|d: int, i: int|
            #![trigger documents.flatten()[d], results[i]]
            0 <= d < documents.flatten().len() && 0 <= i < results.len() && !results.contains(
                documents.flatten()[d],
            ) ==> !documents.flatten()[d].score.gt(results[i].score),
{
    law_search_is_exhaustive(k, documents, candidates, documents.len());
    lemma_after_windows_is_flat(k, documents, documents.len());
    assert(documents.take(documents.len() as int) =~= documents);
    crate::topk::law_ranking_is_the_top_k(k, documents.flatten(), results);
}

/// Two queries that differ in `k` alone: when the candidates of each cover the
/// windows as [`law_search_is_exhaustive`] asks, the query for fewer documents
/// returns the front of what the query for more returns, as far as scores go,
/// and the same documents when no two documents have equal scores. (No score is
/// a NaN, as in [`crate::topk::law_fewer_results_are_the_front_of_more`].)
pub proof fn law_query_for_fewer_is_the_front_of_more(
    k1: nat,
    k2: nat,
    documents: Seq<Seq<Score>>,
    candidates1: Seq<Seq<Score>>,
    candidates2: Seq<Seq<Score>>,
    results1: Seq<Score>,
    results2: Seq<Score>,
)
    requires
        0 < k1 <= k2,
        documents.len() == candidates1.len(),
        documents.len() == candidates2.len(),
        forall|w: int|
            #![trigger documents[w]]
            0 <= w < documents.len() ==> {
                &&& distinct_documents(documents[w])
                &&& covers(
                    after_windows(k1, candidates1, w as nat),
                    documents[w],
                    candidates1[w],
                )
                &&& completely_scored(documents[w], candidates1[w])
                &&& covers(
                    after_windows(k2, candidates2, w as nat),
                    documents[w],
                    candidates2[w],
                )
                &&& completely_scored(documents[w], candidates2[w])
            },
        forall|d: int|
            0 <= d < documents.flatten().len() ==> !(
            #[trigger] documents.flatten()[d]).score.nan(),
        crate::topk::is_ranking(
            results1,
            after_windows(k1, candidates1, candidates1.len()).items,
        ),
        crate::topk::is_ranking(
            results2,
            after_windows(k2, candidates2, candidates2.len()).items,
        ),
    ensures
        results1.len() == if k1 < results2.len() {
            k1
        } else {
            results2.len()
        },
        forall|i: int|
            #![trigger results1[i]]
            #![trigger results2[i]]
            0 <= i < results1.len() ==> results1[i].score.numerically_equal(results2[i].score),
        (forall|c: int, d: int|
            #![trigger documents.flatten()[c], documents.flatten()[d]]
            0 <= c < d < documents.flatten().len()
                ==> !documents.flatten()[c].score.numerically_equal(
                documents.flatten()[d].score,
            )) ==> results1 == results2.take(results1.len() as int),
{
    let n = documents.len();
    law_search_is_exhaustive(k1, documents, candidates1, n);
    law_search_is_exhaustive(k2, documents, candidates2, n);
    lemma_after_windows_is_flat(k1, documents, n);
    lemma_after_windows_is_flat(k2, documents, n);
    assert(documents.take(n as int) =~= documents);
    crate::topk::law_fewer_results_are_the_front_of_more(
        k1,
        k2,
        documents.flatten(),
        results1,
        results2,
    );
}

/// Where the window number `i` starts, counted by moving on from the first.
pub open spec fn nth_window(max_doc_id: u32, i: nat) -> Option<u32>
    decreases i,
{
    if i == 0 {
        Some(0)
    } else {
        match nth_window(max_doc_id, (i - 1) as nat) {
            Some(start) => crate::search::following_window(start, max_doc_id),
            None => None,
        }
    }
}

/// The windows follow each other without gap or overlap, and they end after
/// the last document id.
pub proof fn law_windows_tile_the_documents(max_doc_id: u32, i: nat)
    ensures
        nth_window(max_doc_id, i) == if i * WINDOW_WIDTH <= max_doc_id {
            Some((i * WINDOW_WIDTH) as u32)
        } else {
            None
        },
    decreases i,
{
    if i > 0 {
        law_windows_tile_the_documents(max_doc_id, (i - 1) as nat);
    }
}

/// Every document id up to the last lies in exactly one window.
pub proof fn law_each_document_is_in_one_window(max_doc_id: u32, doc: u32, i: nat)
    requires
        doc <= max_doc_id,
    ensures
        (nth_window(max_doc_id, i) matches Some(start) && start <= doc
            <= crate::search::window_end(start, max_doc_id)) <==> i == (doc / WINDOW_WIDTH) as nat,
{
    law_windows_tile_the_documents(max_doc_id, i);
    law_windows_tile_the_documents(max_doc_id, (doc / WINDOW_WIDTH) as nat);
}

/// The candidates stand by rising offset, all within the window that starts at
/// `start`.
pub open spec fn lie_in_window(candidates: Seq<Score>, start: u32) -> bool {
    &&& forall|i: int|
        0 <= i < candidates.len() ==> start <= (#[trigger] candidates[i]).offset < start
            + WINDOW_WIDTH
    &&& forall|i: int, j: int|
        #![trigger candidates[i], candidates[j]]
        0 <= i < j < candidates.len() ==> candidates[i].offset < candidates[j].offset
}

/// The candidates of the first `n` windows each lie in their window.
pub open spec fn lie_in_windows(max_doc_id: u32, candidates: Seq<Seq<Score>>, n: nat) -> bool {
    forall|w: int|
        #![trigger candidates[w]]
        0 <= w < n ==> lie_in_nth_window(max_doc_id, candidates[w], w as nat)
}

/// There is a window number `i`, and the candidates lie in it.
pub open spec fn lie_in_nth_window(max_doc_id: u32, candidates: Seq<Score>, i: nat) -> bool {
    match nth_window(max_doc_id, i) {
        Some(start) => lie_in_window(candidates, start),
        None => false,
    }
}

/// What comes out of the buffer lies in the window.
pub proof fn law_drained_candidates_lie_in_window(
    bitmap: Seq<u64>,
    accum: Seq<Weight>,
    start: u32,
)
    requires
        start + WINDOW_WIDTH - 1 <= u32::MAX,
    ensures
        lie_in_window(crate::window::window_candidates(bitmap, accum, start), start),
{
    crate::window::law_candidates_are_the_marked_slots(bitmap, accum, start);
}

/// Neither new scores nor pruning move candidates out of the window or out of
/// order.
pub proof fn law_candidates_stay_in_window(
    state: SearchState,
    start: u32,
    scores: Seq<Weight>,
    remaining: Weight,
    cutoff: Weight,
)
    requires
        lie_in_window(state.candidates, start),
    ensures
        lie_in_window(crate::search::with_scores(state, scores).candidates, start),
        lie_in_window(crate::query::pruned_state(state, remaining, cutoff).candidates, start),
{
    let rescored = crate::search::with_scores(state, scores).candidates;
    assert(forall|i: int|
        0 <= i < rescored.len() ==> (#[trigger] rescored[i]).offset == state.candidates[i].offset);
    lemma_filter_stays_in_window(state.candidates, start, |c: Score| c.score.gt(cutoff));
}

pub proof fn lemma_filter_stays_in_window(
    candidates: Seq<Score>,
    start: u32,
    keep: spec_fn(Score) -> bool,
)
    requires
        lie_in_window(candidates, start),
    ensures
        lie_in_window(candidates.filter(keep), start),
        candidates.filter(keep).len() > 0 ==> candidates.filter(keep).last().offset
            <= candidates.last().offset,
        candidates.len() == 0 ==> candidates.filter(keep).len() == 0,
    decreases candidates.len(),
{
    reveal(Seq::filter);
    if candidates.len() > 0 {
        let before = candidates.drop_last();
        assert(forall|i: int| 0 <= i < before.len() ==> #[trigger] before[i] == candidates[i]);
        lemma_filter_stays_in_window(before, start, keep);
        let kept = before.filter(keep);
        let last = candidates[candidates.len() - 1];
        if kept.len() > 0 {
            assert(before.len() > 0);
            assert(before.last() == candidates[before.len() - 1]);
            assert(kept.last().offset < last.offset);
            assert forall|i: int| 0 <= i < kept.len() implies (#[trigger] kept[i]).offset
                < last.offset by {
                if i < kept.len() - 1 {
                    assert(kept[i].offset < kept[kept.len() - 1].offset);
                }
            }
        }
    }
}

/// The candidates of the first `n` windows, one after the other, stand by
/// rising offset.
pub proof fn lemma_windows_rise(max_doc_id: u32, candidates: Seq<Seq<Score>>, n: nat)
    requires
        n <= candidates.len(),
        lie_in_windows(max_doc_id, candidates, n),
    ensures
        ({
            let all = candidates.take(n as int).flatten();
            &&& forall|i: int|
                0 <= i < all.len() ==> (#[trigger] all[i]).offset < n * WINDOW_WIDTH
            &&& forall|i: int, j: int|
                #![trigger all[i], all[j]]
                0 <= i < j < all.len() ==> all[i].offset < all[j].offset
        }),
    decreases n,
{
    if n == 0 {
        assert(candidates.take(0).flatten() =~= Seq::<Score>::empty());
    } else {
        let m = (n - 1) as nat;
        lemma_windows_rise(max_doc_id, candidates, m);
        law_windows_tile_the_documents(max_doc_id, m);
        let before = candidates.take(m as int);
        let window = candidates[m as int];
        assert(candidates.take(n as int) =~= before.push(window));
        before.lemma_flatten_push(window);
        let start = nth_window(max_doc_id, m)->0;
        assert(lie_in_nth_window(max_doc_id, window, m));
        assert(start == m * WINDOW_WIDTH);
        let all = candidates.take(n as int).flatten();
        assert(all == before.flatten() + window);
        assert(forall|i: int|
            #![trigger all[i]]
            before.flatten().len() <= i < all.len() ==> all[i] == window[i
                - before.flatten().len()]);
        assert(forall|i: int|
            #![trigger all[i]]
            0 <= i < before.flatten().len() ==> all[i] == before.flatten()[i]);
    }
}

/// A query names no document twice, and no more than `k`: each window's
/// candidates stand by rising offset within the window, the windows do not
/// overlap, and the results are some of the candidates.
pub proof fn law_query_names_documents_once(
    k: nat,
    max_doc_id: u32,
    candidates: Seq<Seq<Score>>,
    results: Seq<Score>,
)
    requires
        k > 0,
        lie_in_windows(max_doc_id, candidates, candidates.len()),
        crate::topk::is_ranking(
            results,
            after_windows(k, candidates, candidates.len()).items,
        ),
    ensures
        results.len() <= k,
        distinct_documents(results),
        forall|i: int|
            0 <= i < results.len() ==> candidates.flatten().contains(#[trigger] results[i]),
{
    let n = candidates.len();
    let all = candidates.flatten();
    let offered = all.to_multiset();
    let kept = results.to_multiset();
    lemma_after_windows_is_flat(k, candidates, n);
    assert(candidates.take(n as int) =~= candidates);
    crate::topk::lemma_kept_were_offered(k, all);
    vstd::seq_lib::to_multiset_len(results);
    lemma_windows_rise(max_doc_id, candidates, n);
    assert(all.no_duplicates());
    all.lemma_multiset_has_no_duplicates();
    assert forall|x: Score| kept.contains(x) implies kept.count(x) == 1 by {
        assert(kept.count(x) <= offered.count(x));
        assert(offered.contains(x));
    }
    results.lemma_multiset_has_no_duplicates_conv();
    assert forall|i: int| 0 <= i < results.len() implies all.contains(#[trigger] results[i]) by {
        vstd::seq_lib::to_multiset_contains(results, results[i]);
        assert(kept.count(results[i]) <= offered.count(results[i]));
        vstd::seq_lib::to_multiset_contains(all, results[i]);
    }
    assert forall|i: int, j: int|
        #![trigger results[i], results[j]]
        0 <= i < j < results.len() implies results[i].offset != results[j].offset by {
        assert(all.contains(results[i]));
        assert(all.contains(results[j]));
        let a = choose|a: int| 0 <= a < all.len() && all[a] == results[i];
        let b = choose|b: int| 0 <= b < all.len() && all[b] == results[j];
        assert(results[i] != results[j]);
        if a < b {
            assert(all[a].offset < all[b].offset);
        } else if b < a {
            assert(all[b].offset < all[a].offset);
        }
    }
}

} // verus!
