//! A whole query, from what its caller hands in to what comes out.
//!
//! A query asks its caller for sums: bounds, running bounds, accumulated scores,
//! cutoffs. Here the sums are held against the exact contributions of the terms,
//! counted like [`Weight::value`]. Where scores are summed exactly, and bounds
//! and cutoffs err on the safe side if at all, the results are the best `k` of
//! all documents by the exact sum of their contributions.

use vstd::prelude::*;

use crate::query::Next;
use crate::query::Pruned;
use crate::score::Score;
use crate::search::SearchState;
use crate::search::TermState;
use crate::weight::Weight;
use crate::window::WINDOW_WIDTH;

verus! {

/// What the caller hands in for a probed term: the candidates' new scores, and
/// the budget and the cutoff for the terms that are left.
pub struct ProbeAnswer {
    pub scores: Seq<Weight>,
    pub remaining: Weight,
    pub cutoff: Weight,
}

/// What the caller hands in for a window, beyond the bounds: the running sums,
/// the drained buffer, the first budget and cutoff, and an answer for each term
/// that is probed.
pub struct WindowAnswers {
    pub prefix_sums: Seq<Weight>,
    pub bitmap: Seq<u64>,
    pub accum: Seq<Weight>,
    pub remaining: Weight,
    pub cutoff: Weight,
    pub probes: Seq<ProbeAnswer>,
}

/// The state in which a term is probed, if one is: the candidates have been held
/// against the cutoff when terms are left.
pub open spec fn prepared(
    state: SearchState,
    n: nat,
    remaining: Weight,
    cutoff: Weight,
) -> SearchState {
    if n == 0 {
        state
    } else {
        crate::query::pruned_state(state, remaining, cutoff)
    }
}

/// The candidates that are left when the non-essential terms before `n` have
/// been dealt with.
pub open spec fn surviving(
    state: SearchState,
    n: nat,
    remaining: Weight,
    cutoff: Weight,
    probes: Seq<ProbeAnswer>,
) -> Seq<Score>
    decreases n,
{
    let after = prepared(state, n, remaining, cutoff);
    match crate::query::next_probe(state.terms, n) {
        Some(t) if t < n && after.candidates.len() > 0 && probes.len() > 0 => surviving(
            crate::search::with_scores(after, probes[0].scores),
            t,
            probes[0].remaining,
            probes[0].cutoff,
            probes.skip(1),
        ),
        _ => after.candidates,
    }
}

/// The candidates that a window offers to the top-k set, when it was drained in
/// `state`.
pub open spec fn window_outcome(state: SearchState, a: WindowAnswers) -> Seq<Score> {
    if state.candidates.len() == 0 || state.essential == 0 {
        state.candidates
    } else {
        surviving(state, state.essential, a.remaining, a.cutoff, a.probes)
    }
}

/// The steps of a query follow [`surviving`]: after the terms before `n` were
/// prepared, the window ends with the surviving candidates, or a term is probed
/// and its answer leads on to the same candidates.
pub proof fn law_steps_lead_to_the_survivors(
    state: SearchState,
    n: nat,
    remaining: Weight,
    cutoff: Weight,
    probes: Seq<ProbeAnswer>,
    pruned: Pruned,
)
    requires
        crate::query::pruning_done(state, n, remaining, cutoff, pruned),
    ensures
        match pruned {
            Pruned::Next(next) => crate::query::window_finished(
                SearchState {
                    candidates: surviving(state, n, remaining, cutoff, probes),
                    ..state
                },
                next,
            ),
            Pruned::Probe(step) => probes.len() > 0 ==> surviving(
                state,
                n,
                remaining,
                cutoff,
                probes,
            ) == surviving(
                crate::search::with_scores(step@, probes[0].scores),
                step.term_index(),
                probes[0].remaining,
                probes[0].cutoff,
                probes.skip(1),
            ),
        },
{
    lemma_next_probe(state.terms, n);
}

/// The first term to probe is below `n`, and those that are passed over have a
/// bound of zero.
proof fn lemma_next_probe(terms: Seq<TermState>, n: nat)
    ensures
        match crate::query::next_probe(terms, n) {
            Some(t) => {
                &&& t < n
                &&& forall|i: int| t < i < n ==> (#[trigger] terms[i]).window_score.value() == 0
            },
            None => forall|i: int|
                0 <= i < n ==> (#[trigger] terms[i]).window_score.value() == 0,
        },
    decreases n,
{
    if n > 0 {
        lemma_next_probe(terms, (n - 1) as nat);
    }
}

/// What the terms in the slots below `n` contribute to a document.
pub open spec fn total(contribution: spec_fn(usize, u32) -> int, n: nat, doc: u32) -> int
    decreases n,
{
    if n == 0 {
        0
    } else {
        total(contribution, (n - 1) as nat, doc) + contribution((n - 1) as usize, doc)
    }
}

/// What the first `n` terms contribute to a document.
pub open spec fn sum_below(
    terms: Seq<TermState>,
    contribution: spec_fn(usize, u32) -> int,
    doc: u32,
    n: nat,
) -> int
    decreases n,
{
    if n == 0 {
        0
    } else {
        sum_below(terms, contribution, doc, (n - 1) as nat) + contribution(terms[n - 1].slot, doc)
    }
}

/// What the terms from number `m` on contribute to a document.
pub open spec fn gathered(
    terms: Seq<TermState>,
    contribution: spec_fn(usize, u32) -> int,
    doc: u32,
    m: nat,
) -> int {
    sum_below(terms, contribution, doc, terms.len()) - sum_below(terms, contribution, doc, m)
}

/// The sum of the bounds of the first `n` terms.
pub open spec fn bounds_below(terms: Seq<TermState>, n: nat) -> int
    decreases n,
{
    if n == 0 {
        0
    } else {
        bounds_below(terms, (n - 1) as nat) + terms[n - 1].window_score.value()
    }
}

/// The document lies in the window that starts at `start`.
pub open spec fn in_window(start: u32, max_doc_id: u32, doc: u32) -> bool {
    start <= doc <= crate::search::window_end(start, max_doc_id)
}

/// The terms' bounds are bounds on what they contribute within the window.
pub open spec fn bounds_hold(
    state: SearchState,
    contribution: spec_fn(usize, u32) -> int,
) -> bool {
    &&& forall|i: int|
        0 <= i < state.terms.len() ==> !(#[trigger] state.terms[i]).window_score.nan() && 0
            <= state.terms[i].window_score.value()
    &&& forall|i: int, doc: u32|
        #![trigger state.terms[i], in_window(state.window->0, state.max_doc_id, doc)]
        0 <= i < state.terms.len() && in_window(state.window->0, state.max_doc_id, doc)
            ==> contribution(state.terms[i].slot, doc) <= state.terms[i].window_score.value()
}

/// The running sums are not below the sums of the bounds.
pub open spec fn sums_hold(state: SearchState, prefix_sums: Seq<Weight>) -> bool {
    &&& prefix_sums.len() == state.terms.len()
    &&& forall|i: int|
        0 <= i < prefix_sums.len() ==> !(#[trigger] prefix_sums[i]).nan() && bounds_below(
            state.terms,
            (i + 1) as nat,
        ) <= prefix_sums[i].value()
}

/// The buffer marks the documents of the window to which an essential term
/// contributes, and has accumulated what the essential terms contribute.
pub open spec fn buffer_holds(
    state: SearchState,
    contribution: spec_fn(usize, u32) -> int,
    bitmap: Seq<u64>,
    accum: Seq<Weight>,
) -> bool {
    forall|s: int| #![trigger crate::window::slot_set(bitmap, s)]
        0 <= s < WINDOW_WIDTH ==> {
            let doc = (state.window->0 + s) as u32;
            let sum = gathered(state.terms, contribution, doc, state.essential);
            &&& crate::window::slot_set(bitmap, s) <==> in_window(state.window->0, state.max_doc_id, doc) && sum > 0
            &&& crate::window::slot_set(bitmap, s) ==> !accum[s].nan() && accum[s].value() == sum
        }
}

/// The new scores add what term `t` contributes.
pub open spec fn scores_hold(
    state: SearchState,
    contribution: spec_fn(usize, u32) -> int,
    t: nat,
    scores: Seq<Weight>,
) -> bool {
    &&& scores.len() == state.candidates.len()
    &&& forall|i: int|
        0 <= i < scores.len() ==> !(#[trigger] scores[i]).nan() && scores[i].value()
            == state.candidates[i].score.value() + contribution(
            state.terms[t as int].slot,
            state.candidates[i].offset,
        )
}

/// Every term that is probed is answered with its exact contributions, and no
/// cutoff that is used exceeds the threshold less the bounds that are left.
pub open spec fn answers_hold(
    state: SearchState,
    contribution: spec_fn(usize, u32) -> int,
    n: nat,
    remaining: Weight,
    cutoff: Weight,
    probes: Seq<ProbeAnswer>,
) -> bool
    decreases n,
{
    let after = prepared(state, n, remaining, cutoff);
    &&& crate::query::is_pruning(state, remaining) && n > 0 ==> !cutoff.nan() && cutoff.value()
        <= state.top.threshold.value() - bounds_below(state.terms, n)
    &&& match crate::query::next_probe(state.terms, n) {
        Some(t) if t < n && after.candidates.len() > 0 => {
            &&& probes.len() > 0
            &&& scores_hold(after, contribution, t, probes[0].scores)
            &&& answers_hold(
                crate::search::with_scores(after, probes[0].scores),
                contribution,
                t,
                probes[0].remaining,
                probes[0].cutoff,
                probes.skip(1),
            )
        },
        _ => true,
    }
}

/// What was handed in for a window that was drained in `state` is true of the
/// contributions.
pub open spec fn answers_are_faithful(
    state: SearchState,
    contribution: spec_fn(usize, u32) -> int,
    a: WindowAnswers,
) -> bool {
    &&& bounds_hold(state, contribution)
    &&& sums_hold(state, a.prefix_sums)
    &&& crate::search::splits(a.prefix_sums, state.top.threshold, state.essential)
    &&& buffer_holds(state, contribution, a.bitmap, a.accum)
    &&& state.candidates == crate::window::window_candidates(
        a.bitmap,
        a.accum,
        state.window->0,
    )
    &&& state.essential > 0 && state.candidates.len() > 0 ==> answers_hold(
        state,
        contribution,
        state.essential,
        a.remaining,
        a.cutoff,
        a.probes,
    )
}

/// `all` lists the documents of the window to which any of `n` terms
/// contributes, by rising offset, each with the exact sum.
pub open spec fn are_documents(
    all: Seq<Score>,
    contribution: spec_fn(usize, u32) -> int,
    n: nat,
    start: u32,
    end: u32,
) -> bool {
    &&& forall|i: int|
        0 <= i < all.len() ==> {
            let x = #[trigger] all[i];
            &&& start <= x.offset <= end
            &&& !x.score.nan()
            &&& x.score.value() == total(contribution, n, x.offset)
            &&& x.score.value() > 0
        }
    &&& forall|i: int, j: int|
        #![trigger all[i], all[j]]
        0 <= i < j < all.len() ==> all[i].offset < all[j].offset
    &&& forall|doc: u32|
        start <= doc <= end && #[trigger] total(contribution, n, doc) > 0 ==> exists|i: int|
            0 <= i < all.len() && (#[trigger] all[i]).offset == doc
}

/// No term contributes less than nothing.
pub open spec fn none_negative(contribution: spec_fn(usize, u32) -> int) -> bool {
    forall|slot: usize, doc: u32| #[trigger] contribution(slot, doc) >= 0
}

proof fn lemma_sum_agrees(
    a: Seq<TermState>,
    b: Seq<TermState>,
    contribution: spec_fn(usize, u32) -> int,
    doc: u32,
    n: nat,
)
    requires
        n <= a.len(),
        n <= b.len(),
        forall|i: int| 0 <= i < n ==> (#[trigger] a[i]).slot == (#[trigger] b[i]).slot,
    ensures
        sum_below(a, contribution, doc, n) == sum_below(b, contribution, doc, n),
    decreases n,
{
    if n > 0 {
        assert(a[n - 1].slot == b[n - 1].slot);
        lemma_sum_agrees(a, b, contribution, doc, (n - 1) as nat);
    }
}

/// Leaving one term out takes its contribution off the sum.
proof fn lemma_sum_without(
    terms: Seq<TermState>,
    contribution: spec_fn(usize, u32) -> int,
    doc: u32,
    i: int,
    n: nat,
)
    requires
        0 <= i < n <= terms.len(),
    ensures
        sum_below(terms, contribution, doc, n) == sum_below(
            terms.remove(i),
            contribution,
            doc,
            (n - 1) as nat,
        ) + contribution(terms[i].slot, doc),
    decreases n,
{
    let left = terms.remove(i);
    if i == n - 1 {
        lemma_sum_agrees(terms, left, contribution, doc, (n - 1) as nat);
    } else {
        lemma_sum_without(terms, contribution, doc, i, (n - 1) as nat);
        assert(left[n - 2] == terms[n - 1]);
    }
}

/// In whatever order the terms stand, together they contribute the total.
proof fn lemma_sum_is_total(
    terms: Seq<TermState>,
    contribution: spec_fn(usize, u32) -> int,
    doc: u32,
)
    requires
        crate::search::slots_ok(terms),
    ensures
        sum_below(terms, contribution, doc, terms.len()) == total(
            contribution,
            terms.len(),
            doc,
        ),
    decreases terms.len(),
{
    let n = terms.len();
    if n > 0 {
        let i = crate::search::lemma_every_slot_has_a_term(terms, n - 1);
        let left = terms.remove(i);
        assert(crate::search::slots_ok(left)) by {
            assert forall|j: int| 0 <= j < left.len() implies (#[trigger] left[j]).slot
                < left.len() by {
                let was = if j < i {
                    j
                } else {
                    j + 1
                };
                assert(left[j] == terms[was]);
                if was < i {
                    assert(terms[was].slot != terms[i].slot);
                } else {
                    assert(terms[i].slot != terms[was].slot);
                }
            }
        }
        lemma_sum_without(terms, contribution, doc, i, n);
        lemma_sum_is_total(left, contribution, doc);
    }
}

/// The first terms contribute no less than fewer of them do, and no more than
/// their bounds.
proof fn lemma_sum_bounds(
    state: SearchState,
    contribution: spec_fn(usize, u32) -> int,
    doc: u32,
    m: nat,
    n: nat,
)
    requires
        none_negative(contribution),
        bounds_hold(state, contribution),
        in_window(state.window->0, state.max_doc_id, doc),
        m <= n <= state.terms.len(),
    ensures
        0 <= sum_below(state.terms, contribution, doc, m) <= sum_below(
            state.terms,
            contribution,
            doc,
            n,
        ) <= bounds_below(state.terms, n),
    decreases n,
{
    if n > 0 {
        let t = state.terms[n - 1];
        assert(contribution(t.slot, doc) <= t.window_score.value());
        if m < n {
            lemma_sum_bounds(state, contribution, doc, m, (n - 1) as nat);
        } else {
            lemma_sum_bounds(state, contribution, doc, (n - 1) as nat, (n - 1) as nat);
        }
    }
}

/// Terms with a bound of zero contribute nothing.
proof fn lemma_zero_bounds(
    state: SearchState,
    contribution: spec_fn(usize, u32) -> int,
    doc: u32,
    m: nat,
    n: nat,
)
    requires
        none_negative(contribution),
        bounds_hold(state, contribution),
        in_window(state.window->0, state.max_doc_id, doc),
        m <= n <= state.terms.len(),
        forall|i: int| m <= i < n ==> (#[trigger] state.terms[i]).window_score.value() == 0,
    ensures
        sum_below(state.terms, contribution, doc, m) == sum_below(
            state.terms,
            contribution,
            doc,
            n,
        ),
    decreases n,
{
    if m < n {
        let t = state.terms[n - 1];
        assert(contribution(t.slot, doc) <= t.window_score.value());
        assert(contribution(t.slot, doc) >= 0);
        lemma_zero_bounds(state, contribution, doc, m, (n - 1) as nat);
    }
}

/// The candidates lie in the window and have what the terms from number `m` on
/// contribute.
spec fn partly_scored(
    state: SearchState,
    contribution: spec_fn(usize, u32) -> int,
    m: nat,
) -> bool {
    forall|i: int|
        0 <= i < state.candidates.len() ==> {
            let x = #[trigger] state.candidates[i];
            &&& in_window(state.window->0, state.max_doc_id, x.offset)
            &&& !x.score.nan()
            &&& x.score.value() == gathered(state.terms, contribution, x.offset, m)
        }
}

/// The list names the document.
spec fn names(a: Seq<Score>, doc: u32) -> bool {
    exists|i: int| 0 <= i < a.len() && (#[trigger] a[i]).offset == doc
}

/// Two lists by rising offset that name the same documents agree.
proof fn lemma_rising_lists_agree(a: Seq<Score>, b: Seq<Score>, n: int)
    requires
        forall|i: int, j: int|
            #![trigger a[i], a[j]]
            0 <= i < j < a.len() ==> a[i].offset < a[j].offset,
        forall|i: int, j: int|
            #![trigger b[i], b[j]]
            0 <= i < j < b.len() ==> b[i].offset < b[j].offset,
        forall|doc: u32| #[trigger] names(a, doc) == names(b, doc),
        0 <= n <= a.len(),
    ensures
        n <= b.len(),
        forall|i: int|
            #![trigger a[i]]
            #![trigger b[i]]
            0 <= i < n ==> a[i].offset == b[i].offset,
    decreases n,
{
    if n > 0 {
        let m = n - 1;
        lemma_rising_lists_agree(a, b, m);
        assert(names(a, a[m].offset));
        let j = choose|j: int| 0 <= j < b.len() && (#[trigger] b[j]).offset == a[m].offset;
        if j < m {
            assert(a[j].offset == b[j].offset);
            assert(a[j].offset < a[m].offset);
        }
        assert(m < b.len());
        assert(names(b, b[m].offset));
        assert(names(a, b[m].offset));
        let i = choose|i: int| 0 <= i < a.len() && (#[trigger] a[i]).offset == b[m].offset;
        if i < m {
            assert(a[i].offset == b[i].offset);
            assert(b[i].offset < b[m].offset);
        }
        if m < j {
            assert(b[m].offset < b[j].offset);
            if m < i {
                assert(a[m].offset < a[i].offset);
            }
        }
        assert(a[m].offset == b[m].offset);
    }
}

/// Draining gives the documents to which the essential terms contribute, with
/// what these contribute.
proof fn lemma_drained_documents(
    state: SearchState,
    contribution: spec_fn(usize, u32) -> int,
    a: WindowAnswers,
)
    requires
        state.wf(),
        state.window is Some,
        answers_are_faithful(state, contribution, a),
    ensures
        partly_scored(state, contribution, state.essential),
        crate::exactness::lie_in_window(state.candidates, state.window->0),
        forall|doc: u32| #[trigger]
            names(state.candidates, doc) == (in_window(
                state.window->0,
                state.max_doc_id,
                doc,
            ) && gathered(state.terms, contribution, doc, state.essential) > 0),
{
    let start = state.window->0;
    let c = state.candidates;
    assert(start + WINDOW_WIDTH - 1 <= u32::MAX);
    crate::window::law_candidates_are_the_marked_slots(a.bitmap, a.accum, start);
    assert forall|i: int| 0 <= i < c.len() implies {
        let x = #[trigger] c[i];
        &&& in_window(start, state.max_doc_id, x.offset)
        &&& !x.score.nan()
        &&& x.score.value() == gathered(state.terms, contribution, x.offset, state.essential)
        &&& x.score.value() > 0
    } by {
        let slot = c[i].offset - start;
        assert(crate::window::slot_set(a.bitmap, slot));
        assert((start + slot) as u32 == c[i].offset);
    }
    assert forall|doc: u32|
        in_window(start, state.max_doc_id, doc) && gathered(
            state.terms,
            contribution,
            doc,
            state.essential,
        ) > 0 implies #[trigger] names(c, doc) by {
        let slot = doc - start;
        assert((start + slot) as u32 == doc);
        assert(crate::window::slot_set(a.bitmap, slot));
        let x = crate::window::slot_candidate(a.accum, start, slot);
        assert(c.contains(x));
        let i = choose|i: int| 0 <= i < c.len() && c[i] == x;
        assert(c[i].offset == doc);
    }
}

/// The documents of the window to which the essential terms contribute.
proof fn lemma_essential_documents(
    state: SearchState,
    contribution: spec_fn(usize, u32) -> int,
    all: Seq<Score>,
    essential: spec_fn(Score) -> bool,
)
    requires
        crate::search::slots_ok(state.terms),
        state.essential <= state.terms.len(),
        none_negative(contribution),
        bounds_hold(state, contribution),
        are_documents(
            all,
            contribution,
            state.terms.len(),
            state.window->0,
            crate::search::window_end(state.window->0, state.max_doc_id),
        ),
        essential == (|x: Score|
            gathered(state.terms, contribution, x.offset, state.essential) > 0),
    ensures
        forall|doc: u32| #[trigger]
            names(all.filter(essential), doc) == (in_window(
                state.window->0,
                state.max_doc_id,
                doc,
            ) && gathered(state.terms, contribution, doc, state.essential) > 0),
{
    let kept = all.filter(essential);
    let n = state.terms.len();
    assert forall|doc: u32|
        in_window(state.window->0, state.max_doc_id, doc) && gathered(
            state.terms,
            contribution,
            doc,
            state.essential,
        ) > 0 implies #[trigger] names(kept, doc) by {
        lemma_sum_is_total(state.terms, contribution, doc);
        lemma_sum_bounds(state, contribution, doc, state.essential, n);
        assert(total(contribution, n, doc) > 0);
        let d = choose|d: int| 0 <= d < all.len() && (#[trigger] all[d]).offset == doc;
        all.lemma_filter_contains(essential, d);
        let j = choose|j: int| 0 <= j < kept.len() && kept[j] == all[d];
        assert(kept[j].offset == doc);
    }
    assert forall|doc: u32| #[trigger] names(kept, doc) implies in_window(
        state.window->0,
        state.max_doc_id,
        doc,
    ) && gathered(state.terms, contribution, doc, state.essential) > 0 by {
        let j = choose|j: int| 0 <= j < kept.len() && (#[trigger] kept[j]).offset == doc;
        all.lemma_filter_pred(essential, j);
        assert(kept.contains(kept[j]));
        all.lemma_filter_contains_rev(essential, kept[j]);
        let d = choose|d: int| 0 <= d < all.len() && all[d] == kept[j];
        assert(all[d].offset == doc);
    }
}

/// A document to which no essential term contributes cannot enter the top-k
/// set.
proof fn lemma_inessential_document(
    state: SearchState,
    contribution: spec_fn(usize, u32) -> int,
    prefix_sums: Seq<Weight>,
    x: Score,
)
    requires
        state.wf(),
        none_negative(contribution),
        bounds_hold(state, contribution),
        sums_hold(state, prefix_sums),
        crate::search::splits(prefix_sums, state.top.threshold, state.essential),
        in_window(state.window->0, state.max_doc_id, x.offset),
        x.score.value() == total(contribution, state.terms.len(), x.offset),
        x.score.value() > 0,
        gathered(state.terms, contribution, x.offset, state.essential) <= 0,
    ensures
        !state.top.admits(x.score),
{
    let e = state.essential;
    lemma_sum_is_total(state.terms, contribution, x.offset);
    lemma_sum_bounds(state, contribution, x.offset, e, state.terms.len());
    lemma_sum_bounds(state, contribution, x.offset, e, e);
    assert(e > 0);
    assert(!prefix_sums[e - 1].nan());
    if !state.top.full() {
        lemma_sum_bounds(state, contribution, x.offset, 1, 1);
        assert(!prefix_sums[0].nan());
        crate::weight::lemma_value_follows_rank(
            Weight { bits: crate::weight::LOWEST_BITS },
            Weight { bits: crate::weight::ZERO_BITS },
        );
        crate::exactness::law_all_terms_are_essential_at_first(state.top, prefix_sums, e);
    }
    crate::exactness::law_non_essential_documents_cannot_enter(
        state.top,
        prefix_sums,
        e,
        x.score,
    );
}

/// Draining gives candidates that cover the window.
proof fn lemma_drained_covers(
    state: SearchState,
    contribution: spec_fn(usize, u32) -> int,
    all: Seq<Score>,
    a: WindowAnswers,
)
    requires
        state.wf(),
        state.window is Some,
        none_negative(contribution),
        answers_are_faithful(state, contribution, a),
        are_documents(
            all,
            contribution,
            state.terms.len(),
            state.window->0,
            crate::search::window_end(state.window->0, state.max_doc_id),
        ),
    ensures
        crate::exactness::covers(state.top, all, state.candidates),
{
    let start = state.window->0;
    let c = state.candidates;
    let essential = |x: Score|
        gathered(state.terms, contribution, x.offset, state.essential) > 0;
    let kept = all.filter(essential);
    lemma_drained_documents(state, contribution, a);
    lemma_essential_documents(state, contribution, all, essential);
    crate::exactness::lemma_filter_stays_in_window(all, start, essential);
    assert(forall|doc: u32| #[trigger] names(c, doc) == names(kept, doc));
    assert(forall|doc: u32| #[trigger] names(kept, doc) == names(c, doc));
    lemma_rising_lists_agree(c, kept, c.len() as int);
    lemma_rising_lists_agree(kept, c, kept.len() as int);
    assert(crate::exactness::same_documents(c, kept));
    assert forall|i: int| 0 <= i < all.len() && !essential(#[trigger] all[i]) implies
        !state.top.admits(all[i].score) by {
        lemma_inessential_document(state, contribution, a.prefix_sums, all[i]);
    }
    crate::exactness::law_draining_covers(state.top, all, c, essential);
}

/// Candidates with everything that the terms contribute are completely scored.
proof fn lemma_everything_gathered(
    state: SearchState,
    contribution: spec_fn(usize, u32) -> int,
    all: Seq<Score>,
    start: u32,
    end: u32,
)
    requires
        crate::search::slots_ok(state.terms),
        partly_scored(state, contribution, 0),
        are_documents(all, contribution, state.terms.len(), start, end),
    ensures
        crate::exactness::completely_scored(all, state.candidates),
{
    let c = state.candidates;
    assert forall|i: int, j: int|
        #![trigger c[i], all[j]]
        0 <= i < c.len() && 0 <= j < all.len() && c[i].offset == all[j].offset implies c[i].score
        == all[j].score by {
        lemma_sum_is_total(state.terms, contribution, c[i].offset);
        crate::weight::lemma_value_follows_rank(c[i].score, all[j].score);
    }
}

/// The surviving candidates cover the window and are completely scored.
proof fn lemma_survivors(
    state: SearchState,
    contribution: spec_fn(usize, u32) -> int,
    all: Seq<Score>,
    n: nat,
    remaining: Weight,
    cutoff: Weight,
    probes: Seq<ProbeAnswer>,
)
    requires
        crate::search::slots_ok(state.terms),
        state.window is Some,
        none_negative(contribution),
        bounds_hold(state, contribution),
        are_documents(
            all,
            contribution,
            state.terms.len(),
            state.window->0,
            crate::search::window_end(state.window->0, state.max_doc_id),
        ),
        n <= state.terms.len(),
        crate::exactness::covers(state.top, all, state.candidates),
        partly_scored(state, contribution, n),
        answers_hold(state, contribution, n, remaining, cutoff, probes),
    ensures
        crate::exactness::covers(
            state.top,
            all,
            surviving(state, n, remaining, cutoff, probes),
        ),
        crate::exactness::completely_scored(
            all,
            surviving(state, n, remaining, cutoff, probes),
        ),
    decreases n,
{
    let start = state.window->0;
    let end = crate::search::window_end(start, state.max_doc_id);
    let terms = state.terms;
    let after = prepared(state, n, remaining, cutoff);
    let above = |c: Score| c.score.gt(cutoff);
    if n > 0 {
        let rest = bounds_below(terms, n);
        assert forall|i: int, j: int|
            #![trigger state.candidates[i], all[j]]
            crate::query::is_pruning(state, remaining) && 0 <= i < state.candidates.len() && 0 <= j
                < all.len() && state.candidates[i].offset == all[j].offset implies {
            &&& !state.candidates[i].score.nan()
            &&& all[j].score.nan() || all[j].score.value() <= state.candidates[i].score.value()
                + rest
        } by {
            let doc = state.candidates[i].offset;
            lemma_sum_is_total(terms, contribution, doc);
            lemma_sum_bounds(state, contribution, doc, n, n);
        }
        crate::exactness::law_pruning_keeps_cover(state, all, remaining, cutoff, rest);
        assert(partly_scored(after, contribution, n)) by {
            assert forall|i: int| 0 <= i < after.candidates.len() implies {
                let x = #[trigger] after.candidates[i];
                &&& in_window(after.window->0, after.max_doc_id, x.offset)
                &&& !x.score.nan()
                &&& x.score.value() == gathered(after.terms, contribution, x.offset, n)
            } by {
                if crate::query::is_pruning(state, remaining) {
                    assert(state.candidates.filter(above).contains(after.candidates[i]));
                    state.candidates.lemma_filter_contains_rev(above, after.candidates[i]);
                    let j = choose|j: int|
                        0 <= j < state.candidates.len() && state.candidates[j]
                            == after.candidates[i];
                    assert(in_window(state.window->0, state.max_doc_id, state.candidates[j].offset));
                }
            }
        }
    }
    assert(partly_scored(after, contribution, n));
    lemma_next_probe(terms, n);
    match crate::query::next_probe(terms, n) {
        Some(t) => {
            if after.candidates.len() > 0 {
                let scores = probes[0].scores;
                let then = crate::search::with_scores(after, scores);
                assert(partly_scored(then, contribution, t)) by {
                    assert forall|i: int| 0 <= i < then.candidates.len() implies {
                        let x = #[trigger] then.candidates[i];
                        &&& in_window(then.window->0, then.max_doc_id, x.offset)
                        &&& !x.score.nan()
                        &&& x.score.value() == gathered(then.terms, contribution, x.offset, t)
                    } by {
                        let doc = after.candidates[i].offset;
                        assert(in_window(after.window->0, after.max_doc_id, doc));
                        assert(!scores[i].nan());
                        lemma_zero_bounds(after, contribution, doc, t + 1, n);
                    }
                }
                crate::exactness::law_rescoring_keeps_cover(state.top, all, after, scores);
                lemma_survivors(
                    then,
                    contribution,
                    all,
                    t,
                    probes[0].remaining,
                    probes[0].cutoff,
                    probes.skip(1),
                );
            }
        },
        None => {
            assert(partly_scored(after, contribution, 0)) by {
                assert forall|i: int| 0 <= i < after.candidates.len() implies {
                    let x = #[trigger] after.candidates[i];
                    &&& in_window(after.window->0, after.max_doc_id, x.offset)
                    &&& !x.score.nan()
                    &&& x.score.value() == gathered(after.terms, contribution, x.offset, 0)
                } by {
                    let doc = after.candidates[i].offset;
                    assert(in_window(after.window->0, after.max_doc_id, doc));
                    lemma_zero_bounds(after, contribution, doc, 0, n);
                }
            }
            lemma_everything_gathered(after, contribution, all, start, end);
        },
    }
}

/// A window whose answers are faithful decides as exhaustive scoring does: what
/// it offers covers the window and is completely scored, so it leaves the top-k
/// set as offering every document of the window would.
pub proof fn law_faithful_window_is_exhaustive(
    state: SearchState,
    contribution: spec_fn(usize, u32) -> int,
    all: Seq<Score>,
    a: WindowAnswers,
)
    requires
        state.wf(),
        state.window is Some,
        none_negative(contribution),
        answers_are_faithful(state, contribution, a),
        are_documents(
            all,
            contribution,
            state.terms.len(),
            state.window->0,
            crate::search::window_end(state.window->0, state.max_doc_id),
        ),
    ensures
        crate::exactness::distinct_documents(all),
        crate::exactness::covers(state.top, all, window_outcome(state, a)),
        crate::exactness::completely_scored(all, window_outcome(state, a)),
        state.top.offered_all(window_outcome(state, a)) == state.top.offered_all(all),
{
    let start = state.window->0;
    let end = crate::search::window_end(start, state.max_doc_id);
    lemma_drained_documents(state, contribution, a);
    lemma_drained_covers(state, contribution, all, a);
    if state.essential == 0 {
        lemma_everything_gathered(state, contribution, all, start, end);
    } else if state.candidates.len() > 0 {
        lemma_survivors(
            state,
            contribution,
            all,
            state.essential,
            a.remaining,
            a.cutoff,
            a.probes,
        );
    }
    crate::exactness::law_covering_candidates_decide(state.top, all, window_outcome(state, a));
}

/// What the windows of a run offer, one after the other.
pub open spec fn outcomes(
    states: Seq<SearchState>,
    answers: Seq<WindowAnswers>,
) -> Seq<Seq<Score>> {
    Seq::new(states.len(), |w: int| window_outcome(states[w], answers[w]))
}

/// A run of a query for `k` documents over `n` terms, from the first window to
/// the last. `states[w]` is the state in which window `w` was drained: the top-k
/// set has been offered what the windows before it offer. What was handed in is
/// true of the contributions.
pub open spec fn is_faithful_run(
    k: nat,
    n: nat,
    contribution: spec_fn(usize, u32) -> int,
    max_doc_id: u32,
    states: Seq<SearchState>,
    answers: Seq<WindowAnswers>,
) -> bool {
    &&& states.len() == answers.len()
    &&& forall|w: int|
        #![trigger states[w]]
        0 <= w < states.len() ==> {
            &&& states[w].wf()
            &&& states[w].window is Some
            &&& states[w].window == crate::exactness::nth_window(max_doc_id, w as nat)
            &&& states[w].max_doc_id == max_doc_id
            &&& states[w].terms.len() == n
            &&& states[w].top == crate::exactness::after_windows(
                k,
                outcomes(states, answers),
                w as nat,
            )
            &&& answers_are_faithful(states[w], contribution, answers[w])
        }
}

/// The steps of a query carry a run on: when window `w` ends with what it has to
/// offer, the next window opens with that counted in, or there is none and the
/// results are listed.
pub proof fn law_steps_carry_the_run_on(
    k: nat,
    states: Seq<SearchState>,
    answers: Seq<WindowAnswers>,
    w: nat,
    next: Next,
)
    requires
        w < states.len(),
        states[w as int].window is Some,
        states[w as int].window == crate::exactness::nth_window(states[w as int].max_doc_id, w),
        states[w as int].top == crate::exactness::after_windows(k, outcomes(states, answers), w),
        crate::query::window_finished(
            SearchState {
                candidates: window_outcome(states[w as int], answers[w as int]),
                ..states[w as int]
            },
            next,
        ),
    ensures
        ({
            let following = crate::exactness::nth_window(states[w as int].max_doc_id, w + 1);
            let top = crate::exactness::after_windows(k, outcomes(states, answers), w + 1);
            match next {
                Next::Window(step) => {
                    &&& step.wf()
                    &&& following is Some
                    &&& step@.window == following
                    &&& step@.top == top
                    &&& step@.terms == states[w as int].terms
                    &&& step@.max_doc_id == states[w as int].max_doc_id
                },
                Next::Finished(results) => {
                    &&& following is None
                    &&& crate::topk::is_ranking(results@, top.items)
                },
            }
        }),
{
    assert(outcomes(states, answers)[w as int] == window_outcome(
        states[w as int],
        answers[w as int],
    ));
}

/// `documents` has a list for each window: the documents to which any of `n`
/// terms contributes, each with the exact sum.
pub open spec fn are_all_documents(
    documents: Seq<Seq<Score>>,
    contribution: spec_fn(usize, u32) -> int,
    n: nat,
    max_doc_id: u32,
) -> bool {
    &&& forall|w: int|
        #![trigger documents[w]]
        0 <= w < documents.len() ==> are_nth_documents(
            documents[w],
            contribution,
            n,
            max_doc_id,
            w as nat,
        )
    &&& crate::exactness::nth_window(max_doc_id, documents.len()) is None
}

/// There is a window number `i`, and `all` lists its documents.
pub open spec fn are_nth_documents(
    all: Seq<Score>,
    contribution: spec_fn(usize, u32) -> int,
    n: nat,
    max_doc_id: u32,
    i: nat,
) -> bool {
    match crate::exactness::nth_window(max_doc_id, i) {
        Some(start) => are_documents(
            all,
            contribution,
            n,
            start,
            crate::search::window_end(start, max_doc_id),
        ),
        None => false,
    }
}

/// What is in one of the first `n` lists is in all of them put together.
proof fn lemma_flatten_holds(documents: Seq<Seq<Score>>, n: nat, w: int, j: int)
    requires
        0 <= w < n <= documents.len(),
        0 <= j < documents[w].len(),
    ensures
        documents.take(n as int).flatten().contains(documents[w][j]),
    decreases n,
{
    let m = (n - 1) as nat;
    let before = documents.take(m as int);
    let last = documents[m as int];
    assert(documents.take(n as int) =~= before.push(last));
    before.lemma_flatten_push(last);
    let all = before.flatten() + last;
    if w == m {
        assert(all[before.flatten().len() + j] == documents[w][j]);
    } else {
        lemma_flatten_holds(documents, m, w, j);
        let i = choose|i: int|
            0 <= i < before.flatten().len() && before.flatten()[i] == documents[w][j];
        assert(all[i] == documents[w][j]);
    }
}

/// What is in the first `n` lists put together is a document with its sum.
proof fn lemma_flatten_scores(
    documents: Seq<Seq<Score>>,
    contribution: spec_fn(usize, u32) -> int,
    terms: nat,
    max_doc_id: u32,
    n: nat,
    i: int,
)
    requires
        are_all_documents(documents, contribution, terms, max_doc_id),
        n <= documents.len(),
        0 <= i < documents.take(n as int).flatten().len(),
    ensures
        ({
            let x = documents.take(n as int).flatten()[i];
            &&& x.offset <= max_doc_id
            &&& !x.score.nan()
            &&& x.score.value() == total(contribution, terms, x.offset)
            &&& x.score.value() > 0
        }),
    decreases n,
{
    if n == 0 {
        assert(documents.take(0).flatten() =~= Seq::<Score>::empty());
    } else {
        let m = (n - 1) as nat;
        let before = documents.take(m as int);
        let last = documents[m as int];
        assert(documents.take(n as int) =~= before.push(last));
        before.lemma_flatten_push(last);
        let all = before.flatten() + last;
        if i < before.flatten().len() {
            lemma_flatten_scores(documents, contribution, terms, max_doc_id, m, i);
            assert(all[i] == before.flatten()[i]);
        } else {
            let j = i - before.flatten().len();
            assert(all[i] == last[j]);
            assert(are_nth_documents(last, contribution, terms, max_doc_id, m));
            assert(last[j].offset <= max_doc_id);
        }
    }
}

/// Every document to which a term contributes is listed.
proof fn lemma_document_is_listed(
    documents: Seq<Seq<Score>>,
    contribution: spec_fn(usize, u32) -> int,
    terms: nat,
    max_doc_id: u32,
    doc: u32,
)
    requires
        are_all_documents(documents, contribution, terms, max_doc_id),
        doc <= max_doc_id,
        total(contribution, terms, doc) > 0,
    ensures
        names(documents.flatten(), doc),
{
    let w = (doc / WINDOW_WIDTH) as nat;
    let all = documents.flatten();
    crate::exactness::law_each_document_is_in_one_window(max_doc_id, doc, w);
    crate::exactness::law_windows_tile_the_documents(max_doc_id, documents.len());
    assert(w < documents.len());
    let listed = documents[w as int];
    assert(are_nth_documents(listed, contribution, terms, max_doc_id, w));
    let j = choose|j: int| 0 <= j < listed.len() && (#[trigger] listed[j]).offset == doc;
    lemma_flatten_holds(documents, documents.len(), w as int, j);
    assert(documents.take(documents.len() as int) =~= documents);
    let i = choose|i: int| 0 <= i < all.len() && all[i] == listed[j];
    assert(all[i].offset == doc);
}

/// The documents of all windows stand by rising offset.
proof fn lemma_documents_rise(
    documents: Seq<Seq<Score>>,
    contribution: spec_fn(usize, u32) -> int,
    terms: nat,
    max_doc_id: u32,
)
    requires
        are_all_documents(documents, contribution, terms, max_doc_id),
    ensures
        crate::exactness::lie_in_windows(max_doc_id, documents, documents.len()),
        forall|i: int, j: int|
            #![trigger documents.flatten()[i], documents.flatten()[j]]
            0 <= i < j < documents.flatten().len() ==> documents.flatten()[i].offset
                < documents.flatten()[j].offset,
{
    assert forall|w: int| #![trigger documents[w]] 0 <= w < documents.len() implies
        crate::exactness::lie_in_nth_window(max_doc_id, documents[w], w as nat) by {
        assert(are_nth_documents(documents[w], contribution, terms, max_doc_id, w as nat));
    }
    crate::exactness::lemma_windows_rise(max_doc_id, documents, documents.len());
    assert(documents.take(documents.len() as int) =~= documents);
}

/// The windows of a faithful run cover their documents with complete scores.
proof fn lemma_run_covers(
    k: nat,
    n: nat,
    contribution: spec_fn(usize, u32) -> int,
    max_doc_id: u32,
    documents: Seq<Seq<Score>>,
    states: Seq<SearchState>,
    answers: Seq<WindowAnswers>,
    w: int,
)
    requires
        none_negative(contribution),
        is_faithful_run(k, n, contribution, max_doc_id, states, answers),
        are_all_documents(documents, contribution, n, max_doc_id),
        documents.len() == states.len(),
        0 <= w < documents.len(),
    ensures
        crate::exactness::distinct_documents(documents[w]),
        crate::exactness::covers(
            crate::exactness::after_windows(k, outcomes(states, answers), w as nat),
            documents[w],
            outcomes(states, answers)[w],
        ),
        crate::exactness::completely_scored(documents[w], outcomes(states, answers)[w]),
{
    assert(are_nth_documents(documents[w], contribution, n, max_doc_id, w as nat));
    law_faithful_window_is_exhaustive(states[w], contribution, documents[w], answers[w]);
}

/// A faithful run returns the best `k`. The results are as many as were asked
/// for, or as there are documents to which a term contributes; no document is
/// named twice; each has the exact sum of its contributions; they stand by
/// falling sum; and no document that is left out has a greater sum than one that
/// is named.
pub proof fn law_faithful_run_returns_the_top_k(
    k: nat,
    n: nat,
    contribution: spec_fn(usize, u32) -> int,
    max_doc_id: u32,
    documents: Seq<Seq<Score>>,
    states: Seq<SearchState>,
    answers: Seq<WindowAnswers>,
    results: Seq<Score>,
)
    requires
        k > 0,
        none_negative(contribution),
        is_faithful_run(k, n, contribution, max_doc_id, states, answers),
        are_all_documents(documents, contribution, n, max_doc_id),
        documents.len() == states.len(),
        crate::topk::is_ranking(
            results,
            crate::exactness::after_windows(k, outcomes(states, answers), states.len()).items,
        ),
    ensures
        results.len() == if documents.flatten().len() < k {
            documents.flatten().len()
        } else {
            k
        },
        crate::exactness::distinct_documents(results),
        forall|i: int|
            0 <= i < results.len() ==> {
                let x = #[trigger] results[i];
                &&& x.offset <= max_doc_id
                &&& !x.score.nan()
                &&& x.score.value() == total(contribution, n, x.offset)
                &&& x.score.value() > 0
            },
        forall|i: int, j: int|
            #![trigger results[i], results[j]]
            0 <= i < j < results.len() ==> results[i].score.value() >= results[j].score.value(),
        forall|doc: u32, i: int|
            #![trigger total(contribution, n, doc), results[i]]
            doc <= max_doc_id && total(contribution, n, doc) > 0 && 0 <= i < results.len() && (
            forall|j: int| 0 <= j < results.len() ==> (#[trigger] results[j]).offset != doc)
                ==> total(contribution, n, doc) <= results[i].score.value(),
{
    let offered = outcomes(states, answers);
    let all = documents.flatten();
    let count = documents.len();
    assert(documents.take(count as int) =~= documents);
    assert forall|w: int|
        #![trigger documents[w]]
        0 <= w < count implies {
        &&& crate::exactness::distinct_documents(documents[w])
        &&& crate::exactness::covers(
            crate::exactness::after_windows(k, offered, w as nat),
            documents[w],
            offered[w],
        )
        &&& crate::exactness::completely_scored(documents[w], offered[w])
    } by {
        lemma_run_covers(k, n, contribution, max_doc_id, documents, states, answers, w);
    }
    assert forall|i: int| 0 <= i < all.len() implies {
        let x = #[trigger] all[i];
        &&& x.offset <= max_doc_id
        &&& !x.score.nan()
        &&& x.score.value() == total(contribution, n, x.offset)
        &&& x.score.value() > 0
    } by {
        lemma_flatten_scores(documents, contribution, n, max_doc_id, count, i);
    }
    crate::exactness::law_query_returns_the_top_k(k, documents, offered, results);
    lemma_documents_rise(documents, contribution, n, max_doc_id);
    crate::exactness::law_search_is_exhaustive(k, documents, offered, count);
    crate::exactness::law_query_names_documents_once(k, max_doc_id, documents, results);
    assert forall|i: int| 0 <= i < results.len() implies {
        let x = #[trigger] results[i];
        &&& x.offset <= max_doc_id
        &&& !x.score.nan()
        &&& x.score.value() == total(contribution, n, x.offset)
        &&& x.score.value() > 0
    } by {
        assert(all.contains(results[i]));
        let d = choose|d: int| 0 <= d < all.len() && all[d] == results[i];
        assert(all[d].offset <= max_doc_id);
    }
    assert forall|doc: u32, i: int|
        #![trigger total(contribution, n, doc), results[i]]
        doc <= max_doc_id && total(contribution, n, doc) > 0 && 0 <= i < results.len() && (
        forall|j: int| 0 <= j < results.len() ==> (#[trigger] results[j]).offset
            != doc) implies total(contribution, n, doc) <= results[i].score.value() by {
        lemma_document_is_listed(documents, contribution, n, max_doc_id, doc);
        let d = choose|d: int| 0 <= d < all.len() && (#[trigger] all[d]).offset == doc;
        assert(!results.contains(all[d])) by {
            if results.contains(all[d]) {
                let j = choose|j: int| 0 <= j < results.len() && results[j] == all[d];
                assert(results[j].offset != doc);
            }
        }
        assert(!all[d].score.gt(results[i].score));
    }
}

/// Two faithful runs that differ in `k`: the run for fewer documents returns as
/// many as the other or as were asked for, with the same scores place by place,
/// and the same documents when no two documents have equal sums.
pub proof fn law_faithful_run_for_fewer_is_the_front_of_more(
    k1: nat,
    k2: nat,
    n: nat,
    contribution: spec_fn(usize, u32) -> int,
    max_doc_id: u32,
    documents: Seq<Seq<Score>>,
    states1: Seq<SearchState>,
    answers1: Seq<WindowAnswers>,
    results1: Seq<Score>,
    states2: Seq<SearchState>,
    answers2: Seq<WindowAnswers>,
    results2: Seq<Score>,
)
    requires
        0 < k1 <= k2,
        none_negative(contribution),
        are_all_documents(documents, contribution, n, max_doc_id),
        is_faithful_run(k1, n, contribution, max_doc_id, states1, answers1),
        is_faithful_run(k2, n, contribution, max_doc_id, states2, answers2),
        documents.len() == states1.len(),
        documents.len() == states2.len(),
        crate::topk::is_ranking(
            results1,
            crate::exactness::after_windows(
                k1,
                outcomes(states1, answers1),
                states1.len(),
            ).items,
        ),
        crate::topk::is_ranking(
            results2,
            crate::exactness::after_windows(
                k2,
                outcomes(states2, answers2),
                states2.len(),
            ).items,
        ),
    ensures
        results1.len() == if k1 < results2.len() {
            k1
        } else {
            results2.len()
        },
        forall|i: int|
            #![trigger results1[i]]
            #![trigger results2[i]]
            0 <= i < results1.len() ==> results1[i].score == results2[i].score,
        (forall|a: u32, b: u32|
            #![trigger total(contribution, n, a), total(contribution, n, b)]
            a < b <= max_doc_id && total(contribution, n, a) > 0 ==> total(contribution, n, a)
                != total(contribution, n, b)) ==> results1 == results2.take(
            results1.len() as int,
        ),
{
    let offered1 = outcomes(states1, answers1);
    let offered2 = outcomes(states2, answers2);
    let all = documents.flatten();
    let count = documents.len();
    assert(documents.take(count as int) =~= documents);
    assert forall|w: int|
        #![trigger documents[w]]
        0 <= w < count implies {
        &&& crate::exactness::distinct_documents(documents[w])
        &&& crate::exactness::covers(
            crate::exactness::after_windows(k1, offered1, w as nat),
            documents[w],
            offered1[w],
        )
        &&& crate::exactness::completely_scored(documents[w], offered1[w])
        &&& crate::exactness::covers(
            crate::exactness::after_windows(k2, offered2, w as nat),
            documents[w],
            offered2[w],
        )
        &&& crate::exactness::completely_scored(documents[w], offered2[w])
    } by {
        lemma_run_covers(k1, n, contribution, max_doc_id, documents, states1, answers1, w);
        lemma_run_covers(k2, n, contribution, max_doc_id, documents, states2, answers2, w);
    }
    assert forall|i: int| 0 <= i < all.len() implies {
        let x = #[trigger] all[i];
        &&& x.offset <= max_doc_id
        &&& !x.score.nan()
        &&& x.score.value() == total(contribution, n, x.offset)
        &&& x.score.value() > 0
    } by {
        lemma_flatten_scores(documents, contribution, n, max_doc_id, count, i);
    }
    crate::exactness::law_query_for_fewer_is_the_front_of_more(
        k1,
        k2,
        documents,
        offered1,
        offered2,
        results1,
        results2,
    );
    law_faithful_run_returns_the_top_k(
        k1,
        n,
        contribution,
        max_doc_id,
        documents,
        states1,
        answers1,
        results1,
    );
    assert forall|i: int|
        #![trigger results1[i]]
        #![trigger results2[i]]
        0 <= i < results1.len() implies results1[i].score == results2[i].score by {
        assert(results1[i].score.numerically_equal(results2[i].score));
        assert(results1[i].score.value() > 0);
        crate::weight::lemma_value_follows_rank(results1[i].score, results2[i].score);
    }
    if forall|a: u32, b: u32|
        #![trigger total(contribution, n, a), total(contribution, n, b)]
        a < b <= max_doc_id && total(contribution, n, a) > 0 ==> total(contribution, n, a)
            != total(contribution, n, b) {
        lemma_documents_rise(documents, contribution, n, max_doc_id);
        assert forall|c: int, d: int|
            #![trigger all[c], all[d]]
            0 <= c < d < all.len() implies !all[c].score.numerically_equal(all[d].score) by {
            assert(all[c].offset < all[d].offset <= max_doc_id);
            assert(all[c].score.value() == total(contribution, n, all[c].offset));
            assert(all[d].score.value() == total(contribution, n, all[d].offset));
        }
    }
}

} // verus!
