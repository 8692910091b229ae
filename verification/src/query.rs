//! The order in which a query alternates between deciding and fetching.
//!
//! Each type stands for a point at which the query waits for its caller: for
//! bounds, for sums, for a drained buffer, for block states, for a budget, for
//! new scores. The answer takes the query to the next such point, so the steps
//! cannot be taken out of order.

use vstd::prelude::*;

use crate::score::Score;
use crate::search::CursorBlocks;
use crate::search::NonEssentialStep;
use crate::search::Search;
use crate::search::SearchState;
use crate::search::TermState;
use crate::weight::Weight;
use crate::window::WindowBuffer;

verus! {

/// Waits for the terms' bounds on a window.
#[derive(Debug)]
pub struct BoundStep {
    search: Search,
}

/// Waits for the running sums of the terms' bounds.
#[derive(Debug)]
pub struct SumStep {
    search: Search,
}

/// Waits for the essential cursors to be drained into the buffer.
#[derive(Debug)]
pub struct DrainStep {
    search: Search,
}

/// Waits for the states of the cursors' blocks.
#[derive(Debug)]
pub struct InspectStep {
    search: Search,
}

/// Waits for the budget of the non-essential terms.
#[derive(Debug)]
pub struct BudgetStep {
    search: Search,
}

/// Waits for the candidates' scores with the contribution of one more term.
#[derive(Debug)]
pub struct ProbeStep {
    search: Search,
    term: usize,
}

/// What follows a window.
#[derive(Debug)]
pub enum Next {
    /// Another window.
    Window(BoundStep),
    /// The documents found, best first.
    Finished(Vec<Score>),
}

/// What follows draining.
#[derive(Debug)]
pub enum Drained {
    /// Some terms are non-essential for the first time.
    Inspect(InspectStep),
    /// Some terms are non-essential.
    Budget(BudgetStep),
    /// The window is done.
    Next(Next),
}

/// What follows the preparation of a non-essential term.
#[derive(Debug)]
pub enum Pruned {
    /// A term's contribution is wanted.
    Probe(ProbeStep),
    /// The window is done.
    Next(Next),
}

/// `next` follows a window that ends in `state`: its candidates have been
/// offered, and the next window is opened or the results are listed.
pub open spec fn window_finished(state: SearchState, next: Next) -> bool {
    let top = state.top.offered_all(state.candidates);
    match crate::search::following_window(state.window->0, state.max_doc_id) {
        Some(start) => {
            &&& next matches Next::Window(step)
            &&& step.wf()
            &&& step@ == (SearchState { top, window: Some(start), ..state })
        },
        None => {
            &&& next matches Next::Finished(results)
            &&& crate::topk::is_ranking(results@, top.items)
        },
    }
}

/// Whether candidates are held against a cutoff: the top-k set is full, and the
/// non-essential terms may add something.
pub open spec fn is_pruning(state: SearchState, remaining: Weight) -> bool {
    state.top.full() && remaining.gt(Weight { bits: crate::weight::ZERO_BITS })
}

/// The state after the candidates were held against a cutoff, if they are.
pub open spec fn pruned_state(state: SearchState, remaining: Weight, cutoff: Weight) -> SearchState {
    if is_pruning(state, remaining) {
        SearchState {
            candidates: state.candidates.filter(|c: Score| c.score.gt(cutoff)),
            ..state
        }
    } else {
        state
    }
}

/// The terms before `n` are to be looked at, the last first: the first of them
/// with a bound other than zero, if there is one.
pub open spec fn next_probe(terms: Seq<TermState>, n: nat) -> Option<nat>
    decreases n,
{
    if n == 0 {
        None
    } else if terms[n - 1].window_score.numerically_equal(
        Weight { bits: crate::weight::ZERO_BITS },
    ) {
        next_probe(terms, (n - 1) as nat)
    } else {
        Some((n - 1) as nat)
    }
}

/// `pruned` follows the preparation of the non-essential terms before `n`.
/// When there are any, the candidates are held against the cutoff; a term is
/// probed if candidates and a term with a bound other than zero are left.
pub open spec fn pruning_done(
    state: SearchState,
    n: nat,
    remaining: Weight,
    cutoff: Weight,
    pruned: Pruned,
) -> bool {
    let after = if n == 0 {
        state
    } else {
        pruned_state(state, remaining, cutoff)
    };
    match next_probe(state.terms, n) {
        Some(term) if after.candidates.len() > 0 => {
            &&& pruned matches Pruned::Probe(step)
            &&& step.wf()
            &&& step@ == after
            &&& step.term_index() == term
        },
        _ => {
            &&& pruned matches Pruned::Next(next)
            &&& window_finished(after, next)
        },
    }
}

/// Offers the window's candidates and goes on.
fn finish_window(search: Search) -> (next: Next)
    requires
        search.wf(),
        search@.window is Some,
    ensures
        window_finished(search@, next),
{
    let mut search: Search = search;
    search.finish_window();
    match search.window() {
        Some(_) => Next::Window(BoundStep { search }),
        None => Next::Finished(search.into_results()),
    }
}

/// Filtering twice with one cutoff is filtering once.
proof fn lemma_filter_twice(s: Seq<Score>, keep: spec_fn(Score) -> bool)
    ensures
        s.filter(keep).filter(keep) == s.filter(keep),
    decreases s.len(),
{
    reveal(Seq::filter);
    if s.len() > 0 {
        lemma_filter_twice(s.drop_last(), keep);
        let before = s.drop_last().filter(keep);
        if keep(s.last()) {
            assert(before.push(s.last()).drop_last() =~= before);
        }
    }
}

/// Prepares the non-essential terms before `n`, the last first, until one has
/// to be probed or nothing is left to do in the window.
fn prune(from: Search, n: usize, remaining: Weight, cutoff: Weight) -> (pruned: Pruned)
    requires
        from.wf(),
        from@.window is Some,
        n <= from@.essential,
    ensures
        pruning_done(from@, n as nat, remaining, cutoff, pruned),
{
    let ghost start = from@;
    let mut search: Search = from;
    let mut i: usize = n;
    while i > 0
        invariant
            start == from@,
            search.wf(),
            search@.window is Some,
            i <= n <= search@.essential,
            search@ == if i == n {
                start
            } else {
                pruned_state(start, remaining, cutoff)
            },
            next_probe(start.terms, n as nat) == next_probe(start.terms, i as nat),
        decreases i,
    {
        let ghost before = search@;
        let step: NonEssentialStep = search.consider(i - 1, remaining, cutoff);
        proof {
            lemma_filter_twice(start.candidates, |c: Score| c.score.gt(cutoff));
            assert(search@ == pruned_state(before, remaining, cutoff));
            assert(search@ == pruned_state(start, remaining, cutoff));
        }
        match step {
            NonEssentialStep::Stop => {
                return Pruned::Next(finish_window(search));
            },
            NonEssentialStep::Skip => {},
            NonEssentialStep::Probe(_) => {
                return Pruned::Probe(ProbeStep { search, term: i - 1 });
            },
        }
        i = i - 1;
    }
    Pruned::Next(finish_window(search))
}

impl BoundStep {
    pub closed spec fn view(&self) -> SearchState {
        self.search@
    }

    pub closed spec fn wf(&self) -> bool {
        self.search.wf() && self.search@.window is Some
    }

    /// Opens the first window of a new search.
    pub fn new(search: Search) -> (step: BoundStep)
        requires
            search.wf(),
            search@.window is Some,
        ensures
            step.wf(),
            step@ == search@,
    {
        BoundStep { search }
    }

    /// The first and the last document of the window.
    pub fn window(&self) -> (w: (u32, u32))
        requires
            self.wf(),
        ensures
            self@.window == Some(w.0),
            w.1 == crate::search::window_end(w.0, self@.max_doc_id),
    {
        match self.search.window() {
            Some(w) => w,
            None => (0, 0),
        }
    }

    /// Takes the terms' bounds on the window, in cursor order.
    pub fn bounded(self, window_scores: &Vec<Weight>) -> (step: SumStep)
        requires
            self.wf(),
            window_scores.len() == self@.terms.len(),
        ensures
            step.wf(),
            crate::search::is_reordering(
                crate::search::rebounded(self@.terms, window_scores@),
                step@.terms,
            ),
            step@ == (SearchState { terms: step@.terms, ..self@ }),
    {
        let mut search: Search = self.search;
        search.bound_terms(window_scores);
        SumStep { search }
    }
}

impl SumStep {
    pub closed spec fn view(&self) -> SearchState {
        self.search@
    }

    pub closed spec fn wf(&self) -> bool {
        self.search.wf() && self.search@.window is Some
    }

    /// The terms, by rising bound.
    pub fn terms(&self) -> (terms: &Vec<TermState>)
        ensures
            terms@ == self@.terms,
    {
        self.search.terms()
    }

    /// Takes the running sums of the terms' bounds, in term order.
    pub fn summed(self, prefix_sums: &Vec<Weight>) -> (step: DrainStep)
        requires
            self.wf(),
            prefix_sums.len() == self@.terms.len(),
        ensures
            step.wf(),
            crate::search::splits(prefix_sums@, self@.top.threshold, step@.essential),
            step@ == (SearchState { essential: step@.essential, ..self@ }),
    {
        let mut search: Search = self.search;
        search.split_terms(prefix_sums);
        DrainStep { search }
    }
}

impl DrainStep {
    pub closed spec fn view(&self) -> SearchState {
        self.search@
    }

    pub closed spec fn wf(&self) -> bool {
        self.search.wf() && self.search@.window is Some
    }

    /// The cursors to drain, in this order.
    pub fn slots(&self) -> (slots: Vec<usize>)
        requires
            self.wf(),
        ensures
            slots@ == self@.terms.skip(self@.essential as int).map_values(|t: TermState| t.slot),
    {
        proof {
            self.search.lemma_wf();
        }
        let terms: &Vec<TermState> = self.search.terms();
        let mut slots: Vec<usize> = Vec::new();
        let mut i: usize = self.search.essential();
        let ghost drained = self@.terms.skip(self@.essential as int);
        while i < terms.len()
            invariant
                terms@ == self@.terms,
                self@.essential <= i <= terms.len(),
                drained == self@.terms.skip(self@.essential as int),
                slots@ =~= drained.take(i - self@.essential).map_values(|t: TermState| t.slot),
            decreases terms.len() - i,
        {
            slots.push(terms[i].slot);
            i = i + 1;
        }
        assert(drained.take(i - self@.essential) =~= drained);
        slots
    }

    /// Takes the candidates out of the drained buffer and clears it.
    pub fn drained(self, buffer: &mut WindowBuffer) -> (drained: Drained)
        requires
            self.wf(),
            old(buffer).wf(),
        ensures
            final(buffer).wf(),
            forall|w: int|
                0 <= w < crate::window::BITMAP_WORDS ==> #[trigger] final(buffer).bitmap@[w] == 0,
            forall|s: int|
                0 <= s < crate::window::WINDOW_WIDTH ==> #[trigger] final(buffer).accum@[s] == (
                if crate::window::slot_set(old(buffer).bitmap@, s) {
                    Weight { bits: crate::weight::ZERO_BITS }
                } else {
                    old(buffer).accum@[s]
                }),
            old(buffer).is_consistent() ==> final(buffer).is_clear(),
            ({
                let state = SearchState {
                    candidates: crate::window::window_candidates(
                        old(buffer).bitmap@,
                        old(buffer).accum@,
                        self@.window->0,
                    ),
                    ..self@
                };
                if state.candidates.len() == 0 || state.essential == 0 {
                    &&& drained matches Drained::Next(next)
                    &&& window_finished(state, next)
                } else if !state.non_essential_loaded {
                    &&& drained matches Drained::Inspect(step)
                    &&& step.wf()
                    &&& step@ == state
                } else {
                    &&& drained matches Drained::Budget(step)
                    &&& step.wf()
                    &&& step@ == state
                }
            }),
    {
        let mut search: Search = self.search;
        let any: bool = search.collect(buffer);
        buffer.clear();
        if !any || search.essential() == 0 {
            Drained::Next(finish_window(search))
        } else if !search.non_essential_loaded() {
            Drained::Inspect(InspectStep { search })
        } else {
            Drained::Budget(BudgetStep { search })
        }
    }
}

impl InspectStep {
    pub closed spec fn view(&self) -> SearchState {
        self.search@
    }

    pub closed spec fn wf(&self) -> bool {
        self.search.wf() && self.search@.window is Some && !self.search@.non_essential_loaded
            && self.search@.essential > 0
    }

    /// Takes the states of the cursors' blocks, in cursor order, and names the
    /// blocks to load.
    pub fn inspected(self, cursors: &Vec<CursorBlocks>) -> (out: (Vec<(usize, u32)>, BudgetStep))
        requires
            self.wf(),
            cursors.len() == self@.terms.len(),
        ensures
            out.0@ == crate::search::missing_blocks(
                self@.terms,
                cursors@,
                self@.top.threshold,
            ),
            out.1.wf(),
            out.1@ == (SearchState { non_essential_loaded: true, ..self@ }),
    {
        let mut search: Search = self.search;
        let keys: Vec<(usize, u32)> = search.missing_blocks(cursors);
        (keys, BudgetStep { search })
    }
}

impl BudgetStep {
    pub closed spec fn view(&self) -> SearchState {
        self.search@
    }

    pub closed spec fn wf(&self) -> bool {
        self.search.wf() && self.search@.window is Some && self.search@.essential > 0
    }

    /// The bounds of the non-essential terms, whose sum is the budget.
    pub fn bounds(&self) -> (bounds: Vec<Weight>)
        requires
            self.wf(),
        ensures
            bounds@ == self@.terms.take(self@.essential as int).map_values(
                |t: TermState| t.window_score,
            ),
    {
        proof {
            self.search.lemma_wf();
        }
        let terms: &Vec<TermState> = self.search.terms();
        let mut bounds: Vec<Weight> = Vec::new();
        let mut i: usize = 0;
        let n: usize = self.search.essential();
        while i < n
            invariant
                i <= n == self@.essential,
                n <= terms.len(),
                terms@ == self@.terms,
                bounds@ =~= terms@.take(i as int).map_values(|t: TermState| t.window_score),
            decreases n - i,
        {
            bounds.push(terms[i].window_score);
            i = i + 1;
        }
        bounds
    }

    /// The score that a document has to exceed once the top-k set is full.
    pub fn threshold(&self) -> (w: Weight)
        ensures
            w == self@.top.threshold,
    {
        self.search.threshold()
    }

    /// Takes the budget and the cutoff, which is the threshold less the budget.
    pub fn budgeted(self, remaining: Weight, cutoff: Weight) -> (pruned: Pruned)
        requires
            self.wf(),
        ensures
            pruning_done(self@, self@.essential, remaining, cutoff, pruned),
    {
        let n: usize = self.search.essential();
        prune(self.search, n, remaining, cutoff)
    }
}

impl ProbeStep {
    pub closed spec fn view(&self) -> SearchState {
        self.search@
    }

    pub closed spec fn term_index(&self) -> nat {
        self.term as nat
    }

    pub closed spec fn wf(&self) -> bool {
        self.search.wf() && self.search@.window is Some && self.term < self.search@.essential
    }

    /// The term to probe.
    pub fn term(&self) -> (t: TermState)
        requires
            self.wf(),
        ensures
            t == self@.terms[self.term_index() as int],
    {
        proof {
            self.search.lemma_wf();
        }
        self.search.terms()[self.term]
    }

    /// The first and the last document of the window.
    pub fn window(&self) -> (w: (u32, u32))
        requires
            self.wf(),
        ensures
            self@.window == Some(w.0),
            w.1 == crate::search::window_end(w.0, self@.max_doc_id),
    {
        match self.search.window() {
            Some(w) => w,
            None => (0, 0),
        }
    }

    /// The candidates and their scores so far.
    pub fn candidates(&self) -> (out: (&Vec<u32>, &Vec<Weight>))
        requires
            self.wf(),
        ensures
            out.0.len() == out.1.len(),
            crate::window::paired(out.0@, out.1@) == self@.candidates,
    {
        self.search.candidates()
    }

    /// The score that a document has to exceed once the top-k set is full.
    pub fn threshold(&self) -> (w: Weight)
        ensures
            w == self@.top.threshold,
    {
        self.search.threshold()
    }

    /// Takes the candidates' new scores, and the budget and the cutoff for the
    /// terms that are left.
    pub fn probed(self, scores: Vec<Weight>, remaining: Weight, cutoff: Weight) -> (pruned: Pruned)
        requires
            self.wf(),
            scores.len() == self@.candidates.len(),
        ensures
            pruning_done(
                crate::search::with_scores(self@, scores@),
                self.term_index(),
                remaining,
                cutoff,
                pruned,
            ),
    {
        let mut search: Search = self.search;
        search.update_scores(scores);
        prune(search, self.term, remaining, cutoff)
    }
}

/// What preparing a term does to the candidates: once the set is full and the
/// budget is above zero, exactly those stay, in order, whose score exceeds the
/// cutoff; otherwise all stay. Nothing else changes.
pub proof fn law_preparing_drops_what_cannot_compete(
    state: SearchState,
    remaining: Weight,
    cutoff: Weight,
) -> (at: Seq<int>)
    ensures
        ({
            let after = pruned_state(state, remaining, cutoff);
            let pruning = state.top.items.len() >= state.top.k && remaining.gt(
                Weight { bits: 0 },
            );
            &&& !pruning ==> after == state
            &&& pruning ==> {
                &&& at.len() == after.candidates.len()
                &&& forall|i: int|
                    0 <= i < at.len() ==> 0 <= (#[trigger] at[i]) < state.candidates.len()
                        && after.candidates[i] == state.candidates[at[i]]
                &&& forall|i: int, j: int|
                    #![trigger at[i], at[j]]
                    0 <= i < j < at.len() ==> at[i] < at[j]
                &&& forall|p: int|
                    #![trigger state.candidates[p]]
                    0 <= p < state.candidates.len() ==> (state.candidates[p].score.gt(cutoff)
                        <==> exists|i: int| 0 <= i < at.len() && #[trigger] at[i] == p)
            }
            &&& after.top == state.top
            &&& after.terms == state.terms
            &&& after.window == state.window
            &&& after.max_doc_id == state.max_doc_id
            &&& after.essential == state.essential
            &&& after.non_essential_loaded == state.non_essential_loaded
        }),
{
    crate::order::lemma_filter_places(state.candidates, |c: Score| c.score.gt(cutoff))
}

/// Which term is probed next: the last one before `n` whose bound is neither of
/// the two zeros, and none only when all are.
pub proof fn law_next_probe_is_the_last_with_a_bound(terms: Seq<TermState>, n: nat)
    ensures
        match next_probe(terms, n) {
            Some(t) => {
                &&& t < n
                &&& terms[t as int].window_score.bits != 0
                &&& terms[t as int].window_score.bits != 0x8000_0000
                &&& forall|i: int|
                    t < i < n ==> (#[trigger] terms[i]).window_score.bits == 0
                        || terms[i].window_score.bits == 0x8000_0000
            },
            None => forall|i: int|
                0 <= i < n ==> (#[trigger] terms[i]).window_score.bits == 0
                    || terms[i].window_score.bits == 0x8000_0000,
        },
    decreases n,
{
    if n > 0 {
        law_next_probe_is_the_last_with_a_bound(terms, (n - 1) as nat);
        crate::weight::law_comparisons_follow_the_patterns(
            terms[n - 1].window_score,
            Weight { bits: 0 },
        );
    }
}

/// What ends a window: another one opens behind it when documents are left, with
/// what was found counted in; otherwise the set is listed by falling score, then
/// by rising offset.
pub proof fn law_window_ends_with_the_next_or_the_results(state: SearchState, next: Next)
    requires
        window_finished(state, next),
        state.window is Some,
        state.window->0 <= state.max_doc_id,
    ensures
        state.max_doc_id - state.window->0 >= 4096 <==> next is Window,
        next matches Next::Window(step) ==> {
            &&& step@.window == Some((state.window->0 + 4096) as u32)
            &&& step@.top == state.top.offered_all(state.candidates)
            &&& step@.terms == state.terms
            &&& step@.max_doc_id == state.max_doc_id
            &&& step@.non_essential_loaded == state.non_essential_loaded
        },
        next matches Next::Finished(results) ==> {
            &&& results@.to_multiset() == state.top.offered_all(state.candidates).items
            &&& forall|i: int, j: int|
                #![trigger results@[i], results@[j]]
                0 <= i < j < results.len() ==> results@[i].score.rank() > results@[j].score.rank()
                    || (results@[i].score.rank() == results@[j].score.rank() && results@[i].offset
                    <= results@[j].offset)
        },
{
    crate::search::law_windows_are_of_one_width(state.window->0, state.max_doc_id);
    if let Next::Finished(results) = next {
        crate::topk::law_ranking_lists_the_set(
            results@,
            state.top.offered_all(state.candidates).items,
        );
    }
}

/// What follows the preparation of the terms before `n`: the window ends just
/// when no candidate is left or no term with a bound other than zero; otherwise
/// the last such term is probed with the candidates that are left. Without terms
/// the candidates are not held against the cutoff.
pub proof fn law_preparation_ends_or_probes(
    state: SearchState,
    n: nat,
    remaining: Weight,
    cutoff: Weight,
    pruned: Pruned,
)
    requires
        pruning_done(state, n, remaining, cutoff, pruned),
    ensures
        ({
            let after = if n > 0 {
                pruned_state(state, remaining, cutoff)
            } else {
                state
            };
            let idle = forall|i: int|
                0 <= i < n ==> (#[trigger] state.terms[i]).window_score.bits == 0
                    || state.terms[i].window_score.bits == 0x8000_0000;
            match pruned {
                Pruned::Next(next) => {
                    &&& after.candidates.len() == 0 || idle
                    &&& window_finished(after, next)
                },
                Pruned::Probe(step) => {
                    let t = step.term_index() as int;
                    &&& after.candidates.len() > 0
                    &&& step@ == after
                    &&& 0 <= t < n
                    &&& state.terms[t].window_score.bits != 0
                    &&& state.terms[t].window_score.bits != 0x8000_0000
                    &&& forall|i: int|
                        t < i < n ==> (#[trigger] state.terms[i]).window_score.bits == 0
                            || state.terms[i].window_score.bits == 0x8000_0000
                },
            }
        }),
{
    law_next_probe_is_the_last_with_a_bound(state.terms, n);
}

} // verus!
