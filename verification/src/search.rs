//! The window loop of a query.
//!
//! A search walks the document ids in windows. For each window the caller
//! bounds what every term can contribute, sums those bounds, drains and probes
//! the cursors; the search decides which terms are essential, which candidates
//! are still competitive, what has to be loaded, and what enters the top-k set.

use vstd::prelude::*;

use crate::order::Ranked;
use crate::score::Score;
use crate::topk::TopK;
use crate::topk::TopKState;
use crate::weight::Weight;
use crate::window::WindowBuffer;
use crate::window::WINDOW_WIDTH;

verus! {

/// A query term, in the place that its bound gives it.
#[derive(Clone, Copy, Debug)]
pub struct TermState {
    /// Which of the caller's cursors belongs to the term.
    pub slot: usize,
    /// A bound on the term's contribution to any document.
    pub max_score: Weight,
    /// A bound on its contribution within the current window.
    pub window_score: Weight,
}

/// Terms stand by rising window bound.
impl Ranked for TermState {
    open spec fn ranks_le(&self, other: &TermState) -> bool {
        self.window_score.rank() <= other.window_score.rank()
    }

    proof fn ranks_le_total(a: &TermState, b: &TermState) {
    }

    proof fn ranks_le_transitive(a: &TermState, b: &TermState, c: &TermState) {
    }

    fn not_after(&self, other: &TermState) -> (b: bool) {
        self.window_score.total_rank() <= other.window_score.total_rank()
    }
}

/// What a search needs to know of a cursor before its blocks are loaded.
#[derive(Clone, Copy, Debug)]
pub struct CursorShape {
    /// Its blocks are loaded on demand.
    pub lazy: bool,
    pub block_count: usize,
}

/// What a search needs to know of one block of a cursor.
#[derive(Clone, Copy, Debug)]
pub struct BlockStatus {
    pub loaded: bool,
    /// A bound on what the block can contribute to a document.
    pub bound: Weight,
}

/// A cursor and its blocks.
#[derive(Debug)]
pub struct CursorBlocks {
    pub lazy: bool,
    pub blocks: Vec<BlockStatus>,
}

/// What to do with a non-essential term.
#[derive(Clone, Copy, Debug, PartialEq, Eq, Structural)]
pub enum NonEssentialStep {
    /// No candidate is left: leave the remaining terms alone.
    Stop,
    /// The term contributes nothing in this window.
    Skip,
    /// Add what the cursor in this slot contributes to the candidates.
    Probe(usize),
}

/// The first `n` blocks of the cursor in `slot`.
pub open spec fn first_blocks(slot: usize, n: nat) -> Seq<(usize, u32)> {
    Seq::new(n, |b: int| (slot, b as u32))
}

/// All blocks of the lazy cursors, term by term.
pub open spec fn lazy_blocks(terms: Seq<TermState>, cursors: Seq<CursorShape>) -> Seq<(usize, u32)>
    decreases terms.len(),
{
    if terms.len() == 0 {
        Seq::empty()
    } else {
        let t = terms.last();
        let before = lazy_blocks(terms.drop_last(), cursors);
        let cursor = cursors[t.slot as int];
        if cursor.lazy {
            before + first_blocks(t.slot, crate::layout::count32(cursor.block_count as nat))
        } else {
            before
        }
    }
}

/// The blocks of the cursor in `slot` that are not loaded and may still raise a
/// document above the threshold.
pub open spec fn promising_blocks(
    slot: usize,
    blocks: Seq<BlockStatus>,
    threshold: Weight,
) -> Seq<(usize, u32)>
    decreases blocks.len(),
{
    if blocks.len() == 0 {
        Seq::empty()
    } else {
        let before = promising_blocks(slot, blocks.drop_last(), threshold);
        if !blocks.last().loaded && blocks.last().bound.gt(threshold) {
            before.push((slot, crate::layout::count32((blocks.len() - 1) as nat) as u32))
        } else {
            before
        }
    }
}

/// The promising blocks of the lazy cursors, term by term.
pub open spec fn missing_blocks(
    terms: Seq<TermState>,
    cursors: Seq<CursorBlocks>,
    threshold: Weight,
) -> Seq<(usize, u32)>
    decreases terms.len(),
{
    if terms.len() == 0 {
        Seq::empty()
    } else {
        let t = terms.last();
        let before = missing_blocks(terms.drop_last(), cursors, threshold);
        let cursor = cursors[t.slot as int];
        if cursor.lazy {
            before + promising_blocks(t.slot, cursor.blocks@, threshold)
        } else {
            before
        }
    }
}

/// `essential` is the first term whose running bound reaches the threshold (the
/// number of terms when none does).
pub open spec fn splits(prefix_sums: Seq<Weight>, threshold: Weight, essential: nat) -> bool {
    &&& essential <= prefix_sums.len()
    &&& forall|i: int| 0 <= i < essential ==> !(#[trigger] prefix_sums[i]).ge(threshold)
    &&& essential < prefix_sums.len() ==> prefix_sums[essential as int].ge(threshold)
}

/// The last document of the window that starts at `start`.
pub open spec fn window_end(start: u32, max_doc_id: u32) -> u32 {
    if start + WINDOW_WIDTH - 1 < max_doc_id {
        (start + WINDOW_WIDTH - 1) as u32
    } else {
        max_doc_id
    }
}

/// Where the next window starts, if there is one.
pub open spec fn following_window(start: u32, max_doc_id: u32) -> Option<u32> {
    if window_end(start, max_doc_id) < max_doc_id {
        Some((window_end(start, max_doc_id) + 1) as u32)
    } else {
        None
    }
}

/// The terms, numbered as the caller numbers its cursors, before any is sorted.
pub open spec fn numbered_terms(max_scores: Seq<Weight>) -> Seq<TermState> {
    Seq::new(
        max_scores.len(),
        |i: int|
            TermState { slot: i as usize, max_score: max_scores[i], window_score: max_scores[i] },
    )
}

/// The terms with new window bounds.
pub open spec fn rebounded(terms: Seq<TermState>, window_scores: Seq<Weight>) -> Seq<TermState> {
    terms.map_values(
        |t: TermState| TermState { window_score: window_scores[t.slot as int], ..t },
    )
}

/// `after` is `before` in the stable order of the window bounds.
pub open spec fn is_reordering(before: Seq<TermState>, after: Seq<TermState>) -> bool {
    exists|order: Seq<usize>| #[trigger]
        crate::order::is_stable_order(before, order) && after == crate::order::arranged(
            before,
            order,
        )
}

/// `m` is the greatest of the offsets that are there, and zero without any.
pub open spec fn is_greatest_offset(m: u32, offsets: Seq<Option<u32>>) -> bool {
    &&& m == 0 || offsets.contains(Some(m))
    &&& forall|i: int|
        0 <= i < offsets.len() ==> ((#[trigger] offsets[i]) matches Some(o) ==> o <= m)
}

/// What a search is at any moment.
pub struct SearchState {
    pub top: TopKState,
    pub terms: Seq<TermState>,
    pub max_doc_id: u32,
    /// The start of the current window; `None` when all have been searched.
    pub window: Option<u32>,
    /// The first essential term.
    pub essential: nat,
    /// Whether the blocks of non-essential terms have been asked for.
    pub non_essential_loaded: bool,
    pub candidates: Seq<Score>,
}

/// A running search.
#[derive(Debug)]
pub struct Search {
    top: TopK,
    terms: Vec<TermState>,
    max_doc_id: u32,
    window: Option<u32>,
    essential: usize,
    non_essential_loaded: bool,
    cand_docs: Vec<u32>,
    cand_scores: Vec<Weight>,
}

/// Every term belongs to a cursor, and no two to the same.
pub open spec fn slots_ok(terms: Seq<TermState>) -> bool {
    &&& forall|i: int| 0 <= i < terms.len() ==> (#[trigger] terms[i]).slot < terms.len()
    &&& forall|i: int, j: int|
        #![trigger terms[i], terms[j]]
        0 <= i < j < terms.len() ==> terms[i].slot != terms[j].slot
}

impl SearchState {
    pub open spec fn wf(self) -> bool {
        &&& self.top.wf()
        &&& slots_ok(self.terms)
        &&& 0 < self.terms.len()
        &&& self.essential <= self.terms.len()
        &&& self.window matches Some(start) ==> start % WINDOW_WIDTH == 0 && start
            <= self.max_doc_id
    }
}

/// The state with new scores for the candidates.
pub open spec fn with_scores(state: SearchState, scores: Seq<Weight>) -> SearchState {
    SearchState {
        candidates: Seq::new(
            state.candidates.len(),
            |i: int| Score { score: scores[i], offset: state.candidates[i].offset },
        ),
        ..state
    }
}

/// Reordering the terms keeps their slots apart.
proof fn lemma_reordering_keeps_slots(before: Seq<TermState>, after: Seq<TermState>)
    requires
        slots_ok(before),
        is_reordering(before, after),
    ensures
        slots_ok(after),
        after.len() == before.len(),
{
    let order = choose|order: Seq<usize>| #[trigger]
        crate::order::is_stable_order(before, order) && after == crate::order::arranged(
            before,
            order,
        );
    assert forall|i: int, j: int|
        #![trigger after[i], after[j]]
        0 <= i < j < after.len() implies after[i].slot != after[j].slot by {
        let a = order[i] as int;
        let b = order[j] as int;
        assert(crate::order::comes_before(before, a, b));
        assert(after[i] == before[a] && after[j] == before[b]);
        if a < b {
            assert(before[a].slot != before[b].slot);
        } else {
            assert(before[b].slot != before[a].slot);
        }
    }
    assert forall|i: int| 0 <= i < after.len() implies (#[trigger] after[i]).slot < after.len() by {
        assert(after[i] == before[order[i] as int]);
    }
}

impl Search {
    pub closed spec fn view(&self) -> SearchState {
        SearchState {
            top: self.top@,
            terms: self.terms@,
            max_doc_id: self.max_doc_id,
            window: self.window,
            essential: self.essential as nat,
            non_essential_loaded: self.non_essential_loaded,
            candidates: crate::window::paired(self.cand_docs@, self.cand_scores@),
        }
    }

    pub closed spec fn wf(&self) -> bool {
        &&& self.top.wf()
        &&& self@.wf()
        &&& self.cand_docs.len() == self.cand_scores.len()
    }

    /// What a well-formed search guarantees of its state.
    pub proof fn lemma_wf(&self)
        requires
            self.wf(),
        ensures
            self@.wf(),
    {
    }

    /// Starts a search for the best `k` documents. The terms are given by the
    /// bounds on their contributions and by the last offsets of their cursors,
    /// both in cursor order. Without a term there is nothing to search.
    pub fn new(k: usize, max_scores: &Vec<Weight>, last_offsets: &Vec<Option<u32>>) -> (s: Option<
        Search,
    >)
        requires
            k > 0,
            max_scores.len() == last_offsets.len(),
        ensures
            s is Some <==> max_scores.len() > 0,
            s matches Some(search) ==> {
                &&& search.wf()
                &&& search@.top == TopKState::start(k as nat)
                &&& is_reordering(numbered_terms(max_scores@), search@.terms)
                &&& is_greatest_offset(search@.max_doc_id, last_offsets@)
                &&& search@.window == Some(0u32)
                &&& search@.essential == 0
                &&& !search@.non_essential_loaded
                &&& search@.candidates == Seq::<Score>::empty()
            },
    {
        if max_scores.len() == 0 {
            return None;
        }
        let mut numbered: Vec<TermState> = Vec::new();
        let mut max_doc_id: u32 = 0;
        let mut i: usize = 0;
        while i < max_scores.len()
            invariant
                i <= max_scores.len(),
                max_scores.len() == last_offsets.len(),
                numbered@ =~= numbered_terms(max_scores@).take(i as int),
                is_greatest_offset(max_doc_id, last_offsets@.take(i as int)),
            decreases max_scores.len() - i,
        {
            numbered.push(
                TermState { slot: i, max_score: max_scores[i], window_score: max_scores[i] },
            );
            let ghost seen = last_offsets@.take(i as int);
            let last: Option<u32> = last_offsets[i];
            proof {
                let now = last_offsets@.take(i + 1);
                assert(now[i as int] == last);
                assert forall|m: u32| seen.contains(Some(m)) implies now.contains(Some(m)) by {
                    let j = choose|j: int| 0 <= j < seen.len() && seen[j] == Some(m);
                    assert(now[j] == Some(m));
                }
                assert forall|j: int| 0 <= j < i implies #[trigger] now[j] == seen[j] by {}
            }
            if let Some(o) = last {
                if o > max_doc_id {
                    max_doc_id = o;
                }
            }
            i = i + 1;
        }
        assert(last_offsets@.take(i as int) =~= last_offsets@);
        assert(numbered@ =~= numbered_terms(max_scores@));
        let terms: Vec<TermState> = crate::order::sorted(&numbered);
        proof {
            assert(slots_ok(numbered@));
            lemma_reordering_keeps_slots(numbered@, terms@);
        }
        let search: Search = Search {
            top: TopK::new(k),
            terms,
            max_doc_id,
            window: Some(0),
            essential: 0,
            non_essential_loaded: false,
            cand_docs: Vec::new(),
            cand_scores: Vec::new(),
        };
        assert(search@.candidates =~= Seq::<Score>::empty());
        Some(search)
    }

    /// The terms, by rising window bound.
    pub fn terms(&self) -> (terms: &Vec<TermState>)
        ensures
            terms@ == self@.terms,
    {
        &self.terms
    }

    /// The first essential term: those from here on are drained.
    pub fn essential(&self) -> (i: usize)
        ensures
            i == self@.essential,
    {
        self.essential
    }

    /// Whether the blocks of the non-essential terms have been asked for.
    pub fn non_essential_loaded(&self) -> (b: bool)
        ensures
            b == self@.non_essential_loaded,
    {
        self.non_essential_loaded
    }

    /// The score that a candidate has to exceed once the top-k set is full.
    pub fn threshold(&self) -> (w: Weight)
        ensures
            w == self@.top.threshold,
    {
        self.top.threshold()
    }

    /// The documents still under consideration in this window, and their
    /// scores so far.
    pub fn candidates(&self) -> (out: (&Vec<u32>, &Vec<Weight>))
        requires
            self.wf(),
        ensures
            out.0.len() == out.1.len(),
            crate::window::paired(out.0@, out.1@) == self@.candidates,
    {
        (&self.cand_docs, &self.cand_scores)
    }

    /// The blocks to load before the first window: while the top-k set is empty
    /// every term is essential.
    pub fn blocks_to_load(&self, cursors: &Vec<CursorShape>) -> (keys: Vec<(usize, u32)>)
        requires
            self.wf(),
            cursors.len() == self@.terms.len(),
        ensures
            keys@ == lazy_blocks(self@.terms, cursors@),
    {
        let mut keys: Vec<(usize, u32)> = Vec::new();
        let mut i: usize = 0;
        assert(self.terms@.take(0) =~= Seq::<TermState>::empty());
        while i < self.terms.len()
            invariant
                i <= self.terms.len(),
                slots_ok(self.terms@),
                cursors.len() == self.terms.len(),
                keys@ == lazy_blocks(self.terms@.take(i as int), cursors@),
            decreases self.terms.len() - i,
        {
            let slot: usize = self.terms[i].slot;
            let cursor: CursorShape = cursors[slot];
            let ghost before = keys@;
            if cursor.lazy {
                let n: u32 = crate::layout::truncated(cursor.block_count);
                let mut b: u32 = 0;
                while b < n
                    invariant
                        b <= n,
                        keys@ =~= before + first_blocks(slot, b as nat),
                    decreases n - b,
                {
                    keys.push((slot, b));
                    b = b + 1;
                }
            }
            proof {
                let now = self.terms@.take(i + 1);
                assert(now.drop_last() =~= self.terms@.take(i as int));
                assert(now.last() == self.terms@[i as int]);
            }
            i = i + 1;
        }
        assert(self.terms@.take(i as int) =~= self.terms@);
        keys
    }

    /// The first and the last document of the current window; `None` when all
    /// windows have been searched.
    pub fn window(&self) -> (w: Option<(u32, u32)>)
        requires
            self.wf(),
        ensures
            w == match self@.window {
                Some(start) => Some((start, window_end(start, self@.max_doc_id))),
                None => None,
            },
    {
        match self.window {
            Some(start) => {
                let end: u32 = start + (WINDOW_WIDTH - 1);
                if end < self.max_doc_id {
                    Some((start, end))
                } else {
                    Some((start, self.max_doc_id))
                }
            },
            None => None,
        }
    }

    /// Takes the terms' bounds for the current window, in cursor order, and
    /// puts the terms in the order of their bounds.
    pub fn bound_terms(&mut self, window_scores: &Vec<Weight>)
        requires
            old(self).wf(),
            window_scores.len() == old(self)@.terms.len(),
        ensures
            final(self).wf(),
            is_reordering(rebounded(old(self)@.terms, window_scores@), final(self)@.terms),
            final(self)@ == (SearchState { terms: final(self)@.terms, ..old(self)@ }),
    {
        let mut bounded: Vec<TermState> = Vec::new();
        let ghost all = rebounded(self.terms@, window_scores@);
        let mut i: usize = 0;
        while i < self.terms.len()
            invariant
                i <= self.terms.len(),
                slots_ok(self.terms@),
                window_scores.len() == self.terms.len(),
                all == rebounded(self.terms@, window_scores@),
                bounded@ =~= all.take(i as int),
            decreases self.terms.len() - i,
        {
            let t: TermState = self.terms[i];
            bounded.push(
                TermState {
                    slot: t.slot,
                    max_score: t.max_score,
                    window_score: window_scores[t.slot],
                },
            );
            i = i + 1;
        }
        assert(bounded@ =~= all);
        let terms: Vec<TermState> = crate::order::sorted(&bounded);
        proof {
            assert(slots_ok(all)) by {
                assert forall|i: int, j: int|
                    #![trigger all[i], all[j]]
                    0 <= i < j < all.len() implies all[i].slot != all[j].slot by {
                    assert(self.terms@[i].slot != self.terms@[j].slot);
                }
            }
            lemma_reordering_keeps_slots(all, terms@);
        }
        self.terms = terms;
    }

    /// Takes the running sums of the terms' bounds, in term order, and splits
    /// the terms where they reach the threshold.
    pub fn split_terms(&mut self, prefix_sums: &Vec<Weight>)
        requires
            old(self).wf(),
            prefix_sums.len() == old(self)@.terms.len(),
        ensures
            final(self).wf(),
            splits(prefix_sums@, old(self)@.top.threshold, final(self)@.essential),
            final(self)@ == (SearchState { essential: final(self)@.essential, ..old(self)@ }),
    {
        let threshold: Weight = self.top.threshold();
        let mut i: usize = 0;
        while i < prefix_sums.len() && !prefix_sums[i].at_least(threshold)
            invariant
                i <= prefix_sums.len(),
                forall|j: int| 0 <= j < i ==> !(#[trigger] prefix_sums@[j]).ge(threshold),
            decreases prefix_sums.len() - i,
        {
            i = i + 1;
        }
        self.essential = i;
    }

    /// Takes the candidates out of the window's buffer. Says whether there are
    /// any.
    pub fn collect(&mut self, buffer: &WindowBuffer) -> (any: bool)
        requires
            old(self).wf(),
            old(self)@.window is Some,
            buffer.wf(),
        ensures
            final(self).wf(),
            final(self)@ == (SearchState {
                candidates: crate::window::window_candidates(
                    buffer.bitmap@,
                    buffer.accum@,
                    old(self)@.window->0,
                ),
                ..old(self)@
            }),
            any == (final(self)@.candidates.len() > 0),
    {
        match self.window {
            Some(start) => {
                let (docs, scores) = buffer.candidates(start);
                self.cand_docs = docs;
                self.cand_scores = scores;
                self.cand_docs.len() > 0
            },
            None => false,
        }
    }

    /// The blocks to load for the non-essential terms. They are asked for once
    /// in a search, the first time that there is such a term.
    pub fn missing_blocks(&mut self, cursors: &Vec<CursorBlocks>) -> (keys: Vec<(usize, u32)>)
        requires
            old(self).wf(),
            cursors.len() == old(self)@.terms.len(),
        ensures
            final(self).wf(),
            final(self)@ == (SearchState {
                non_essential_loaded: old(self)@.non_essential_loaded || old(self)@.essential > 0,
                ..old(self)@
            }),
            keys@ == if !old(self)@.non_essential_loaded && old(self)@.essential > 0 {
                missing_blocks(old(self)@.terms, cursors@, old(self)@.top.threshold)
            } else {
                Seq::<(usize, u32)>::empty()
            },
    {
        let mut keys: Vec<(usize, u32)> = Vec::new();
        if self.non_essential_loaded || self.essential == 0 {
            return keys;
        }
        self.non_essential_loaded = true;
        let threshold: Weight = self.top.threshold();
        let mut i: usize = 0;
        assert(self.terms@.take(0) =~= Seq::<TermState>::empty());
        while i < self.terms.len()
            invariant
                i <= self.terms.len(),
                slots_ok(self.terms@),
                cursors.len() == self.terms.len(),
                keys@ == missing_blocks(self.terms@.take(i as int), cursors@, threshold),
            decreases self.terms.len() - i,
        {
            let slot: usize = self.terms[i].slot;
            let ghost before = keys@;
            if cursors[slot].lazy {
                let blocks: &Vec<BlockStatus> = &cursors[slot].blocks;
                let mut b: usize = 0;
                assert(blocks@.take(0) =~= Seq::<BlockStatus>::empty());
                assert(keys@ =~= before + promising_blocks(slot, blocks@.take(0), threshold));
                while b < blocks.len()
                    invariant
                        b <= blocks.len(),
                        keys@ =~= before + promising_blocks(
                            slot,
                            blocks@.take(b as int),
                            threshold,
                        ),
                    decreases blocks.len() - b,
                {
                    proof {
                        let now = blocks@.take(b + 1);
                        assert(now.drop_last() =~= blocks@.take(b as int));
                        assert(now.last() == blocks@[b as int]);
                    }
                    if !blocks[b].loaded && blocks[b].bound.exceeds(threshold) {
                        keys.push((slot, crate::layout::truncated(b)));
                    }
                    b = b + 1;
                }
                assert(blocks@.take(b as int) =~= blocks@);
            }
            proof {
                let now = self.terms@.take(i + 1);
                assert(now.drop_last() =~= self.terms@.take(i as int));
                assert(now.last() == self.terms@[i as int]);
            }
            i = i + 1;
        }
        assert(self.terms@.take(i as int) =~= self.terms@);
        keys
    }

    /// Prepares the non-essential term `i`: `remaining` is the sum of the
    /// bounds of the terms up to it, `cutoff` the threshold less that sum.
    /// Candidates that the remaining terms cannot lift above the threshold of a
    /// full top-k set are dropped.
    pub fn consider(&mut self, i: usize, remaining: Weight, cutoff: Weight) -> (step:
        NonEssentialStep)
        requires
            old(self).wf(),
            i < old(self)@.essential,
        ensures
            final(self).wf(),
            final(self)@ == (SearchState {
                candidates: if old(self)@.top.full() && remaining.gt(
                    Weight { bits: crate::weight::ZERO_BITS },
                ) {
                    old(self)@.candidates.filter(|c: Score| c.score.gt(cutoff))
                } else {
                    old(self)@.candidates
                },
                ..old(self)@
            }),
            step == if final(self)@.candidates.len() == 0 {
                NonEssentialStep::Stop
            } else if old(self)@.terms[i as int].window_score.numerically_equal(
                Weight { bits: crate::weight::ZERO_BITS },
            ) {
                NonEssentialStep::Skip
            } else {
                NonEssentialStep::Probe(old(self)@.terms[i as int].slot)
            },
    {
        let zero: Weight = Weight::zero();
        if self.top.is_full() && remaining.exceeds(zero) {
            crate::window::filter_competitive(&mut self.cand_docs, &mut self.cand_scores, cutoff);
        }
        if self.cand_docs.len() == 0 {
            NonEssentialStep::Stop
        } else if self.terms[i].window_score.equals(zero) {
            NonEssentialStep::Skip
        } else {
            NonEssentialStep::Probe(self.terms[i].slot)
        }
    }

    /// Takes the candidates' scores after a term was added to them.
    pub fn update_scores(&mut self, scores: Vec<Weight>)
        requires
            old(self).wf(),
            scores.len() == old(self)@.candidates.len(),
        ensures
            final(self).wf(),
            final(self)@ == with_scores(old(self)@, scores@),
    {
        self.cand_scores = scores;
        assert(self@.candidates =~= with_scores(old(self)@, scores@).candidates);
    }

    /// Offers the candidates to the top-k set, by rising offset, and moves on
    /// to the next window.
    pub fn finish_window(&mut self)
        requires
            old(self).wf(),
            old(self)@.window is Some,
        ensures
            final(self).wf(),
            final(self)@ == (SearchState {
                top: old(self)@.top.offered_all(old(self)@.candidates),
                window: following_window(old(self)@.window->0, old(self)@.max_doc_id),
                ..old(self)@
            }),
    {
        let ghost all = self@.candidates;
        let ghost top = self@.top;
        let mut i: usize = 0;
        while i < self.cand_docs.len()
            invariant
                old(self).wf(),
                i <= self.cand_docs.len(),
                self.cand_docs.len() == self.cand_scores.len(),
                self.top.wf(),
                all == crate::window::paired(self.cand_docs@, self.cand_scores@),
                self.top@ == top.offered_all(all.take(i as int)),
                top == old(self)@.top,
                self@ == (SearchState { top: self.top@, ..old(self)@ }),
            decreases self.cand_docs.len() - i,
        {
            let candidate: Score = Score {
                score: self.cand_scores[i],
                offset: self.cand_docs[i],
            };
            self.top.offer(candidate);
            assert(all.take(i + 1).drop_last() =~= all.take(i as int));
            i = i + 1;
        }
        assert(all.take(i as int) =~= all);
        proof {
            crate::topk::lemma_offered_all_wf(top, all);
        }
        if let Some((_, end)) = self.window() {
            if end < self.max_doc_id {
                self.window = Some(end + 1);
            } else {
                self.window = None;
            }
        }
    }

    /// The documents found, best first.
    pub fn into_results(self) -> (results: Vec<Score>)
        ensures
            crate::topk::is_ranking(results@, self@.top.items),
    {
        self.top.into_results()
    }
}

/// Every cursor has its term.
pub proof fn lemma_every_slot_has_a_term(terms: Seq<TermState>, slot: int) -> (i: int)
    requires
        slots_ok(terms),
        0 <= slot < terms.len(),
    ensures
        0 <= i < terms.len(),
        terms[i].slot == slot,
{
    let n = terms.len();
    let slots = terms.map_values(|t: TermState| t.slot as int);
    assert(slots.no_duplicates()) by {
        assert forall|i: int, j: int|
            0 <= i < slots.len() && 0 <= j < slots.len() && i != j implies slots[i]
            != slots[j] by {
            if i < j {
                assert(terms[i].slot != terms[j].slot);
            } else {
                assert(terms[j].slot != terms[i].slot);
            }
        }
    }
    slots.unique_seq_to_set();
    let range = vstd::set_lib::set_int_range(0, n as int);
    vstd::set_lib::lemma_int_range(0, n as int);
    assert(slots.to_set().subset_of(range)) by {
        assert forall|x: int| slots.to_set().contains(x) implies range.contains(x) by {
            let i = choose|i: int| 0 <= i < slots.len() && slots[i] == x;
            assert(terms[i].slot < terms.len());
        }
    }
    vstd::seq_lib::seq_to_set_is_finite(slots);
    vstd::set_lib::lemma_subset_equality(slots.to_set(), range);
    assert(slots.to_set().contains(slot));
    let i = choose|i: int| 0 <= i < slots.len() && slots[i] == slot;
    assert(terms[i].slot == slot);
    i
}

proof fn lemma_lazy_blocks(
    terms: Seq<TermState>,
    cursors: Seq<CursorShape>,
    slot: usize,
    block: u32,
)
    ensures
        lazy_blocks(terms, cursors).contains((slot, block)) <==> (exists|i: int|
            0 <= i < terms.len() && (#[trigger] terms[i]).slot == slot) && cursors[slot as int].lazy
            && block < cursors[slot as int].block_count as nat % 0x1_0000_0000,
    decreases terms.len(),
{
    let keys = lazy_blocks(terms, cursors);
    if terms.len() > 0 {
        let before = terms.drop_last();
        let n = terms.len() - 1;
        let t = terms[n];
        assert(terms.last() == t);
        assert(forall|i: int| 0 <= i < before.len() ==> #[trigger] before[i] == terms[i]);
        lemma_lazy_blocks(before, cursors, slot, block);
        let early = lazy_blocks(before, cursors);
        let count = cursors[t.slot as int].block_count as nat % 0x1_0000_0000;
        let own = first_blocks(t.slot, count);
        if exists|i: int| 0 <= i < terms.len() && (#[trigger] terms[i]).slot == slot {
            let i = choose|i: int| 0 <= i < terms.len() && (#[trigger] terms[i]).slot == slot;
            if i < n {
                assert(before[i].slot == slot);
            }
        }
        if exists|i: int| 0 <= i < before.len() && (#[trigger] before[i]).slot == slot {
            let i = choose|i: int| 0 <= i < before.len() && (#[trigger] before[i]).slot == slot;
            assert(terms[i].slot == slot);
        }
        if early.contains((slot, block)) {
            let x = choose|x: int| 0 <= x < early.len() && early[x] == (slot, block);
            assert(keys[x] == (slot, block));
        }
        if t.slot == slot && cursors[t.slot as int].lazy && block < count {
            assert(own[block as int] == (slot, block));
            assert(keys[early.len() + block] == (slot, block));
        }
        if keys.contains((slot, block)) && !early.contains((slot, block)) {
            let x = choose|x: int| 0 <= x < keys.len() && keys[x] == (slot, block);
            if x < early.len() {
                assert(early[x] == (slot, block));
            } else {
                assert(own[x - early.len()] == (slot, block));
            }
        }
    }
}

/// What is loaded before the first window: every block of every lazy cursor, and
/// of no other.
pub proof fn law_all_lazy_blocks_are_loaded(
    terms: Seq<TermState>,
    cursors: Seq<CursorShape>,
    slot: usize,
    block: u32,
)
    requires
        slots_ok(terms),
        cursors.len() == terms.len(),
        slot < cursors.len(),
    ensures
        cursors[slot as int].block_count < 0x1_0000_0000 ==> (lazy_blocks(
            terms,
            cursors,
        ).contains((slot, block)) <==> cursors[slot as int].lazy && block
            < cursors[slot as int].block_count),
{
    lemma_lazy_blocks(terms, cursors, slot, block);
    let i = lemma_every_slot_has_a_term(terms, slot as int);
    assert(terms[i].slot == slot);
}

proof fn lemma_promising_blocks(
    slot: usize,
    blocks: Seq<BlockStatus>,
    threshold: Weight,
    other: usize,
    block: u32,
)
    requires
        blocks.len() <= 0x1_0000_0000,
    ensures
        promising_blocks(slot, blocks, threshold).contains((other, block)) <==> other == slot
            && block < blocks.len() && !blocks[block as int].loaded
            && blocks[block as int].bound.gt(threshold),
    decreases blocks.len(),
{
    if blocks.len() > 0 {
        let before = blocks.drop_last();
        let n = blocks.len() - 1;
        assert(blocks.last() == blocks[n]);
        assert(forall|i: int| 0 <= i < before.len() ==> #[trigger] before[i] == blocks[i]);
        lemma_promising_blocks(slot, before, threshold, other, block);
        let early = promising_blocks(slot, before, threshold);
        let keys = promising_blocks(slot, blocks, threshold);
        assert(crate::layout::count32(n as nat) == n);
        if early.contains((other, block)) {
            let x = choose|x: int| 0 <= x < early.len() && early[x] == (other, block);
            assert(keys[x] == (other, block));
        }
        if !blocks[n].loaded && blocks[n].bound.gt(threshold) {
            assert(keys[early.len() as int] == (slot, n as u32));
        }
        if keys.contains((other, block)) && !early.contains((other, block)) {
            let x = choose|x: int| 0 <= x < keys.len() && keys[x] == (other, block);
            if x < early.len() {
                assert(early[x] == (other, block));
            }
        }
    }
}

proof fn lemma_missing_blocks(
    terms: Seq<TermState>,
    cursors: Seq<CursorBlocks>,
    threshold: Weight,
    slot: usize,
    block: u32,
)
    requires
        forall|i: int|
            0 <= i < terms.len() ==> cursors[(#[trigger] terms[i]).slot as int].blocks@.len()
                <= 0x1_0000_0000,
    ensures
        missing_blocks(terms, cursors, threshold).contains((slot, block)) <==> (exists|i: int|
            0 <= i < terms.len() && (#[trigger] terms[i]).slot == slot) && cursors[slot as int].lazy
            && block < cursors[slot as int].blocks@.len()
            && !cursors[slot as int].blocks@[block as int].loaded
            && cursors[slot as int].blocks@[block as int].bound.gt(threshold),
    decreases terms.len(),
{
    let keys = missing_blocks(terms, cursors, threshold);
    if terms.len() > 0 {
        let before = terms.drop_last();
        let n = terms.len() - 1;
        let t = terms[n];
        assert(terms.last() == t);
        assert(forall|i: int| 0 <= i < before.len() ==> #[trigger] before[i] == terms[i]);
        lemma_missing_blocks(before, cursors, threshold, slot, block);
        let early = missing_blocks(before, cursors, threshold);
        let own = promising_blocks(t.slot, cursors[t.slot as int].blocks@, threshold);
        lemma_promising_blocks(
            t.slot,
            cursors[t.slot as int].blocks@,
            threshold,
            slot,
            block,
        );
        if exists|i: int| 0 <= i < terms.len() && (#[trigger] terms[i]).slot == slot {
            let i = choose|i: int| 0 <= i < terms.len() && (#[trigger] terms[i]).slot == slot;
            if i < n {
                assert(before[i].slot == slot);
            }
        }
        if exists|i: int| 0 <= i < before.len() && (#[trigger] before[i]).slot == slot {
            let i = choose|i: int| 0 <= i < before.len() && (#[trigger] before[i]).slot == slot;
            assert(terms[i].slot == slot);
        }
        if early.contains((slot, block)) {
            let x = choose|x: int| 0 <= x < early.len() && early[x] == (slot, block);
            assert(keys[x] == (slot, block));
        }
        if cursors[t.slot as int].lazy && own.contains((slot, block)) {
            let x = choose|x: int| 0 <= x < own.len() && own[x] == (slot, block);
            assert(keys[early.len() + x] == (slot, block));
        }
        if keys.contains((slot, block)) && !early.contains((slot, block)) {
            let x = choose|x: int| 0 <= x < keys.len() && keys[x] == (slot, block);
            if x < early.len() {
                assert(early[x] == (slot, block));
            } else {
                assert(own[x - early.len()] == (slot, block));
            }
        }
    }
}

/// What is loaded once there are non-essential terms: of every lazy cursor each
/// block that is not loaded and whose bound exceeds the threshold, and no other.
pub proof fn law_promising_blocks_are_loaded(
    terms: Seq<TermState>,
    cursors: Seq<CursorBlocks>,
    threshold: Weight,
    slot: usize,
    block: u32,
)
    requires
        slots_ok(terms),
        cursors.len() == terms.len(),
        slot < cursors.len(),
        forall|s: int|
            0 <= s < cursors.len() ==> (#[trigger] cursors[s]).blocks@.len() <= 0x1_0000_0000,
    ensures
        missing_blocks(terms, cursors, threshold).contains((slot, block)) <==> {
            &&& cursors[slot as int].lazy
            &&& block < cursors[slot as int].blocks@.len()
            &&& !cursors[slot as int].blocks@[block as int].loaded
            &&& cursors[slot as int].blocks@[block as int].bound.gt(threshold)
        },
{
    lemma_missing_blocks(terms, cursors, threshold, slot, block);
    let i = lemma_every_slot_has_a_term(terms, slot as int);
    assert(terms[i].slot == slot);
}

/// How the terms stand at first: one for each cursor, with the bound that was
/// given for it, by rising bound, and in cursor order where bounds rank equal.
pub proof fn law_terms_are_numbered_and_sorted(max_scores: Seq<Weight>, terms: Seq<TermState>)
    requires
        is_reordering(numbered_terms(max_scores), terms),
        max_scores.len() <= usize::MAX,
    ensures
        terms.len() == max_scores.len(),
        forall|i: int|
            0 <= i < terms.len() ==> {
                let t = #[trigger] terms[i];
                &&& t.slot < max_scores.len()
                &&& t.max_score == max_scores[t.slot as int]
                &&& t.window_score == max_scores[t.slot as int]
            },
        forall|i: int, j: int|
            #![trigger terms[i], terms[j]]
            0 <= i < j < terms.len() ==> terms[i].window_score.rank()
                < terms[j].window_score.rank() || (terms[i].window_score.rank()
                == terms[j].window_score.rank() && terms[i].slot < terms[j].slot),
{
    let before = numbered_terms(max_scores);
    let order = choose|order: Seq<usize>| #[trigger]
        crate::order::is_stable_order(before, order) && terms == crate::order::arranged(
            before,
            order,
        );
    crate::order::law_stable_order_sorts(before, order);
    assert forall|i: int| 0 <= i < terms.len() implies (#[trigger] terms[i]) == before[order[i] as int]
        && order[i] < before.len() by {}
    assert forall|i: int, j: int|
        #![trigger terms[i], terms[j]]
        0 <= i < j < terms.len() implies terms[i].window_score.rank()
        < terms[j].window_score.rank() || (terms[i].window_score.rank()
        == terms[j].window_score.rank() && terms[i].slot < terms[j].slot) by {
        assert(before[order[i] as int].ranks_le(&before[order[j] as int]));
        assert(terms[i].slot == order[i] && terms[j].slot == order[j]);
    }
}

/// How the terms stand in a window: each cursor's term is there once, with the
/// bound that was given for the cursor, and they stand by rising bound.
pub proof fn law_terms_have_their_window_bounds(
    before: Seq<TermState>,
    window_scores: Seq<Weight>,
    after: Seq<TermState>,
)
    requires
        slots_ok(before),
        before.len() <= usize::MAX,
        is_reordering(rebounded(before, window_scores), after),
    ensures
        after.len() == before.len(),
        slots_ok(after),
        forall|i: int|
            0 <= i < after.len() ==> (#[trigger] after[i]).window_score
                == window_scores[after[i].slot as int],
        forall|i: int, j: int|
            #![trigger after[i], before[j]]
            0 <= i < after.len() && 0 <= j < before.len() && before[j].slot == after[i].slot
                ==> before[j].max_score == after[i].max_score,
        forall|i: int, j: int|
            #![trigger after[i], after[j]]
            0 <= i < j < after.len() ==> after[i].window_score.rank()
                <= after[j].window_score.rank(),
        forall|i: int, j: int|
            #![trigger after[i], after[j]]
            0 <= i < j < after.len() ==> after[i].slot != after[j].slot,
{
    let all = rebounded(before, window_scores);
    let order = choose|order: Seq<usize>| #[trigger]
        crate::order::is_stable_order(all, order) && after == crate::order::arranged(all, order);
    crate::order::law_stable_order_sorts(all, order);
    assert(slots_ok(all)) by {
        assert forall|i: int, j: int|
            #![trigger all[i], all[j]]
            0 <= i < j < all.len() implies all[i].slot != all[j].slot by {
            assert(before[i].slot != before[j].slot);
        }
    }
    lemma_reordering_keeps_slots(all, after);
    assert forall|i: int, j: int|
        #![trigger after[i], before[j]]
        0 <= i < after.len() && 0 <= j < before.len() && before[j].slot
            == after[i].slot implies before[j].max_score == after[i].max_score by {
        let own = order[i] as int;
        assert(after[i] == all[own]);
        if j < own {
            assert(before[j].slot != before[own].slot);
        } else if own < j {
            assert(before[own].slot != before[j].slot);
        }
    }
    assert forall|i: int| 0 <= i < after.len() implies (#[trigger] after[i]).window_score
        == window_scores[after[i].slot as int] by {
        assert(after[i] == all[order[i] as int]);
    }
    assert forall|i: int, j: int|
        #![trigger after[i], after[j]]
        0 <= i < j < after.len() implies after[i].window_score.rank()
        <= after[j].window_score.rank() by {
        assert(all[order[i] as int].ranks_le(&all[order[j] as int]));
        assert(after[i] == all[order[i] as int] && after[j] == all[order[j] as int]);
    }
}

/// Where the terms are split: no running bound before the first essential term
/// reaches the threshold, and its own does.
pub proof fn law_split_is_where_the_bound_is_reached(
    prefix_sums: Seq<Weight>,
    threshold: Weight,
    essential: nat,
)
    requires
        splits(prefix_sums, threshold, essential),
    ensures
        essential <= prefix_sums.len(),
        forall|i: int| 0 <= i < essential ==> !(#[trigger] prefix_sums[i]).ge(threshold),
        essential < prefix_sums.len() ==> prefix_sums[essential as int].ge(threshold),
        essential == 0 <==> prefix_sums.len() == 0 || prefix_sums[0].ge(threshold),
{
}

/// Windows are 4096 documents wide, but for the last, which ends with the last
/// document; the next one starts behind, and there is none behind the last.
pub proof fn law_windows_are_of_one_width(start: u32, max_doc_id: u32)
    requires
        start <= max_doc_id,
    ensures
        max_doc_id - start >= 4096 ==> window_end(start, max_doc_id) == start + 4095
            && following_window(start, max_doc_id) == Some((start + 4096) as u32),
        max_doc_id - start < 4096 ==> window_end(start, max_doc_id) == max_doc_id
            && following_window(start, max_doc_id) is None,
{
}

/// The last document to look for is the greatest of the offsets that are there.
pub proof fn law_last_document_is_the_greatest(m: u32, offsets: Seq<Option<u32>>)
    requires
        is_greatest_offset(m, offsets),
    ensures
        forall|i: int|
            0 <= i < offsets.len() ==> match #[trigger] offsets[i] {
                Some(o) => o <= m,
                None => true,
            },
        m > 0 ==> exists|i: int| 0 <= i < offsets.len() && #[trigger] offsets[i] == Some(m),
{
    if m > 0 {
        let i = choose|i: int| 0 <= i < offsets.len() && offsets[i] == Some(m);
        assert(offsets[i] == Some(m));
    }
}

/// New scores replace the old ones place by place; the documents and everything
/// else stay.
pub proof fn law_new_scores_stand_in_place(state: SearchState, scores: Seq<Weight>)
    ensures
        with_scores(state, scores).candidates.len() == state.candidates.len(),
        forall|i: int|
            0 <= i < state.candidates.len() ==> (#[trigger] with_scores(
                state,
                scores,
            ).candidates[i]).score == scores[i] && with_scores(state, scores).candidates[i].offset
                == state.candidates[i].offset,
        with_scores(state, scores).top == state.top,
        with_scores(state, scores).terms == state.terms,
        with_scores(state, scores).window == state.window,
        with_scores(state, scores).max_doc_id == state.max_doc_id,
        with_scores(state, scores).essential == state.essential,
        with_scores(state, scores).non_essential_loaded == state.non_essential_loaded,
{
}

} // verus!
