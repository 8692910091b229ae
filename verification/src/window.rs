//! The accumulation buffer of one window of document ids, and the candidates
//! that come out of it.

use vstd::prelude::*;

use crate::score::Score;
use crate::weight::Weight;

verus! {

/// How many document ids a window covers.
pub const WINDOW_WIDTH: u32 = 4096;

/// The words of a bitmap with one bit for each slot of a window.
pub const BITMAP_WORDS: usize = 64;

pub open spec fn bit_set(word: u64, b: int) -> bool {
    (word >> (b as u64)) & 1 == 1
}

/// Whether the bitmap marks a slot.
pub open spec fn slot_set(bitmap: Seq<u64>, slot: int) -> bool {
    bit_set(bitmap[slot / 64], slot % 64)
}

/// The marked slots below `n`, in rising order.
pub open spec fn marked_slots(bitmap: Seq<u64>, n: nat) -> Seq<int>
    decreases n,
{
    if n == 0 {
        Seq::empty()
    } else {
        let below = marked_slots(bitmap, (n - 1) as nat);
        if slot_set(bitmap, n - 1) {
            below.push(n - 1)
        } else {
            below
        }
    }
}

/// The candidate in a slot.
pub open spec fn slot_candidate(accum: Seq<Weight>, window_start: u32, slot: int) -> Score {
    Score { score: accum[slot], offset: (window_start + slot) as u32 }
}

/// The candidates of a window: one for each marked slot, by rising offset,
/// with what was accumulated in the slot.
pub open spec fn window_candidates(
    bitmap: Seq<u64>,
    accum: Seq<Weight>,
    window_start: u32,
) -> Seq<Score> {
    marked_slots(bitmap, WINDOW_WIDTH as nat).map_values(
        |slot: int| slot_candidate(accum, window_start, slot),
    )
}

/// Parallel lists of documents and scores, as one list.
pub open spec fn paired(docs: Seq<u32>, scores: Seq<Weight>) -> Seq<Score> {
    Seq::new(docs.len(), |i: int| Score { score: scores[i], offset: docs[i] })
}

/// Clearing the lowest set bit clears that bit and no other.
proof fn lemma_clear_lowest(x: u64, t: u64)
    requires
        x != 0,
        t == x.trailing_zeros(),
    ensures
        t < 64,
        bit_set(x, t as int),
        forall|b: int| 0 <= b < t ==> !#[trigger] bit_set(x, b),
        x & ((x - 1) as u64) < x,
        forall|b: int|
            0 <= b < 64 ==> (#[trigger] bit_set(x & ((x - 1) as u64), b) <==> bit_set(x, b) && b
                != t),
{
    vstd::std_specs::bits::axiom_u64_trailing_zeros(x);
    assert(x & ((x - 1) as u64) < x) by (bit_vector)
        requires
            x != 0,
    ;
    assert forall|b: int| 0 <= b < t implies !#[trigger] bit_set(x, b) by {
        assert((x >> (b as u64)) & 1u64 == 0u64);
    }
    let low = (64 - t) as u64;
    assert(x << low == 0);
    assert forall|b: int| 0 <= b < 64 implies (#[trigger] bit_set(x & ((x - 1) as u64), b)
        <==> bit_set(x, b) && b != t) by {
        let c = b as u64;
        assert(((x & ((x - 1) as u64)) >> c) & 1 == 1 <==> (x >> c) & 1 == 1 && c != t)
            by (bit_vector)
            requires
                x != 0,
                t < 64,
                c < 64,
                low == 64 - t,
                x << low == 0,
                (x >> t) & 1 == 1,
        ;
    }
}

/// Slots that are not marked add nothing.
proof fn lemma_unmarked_run(bitmap: Seq<u64>, from: nat, to: nat)
    requires
        from <= to,
        forall|s: int| from <= s < to ==> !#[trigger] slot_set(bitmap, s),
    ensures
        marked_slots(bitmap, to) == marked_slots(bitmap, from),
    decreases to - from,
{
    if from < to {
        lemma_unmarked_run(bitmap, from, (to - 1) as nat);
        assert(!slot_set(bitmap, to - 1));
    }
}

/// The marked slots are those below `n` whose bit is set, in rising order.
proof fn lemma_marked_slots(bitmap: Seq<u64>, n: nat)
    ensures
        forall|i: int|
            0 <= i < marked_slots(bitmap, n).len() ==> 0 <= (#[trigger] marked_slots(bitmap, n)[i])
                < n && slot_set(bitmap, marked_slots(bitmap, n)[i]),
        forall|i: int, j: int|
            0 <= i < j < marked_slots(bitmap, n).len() ==> #[trigger] marked_slots(bitmap, n)[i]
                < #[trigger] marked_slots(bitmap, n)[j],
        forall|s: int|
            0 <= s < n && #[trigger] slot_set(bitmap, s) ==> marked_slots(bitmap, n).contains(s),
    decreases n,
{
    if n > 0 {
        let below = marked_slots(bitmap, (n - 1) as nat);
        lemma_marked_slots(bitmap, (n - 1) as nat);
        assert forall|s: int| 0 <= s < n && #[trigger] slot_set(bitmap, s) implies marked_slots(
            bitmap,
            n,
        ).contains(s) by {
            if s == n - 1 {
                assert(marked_slots(bitmap, n)[below.len() as int] == s);
            } else {
                assert(below.contains(s));
                let i = choose|i: int| 0 <= i < below.len() && below[i] == s;
                assert(marked_slots(bitmap, n)[i] == s);
            }
        }
    }
}

/// The candidates of a window stand by rising offset, so no document occurs
/// twice, and they are those of the marked slots: each comes from one, and each
/// has one.
pub proof fn law_candidates_are_the_marked_slots(
    bitmap: Seq<u64>,
    accum: Seq<Weight>,
    window_start: u32,
)
    requires
        window_start + WINDOW_WIDTH - 1 <= u32::MAX,
    ensures
        ({
            let candidates = window_candidates(bitmap, accum, window_start);
            &&& forall|i: int, j: int|
                #![trigger candidates[i], candidates[j]]
                0 <= i < j < candidates.len() ==> candidates[i].offset < candidates[j].offset
            &&& forall|i: int|
                0 <= i < candidates.len() ==> {
                    let slot = (#[trigger] candidates[i]).offset - window_start;
                    &&& 0 <= slot < WINDOW_WIDTH
                    &&& slot_set(bitmap, slot)
                    &&& candidates[i].score == accum[slot]
                }
            &&& forall|slot: int|
                0 <= slot < WINDOW_WIDTH && #[trigger] slot_set(bitmap, slot)
                    ==> candidates.contains(slot_candidate(accum, window_start, slot))
        }),
{
    let slots = marked_slots(bitmap, WINDOW_WIDTH as nat);
    let candidates = window_candidates(bitmap, accum, window_start);
    lemma_marked_slots(bitmap, WINDOW_WIDTH as nat);
    assert(forall|i: int|
        0 <= i < slots.len() ==> #[trigger] candidates[i] == slot_candidate(
            accum,
            window_start,
            slots[i],
        ));
    assert forall|slot: int|
        0 <= slot < WINDOW_WIDTH && #[trigger] slot_set(bitmap, slot) implies candidates.contains(
        slot_candidate(accum, window_start, slot),
    ) by {
        let i = choose|i: int| 0 <= i < slots.len() && slots[i] == slot;
        assert(candidates[i] == slot_candidate(accum, window_start, slot));
    }
}

/// Where a window's scores are summed up: an accumulator for each slot, and a
/// bit for each slot that has been touched.
#[derive(Debug)]
pub struct WindowBuffer {
    pub accum: Vec<Weight>,
    pub bitmap: [u64; BITMAP_WORDS],
}

impl WindowBuffer {
    /// One accumulator for each slot.
    pub open spec fn wf(&self) -> bool {
        self.accum.len() == WINDOW_WIDTH
    }

    /// No slot is marked, and every accumulator is zero.
    pub open spec fn is_clear(&self) -> bool {
        &&& self.wf()
        &&& forall|w: int| 0 <= w < BITMAP_WORDS ==> #[trigger] self.bitmap@[w] == 0
        &&& forall|s: int|
            0 <= s < WINDOW_WIDTH ==> (#[trigger] self.accum@[s]).bits
                == crate::weight::ZERO_BITS
    }

    /// Only marked slots have accumulated anything.
    pub open spec fn is_consistent(&self) -> bool {
        &&& self.wf()
        &&& forall|s: int|
            0 <= s < WINDOW_WIDTH && !slot_set(self.bitmap@, s) ==> (#[trigger] self.accum@[s]).bits
                == crate::weight::ZERO_BITS
    }

    pub fn new() -> (b: WindowBuffer)
        ensures
            b.is_clear(),
    {
        let mut accum: Vec<Weight> = Vec::new();
        let mut s: usize = 0;
        while s < WINDOW_WIDTH as usize
            invariant
                s <= WINDOW_WIDTH,
                accum.len() == s,
                forall|i: int|
                    0 <= i < s ==> (#[trigger] accum@[i]).bits == crate::weight::ZERO_BITS,
            decreases WINDOW_WIDTH - s,
        {
            accum.push(Weight::zero());
            s = s + 1;
        }
        WindowBuffer { accum, bitmap: [0u64; BITMAP_WORDS] }
    }

    /// The candidates of the window that starts at `window_start`, as parallel
    /// lists of documents and scores.
    pub fn candidates(&self, window_start: u32) -> (out: (Vec<u32>, Vec<Weight>))
        requires
            self.wf(),
            window_start + WINDOW_WIDTH - 1 <= u32::MAX,
        ensures
            out.0.len() == out.1.len(),
            paired(out.0@, out.1@) == window_candidates(self.bitmap@, self.accum@, window_start),
    {
        let mut docs: Vec<u32> = Vec::new();
        let mut scores: Vec<Weight> = Vec::new();
        let ghost candidate = |slot: int| slot_candidate(self.accum@, window_start, slot);
        let mut w: usize = 0;
        while w < BITMAP_WORDS
            invariant
                self.wf(),
                window_start + WINDOW_WIDTH - 1 <= u32::MAX,
                w <= BITMAP_WORDS,
                docs.len() == scores.len(),
                candidate == (|slot: int| slot_candidate(self.accum@, window_start, slot)),
                paired(docs@, scores@) == marked_slots(self.bitmap@, (w * 64) as nat).map_values(
                    candidate,
                ),
            decreases BITMAP_WORDS - w,
        {
            let word: u64 = self.bitmap[w];
            let mut bits: u64 = word;
            let ghost mut pos: int = 0;
            while bits != 0
                invariant
                    self.wf(),
                    window_start + WINDOW_WIDTH - 1 <= u32::MAX,
                    w < BITMAP_WORDS,
                    word == self.bitmap@[w as int],
                    0 <= pos <= 64,
                    forall|b: int|
                        0 <= b < 64 ==> (#[trigger] bit_set(bits, b) <==> bit_set(word, b) && b
                            >= pos),
                    docs.len() == scores.len(),
                    candidate == (|slot: int| slot_candidate(self.accum@, window_start, slot)),
                    paired(docs@, scores@) == marked_slots(
                        self.bitmap@,
                        (w * 64 + pos) as nat,
                    ).map_values(candidate),
                decreases bits,
            {
                let bit: usize = bits.trailing_zeros() as usize;
                proof {
                    lemma_clear_lowest(bits, bit as u64);
                    let from = w * 64 + pos;
                    let to = w * 64 + bit;
                    assert forall|s: int| from <= s < to implies !#[trigger] slot_set(
                        self.bitmap@,
                        s,
                    ) by {
                        assert(!bit_set(bits, s % 64));
                    }
                    lemma_unmarked_run(self.bitmap@, from as nat, to as nat);
                    assert(bit_set(bits, bit as int));
                    assert(slot_set(self.bitmap@, to));
                    let below = marked_slots(self.bitmap@, to as nat);
                    assert(marked_slots(self.bitmap@, (to + 1) as nat) == below.push(to));
                    assert(below.push(to).map_values(candidate) =~= below.map_values(
                        candidate,
                    ).push(candidate(to)));
                    pos = bit + 1;
                }
                let idx: usize = w * 64 + bit;
                let ghost listed = paired(docs@, scores@);
                docs.push(window_start + (idx as u32));
                scores.push(self.accum[idx]);
                assert(paired(docs@, scores@) =~= listed.push(candidate(idx as int)));
                bits = bits & (bits - 1);
            }
            proof {
                let from = w * 64 + pos;
                assert forall|s: int| from <= s < w * 64 + 64 implies !#[trigger] slot_set(
                    self.bitmap@,
                    s,
                ) by {
                    let b = (s % 64) as u64;
                    assert((0u64 >> b) & 1 == 0) by (bit_vector);
                    assert(!bit_set(bits, s % 64));
                }
                lemma_unmarked_run(self.bitmap@, from as nat, (w * 64 + 64) as nat);
            }
            w = w + 1;
        }
        (docs, scores)
    }

    /// Zeroes the marked accumulators and clears the marks.
    pub fn clear(&mut self)
        requires
            old(self).wf(),
        ensures
            final(self).wf(),
            forall|w: int| 0 <= w < BITMAP_WORDS ==> #[trigger] final(self).bitmap@[w] == 0,
            forall|s: int|
                0 <= s < WINDOW_WIDTH ==> #[trigger] final(self).accum@[s] == (if slot_set(
                    old(self).bitmap@,
                    s,
                ) {
                    Weight { bits: crate::weight::ZERO_BITS }
                } else {
                    old(self).accum@[s]
                }),
            old(self).is_consistent() ==> final(self).is_clear(),
    {
        let mut w: usize = 0;
        while w < BITMAP_WORDS
            invariant
                self.wf(),
                old(self).wf(),
                w <= BITMAP_WORDS,
                forall|v: int| 0 <= v < w ==> #[trigger] self.bitmap@[v] == 0,
                forall|v: int|
                    w <= v < BITMAP_WORDS ==> #[trigger] self.bitmap@[v] == old(self).bitmap@[v],
                forall|s: int|
                    0 <= s < WINDOW_WIDTH ==> #[trigger] self.accum@[s] == (if s < w * 64
                        && slot_set(old(self).bitmap@, s) {
                        Weight { bits: crate::weight::ZERO_BITS }
                    } else {
                        old(self).accum@[s]
                    }),
            decreases BITMAP_WORDS - w,
        {
            let word: u64 = self.bitmap[w];
            let mut bits: u64 = word;
            let ghost mut pos: int = 0;
            while bits != 0
                invariant
                    self.wf(),
                    w < BITMAP_WORDS,
                    word == old(self).bitmap@[w as int],
                    0 <= pos <= 64,
                    forall|v: int| 0 <= v < w ==> #[trigger] self.bitmap@[v] == 0,
                    forall|v: int|
                        w <= v < BITMAP_WORDS ==> #[trigger] self.bitmap@[v] == old(
                            self,
                        ).bitmap@[v],
                    forall|b: int|
                        0 <= b < 64 ==> (#[trigger] bit_set(bits, b) <==> bit_set(word, b) && b
                            >= pos),
                    forall|s: int|
                        0 <= s < WINDOW_WIDTH ==> #[trigger] self.accum@[s] == (if s < w * 64
                            + pos && slot_set(old(self).bitmap@, s) {
                            Weight { bits: crate::weight::ZERO_BITS }
                        } else {
                            old(self).accum@[s]
                        }),
                decreases bits,
            {
                let bit: usize = bits.trailing_zeros() as usize;
                proof {
                    lemma_clear_lowest(bits, bit as u64);
                    assert(bit_set(bits, bit as int));
                }
                let idx: usize = w * 64 + bit;
                self.accum[idx] = Weight::zero();
                proof {
                    assert forall|s: int| 0 <= s < WINDOW_WIDTH implies #[trigger] self.accum@[s]
                        == (if s < w * 64 + bit + 1 && slot_set(old(self).bitmap@, s) {
                        Weight { bits: crate::weight::ZERO_BITS }
                    } else {
                        old(self).accum@[s]
                    }) by {
                        if w * 64 + pos <= s < idx {
                            assert(!bit_set(bits, s % 64));
                        }
                    }
                    pos = bit + 1;
                }
                bits = bits & (bits - 1);
            }
            self.bitmap[w] = 0;
            proof {
                assert forall|s: int| 0 <= s < WINDOW_WIDTH implies #[trigger] self.accum@[s]
                    == (if s < (w + 1) * 64 && slot_set(old(self).bitmap@, s) {
                    Weight { bits: crate::weight::ZERO_BITS }
                } else {
                    old(self).accum@[s]
                }) by {
                    if w * 64 + pos <= s < (w + 1) * 64 {
                        let b = (s % 64) as u64;
                        assert((0u64 >> b) & 1 == 0) by (bit_vector);
                        assert(!bit_set(bits, s % 64));
                    }
                }
            }
            w = w + 1;
        }
    }
}

/// Removes the candidates whose score does not exceed the cutoff; the others
/// keep their order.
pub fn filter_competitive(cand_docs: &mut Vec<u32>, cand_scores: &mut Vec<Weight>, cutoff: Weight)
    requires
        old(cand_docs).len() == old(cand_scores).len(),
    ensures
        final(cand_docs).len() == final(cand_scores).len(),
        paired(final(cand_docs)@, final(cand_scores)@) == paired(
            old(cand_docs)@,
            old(cand_scores)@,
        ).filter(|c: Score| c.score.gt(cutoff)),
{
    let n: usize = cand_docs.len();
    let mut write: usize = 0;
    let mut i: usize = 0;
    let ghost all = paired(cand_docs@, cand_scores@);
    let ghost keep = |c: Score| c.score.gt(cutoff);
    proof {
        reveal(Seq::filter);
        assert(all.take(0).filter(keep) =~= Seq::<Score>::empty());
    }
    while i < n
        invariant
            write <= i <= n,
            n == all.len(),
            cand_docs.len() == n,
            cand_scores.len() == n,
            all == paired(old(cand_docs)@, old(cand_scores)@),
            keep == (|c: Score| c.score.gt(cutoff)),
            forall|j: int|
                i <= j < n ==> (#[trigger] all[j]) == (Score {
                    score: cand_scores@[j],
                    offset: cand_docs@[j],
                }),
            paired(cand_docs@.take(write as int), cand_scores@.take(write as int)) == all.take(
                i as int,
            ).filter(keep),
        decreases n - i,
    {
        let ghost kept = all.take(i as int).filter(keep);
        proof {
            reveal(Seq::filter);
            assert(all.take(i + 1).drop_last() =~= all.take(i as int));
            assert(all[i as int] == all.take(i + 1).last());
        }
        if cand_scores[i].exceeds(cutoff) {
            cand_docs[write] = cand_docs[i];
            cand_scores[write] = cand_scores[i];
            write = write + 1;
            assert(paired(cand_docs@.take(write as int), cand_scores@.take(write as int)) =~= kept.push(
                all[i as int],
            )) by {
                let before = kept;
                assert forall|j: int| 0 <= j < write - 1 implies (#[trigger] before[j]) == (Score {
                    score: cand_scores@[j],
                    offset: cand_docs@[j],
                }) by {}
            }
        }
        i = i + 1;
    }
    cand_docs.truncate(write);
    cand_scores.truncate(write);
    assert(all.take(n as int) =~= all);
}

/// A slot is marked when its bit is set: the bit `slot % 64` of the word
/// `slot / 64`. Its candidate is the document that many places into the window,
/// with what was accumulated there.
pub proof fn law_slots_are_bits(
    bitmap: Seq<u64>,
    accum: Seq<Weight>,
    window_start: u32,
    slot: int,
)
    requires
        0 <= slot < 4096,
        window_start + 4095 <= u32::MAX,
    ensures
        slot_set(bitmap, slot) <==> (bitmap[slot / 64] >> ((slot % 64) as u64)) & 1 == 1,
        slot_candidate(accum, window_start, slot).offset == window_start + slot,
        slot_candidate(accum, window_start, slot).score == accum[slot],
        WINDOW_WIDTH == 4096,
        BITMAP_WORDS == 64,
{
}

/// Parallel lists of one length are paired place by place.
pub proof fn law_pairs_stand_in_place(docs: Seq<u32>, scores: Seq<Weight>)
    ensures
        paired(docs, scores).len() == docs.len(),
        forall|i: int|
            0 <= i < docs.len() ==> (#[trigger] paired(docs, scores)[i]).offset == docs[i]
                && paired(docs, scores)[i].score == scores[i],
{
}

/// What filtering keeps: exactly the places whose score exceeds the cutoff, in
/// order, document and score together.
pub proof fn law_filtering_keeps_what_exceeds(
    docs: Seq<u32>,
    scores: Seq<Weight>,
    cutoff: Weight,
    kept_docs: Seq<u32>,
    kept_scores: Seq<Weight>,
) -> (at: Seq<int>)
    requires
        docs.len() == scores.len(),
        kept_docs.len() == kept_scores.len(),
        paired(kept_docs, kept_scores) == paired(docs, scores).filter(
            |c: Score| c.score.gt(cutoff),
        ),
    ensures
        at.len() == kept_docs.len(),
        forall|i: int|
            0 <= i < at.len() ==> 0 <= (#[trigger] at[i]) < docs.len() && kept_docs[i]
                == docs[at[i]] && kept_scores[i] == scores[at[i]],
        forall|i: int, j: int|
            #![trigger at[i], at[j]]
            0 <= i < j < at.len() ==> at[i] < at[j],
        forall|p: int|
            #![trigger scores[p]]
            0 <= p < docs.len() ==> (scores[p].gt(cutoff) <==> exists|i: int|
                0 <= i < at.len() && #[trigger] at[i] == p),
{
    let all = paired(docs, scores);
    let kept = paired(kept_docs, kept_scores);
    let at = crate::order::lemma_filter_places(all, |c: Score| c.score.gt(cutoff));
    assert forall|i: int| 0 <= i < at.len() implies 0 <= (#[trigger] at[i]) < docs.len()
        && kept_docs[i] == docs[at[i]] && kept_scores[i] == scores[at[i]] by {
        assert(kept[i] == all[at[i]]);
    }
    assert forall|p: int|
        #![trigger scores[p]]
        0 <= p < docs.len() implies (scores[p].gt(cutoff) <==> exists|i: int|
        0 <= i < at.len() && #[trigger] at[i] == p) by {
        assert(all[p].score == scores[p]);
    }
    at
}

/// A clear buffer holds nothing: no bit is set, and every one of its 4096
/// accumulators is zero. A consistent one may hold something in marked slots
/// only.
pub proof fn law_clear_buffer_holds_nothing(buffer: WindowBuffer)
    ensures
        buffer.wf() <==> buffer.accum@.len() == 4096,
        buffer.is_clear() <==> {
            &&& buffer.accum@.len() == 4096
            &&& forall|w: int| 0 <= w < 64 ==> #[trigger] buffer.bitmap@[w] == 0
            &&& forall|s: int| 0 <= s < 4096 ==> (#[trigger] buffer.accum@[s]).bits == 0
        },
        buffer.is_consistent() <==> {
            &&& buffer.accum@.len() == 4096
            &&& forall|s: int|
                0 <= s < 4096 && (#[trigger] buffer.accum@[s]).bits != 0 ==> (buffer.bitmap@[s
                    / 64] >> ((s % 64) as u64)) & 1 == 1
        },
{
}

} // verus!
