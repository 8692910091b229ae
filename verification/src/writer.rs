//! Writing: updates are collected per dimension, and a commit turns them into
//! changes to the stored posting lists.

use vstd::prelude::*;

use crate::delta::Delta;
use crate::delta::Updates;
use crate::layout::BlockOp;
use crate::layout::DirectoryOp;
use crate::weight::Weight;

verus! {

/// Collects updates until they are committed.
pub struct BlockSparseWriter {
    block_size: u32,
    delta: Delta,
}

/// What a writer holds: its block size, and for each dimension and offset that
/// was updated the bits of the value, or `None` for a deletion.
pub struct WriterState {
    pub block_size: u32,
    pub delta: Map<u32, Map<u32, Option<u32>>>,
}

/// The updates with more of them for one offset, each given by its dimension.
pub open spec fn recorded(
    delta: Map<u32, Map<u32, Option<u32>>>,
    offset: u32,
    updates: Seq<(u32, Option<u32>)>,
) -> Map<u32, Map<u32, Option<u32>>>
    decreases updates.len(),
{
    if updates.len() == 0 {
        delta
    } else {
        crate::delta::with_update(
            recorded(delta, offset, updates.drop_last()),
            updates.last().0,
            offset,
            updates.last().1,
        )
    }
}

/// The updates that set a sparse vector.
pub open spec fn set_updates(sparse_vector: Seq<(u32, Weight)>) -> Seq<(u32, Option<u32>)> {
    sparse_vector.map_values(|e: (u32, Weight)| (e.0, Some(e.1.bits)))
}

/// The updates that delete some dimensions.
pub open spec fn delete_updates(sparse_indices: Seq<u32>) -> Seq<(u32, Option<u32>)> {
    sparse_indices.map_values(|d: u32| (d, None::<u32>))
}

impl BlockSparseWriter {
    pub closed spec fn view(&self) -> WriterState {
        WriterState { block_size: self.block_size, delta: crate::delta::delta_of(self.delta) }
    }

    pub fn new() -> (w: BlockSparseWriter)
        ensures
            w@.block_size == crate::layout::DEFAULT_BLOCK_SIZE,
            w@.delta == crate::delta::no_updates(),
    {
        BlockSparseWriter {
            block_size: crate::layout::DEFAULT_BLOCK_SIZE,
            delta: crate::delta::new_delta(),
        }
    }

    pub fn with_block_size(self, block_size: u32) -> (w: BlockSparseWriter)
        ensures
            w@ == (WriterState { block_size, ..self@ }),
    {
        BlockSparseWriter { block_size, delta: self.delta }
    }

    /// Sets the values of a document; of two for one dimension, the later
    /// counts.
    pub fn set(&mut self, offset: u32, sparse_vector: &Vec<(u32, Weight)>)
        ensures
            final(self)@ == (WriterState {
                delta: recorded(old(self)@.delta, offset, set_updates(sparse_vector@)),
                ..old(self)@
            }),
            forall|i: int|
                0 <= i < sparse_vector@.len() && (forall|j: int|
                    i < j < sparse_vector@.len() ==> (#[trigger] sparse_vector@[j]).0 != sparse_vector@[i].0) ==> {
                    let d = (#[trigger] sparse_vector@[i]).0;
                    &&& final(self)@.delta.contains_key(d)
                    &&& final(self)@.delta[d].contains_key(offset)
                    &&& final(self)@.delta[d][offset] == Some(sparse_vector@[i].1.bits)
                },
            forall|d: u32|
                #![trigger final(self)@.delta.contains_key(d)]
                (forall|i: int| 0 <= i < sparse_vector@.len() ==> (#[trigger] sparse_vector@[i]).0 != d)
                    ==> final(self)@.delta.contains_key(d) == old(self)@.delta.contains_key(d) && (
                old(self)@.delta.contains_key(d) ==> final(self)@.delta[d] == old(self)@.delta[d]),
            forall|d: u32, o: u32|
                #![trigger final(self)@.delta[d].dom().contains(o)]
                #![trigger old(self)@.delta[d].dom().contains(o)]
                o != offset ==> (final(self)@.delta.contains_key(d) && final(self)@.delta[d].contains_key(o)) == (
                old(self)@.delta.contains_key(d) && old(self)@.delta[d].contains_key(o)) && (
                old(self)@.delta.contains_key(d) && old(self)@.delta[d].contains_key(o)
                    ==> final(self)@.delta[d][o] == old(self)@.delta[d][o]),
    {
        let mut i: usize = 0;
        let ghost updates = set_updates(sparse_vector@);
        while i < sparse_vector.len()
            invariant
                i <= sparse_vector.len(),
                updates == set_updates(sparse_vector@),
                self@ == (WriterState {
                    delta: recorded(old(self)@.delta, offset, updates.take(i as int)),
                    ..old(self)@
                }),
            decreases sparse_vector.len() - i,
        {
            let entry: (u32, Weight) = sparse_vector[i];
            proof {
                let now = updates.take(i + 1);
                assert(now.drop_last() =~= updates.take(i as int));
                assert(now.last() == (entry.0, Some(entry.1.bits)));
            }
            crate::delta::record_update(
                &mut self.delta,
                entry.0,
                offset,
                Some(entry.1.to_bits()),
            );
            i = i + 1;
        }
        proof {
            assert(updates.take(i as int) =~= updates);
            law_set_records_the_vector(old(self)@.delta, offset, sparse_vector@);
        }
    }

    /// Deletes a document's values in some dimensions.
    pub fn delete(&mut self, offset: u32, sparse_indices: &Vec<u32>)
        ensures
            final(self)@ == (WriterState {
                delta: recorded(old(self)@.delta, offset, delete_updates(sparse_indices@)),
                ..old(self)@
            }),
            forall|i: int|
                0 <= i < sparse_indices@.len() ==> {
                    let d = #[trigger] sparse_indices@[i];
                    &&& final(self)@.delta.contains_key(d)
                    &&& final(self)@.delta[d].contains_key(offset)
                    &&& final(self)@.delta[d][offset] == None::<u32>
                },
            forall|d: u32|
                #![trigger final(self)@.delta.contains_key(d)]
                (forall|i: int| 0 <= i < sparse_indices@.len() ==> #[trigger] sparse_indices@[i] != d)
                    ==> final(self)@.delta.contains_key(d) == old(self)@.delta.contains_key(d) && (
                old(self)@.delta.contains_key(d) ==> final(self)@.delta[d] == old(self)@.delta[d]),
            forall|d: u32, o: u32|
                #![trigger final(self)@.delta[d].dom().contains(o)]
                #![trigger old(self)@.delta[d].dom().contains(o)]
                o != offset ==> (final(self)@.delta.contains_key(d) && final(self)@.delta[d].contains_key(o)) == (
                old(self)@.delta.contains_key(d) && old(self)@.delta[d].contains_key(o)) && (
                old(self)@.delta.contains_key(d) && old(self)@.delta[d].contains_key(o)
                    ==> final(self)@.delta[d][o] == old(self)@.delta[d][o]),
    {
        let mut i: usize = 0;
        let ghost updates = delete_updates(sparse_indices@);
        while i < sparse_indices.len()
            invariant
                i <= sparse_indices.len(),
                updates == delete_updates(sparse_indices@),
                self@ == (WriterState {
                    delta: recorded(old(self)@.delta, offset, updates.take(i as int)),
                    ..old(self)@
                }),
            decreases sparse_indices.len() - i,
        {
            let dimension_id: u32 = sparse_indices[i];
            proof {
                let now = updates.take(i + 1);
                assert(now.drop_last() =~= updates.take(i as int));
                assert(now.last() == (dimension_id, None::<u32>));
            }
            crate::delta::record_update(&mut self.delta, dimension_id, offset, None);
            i = i + 1;
        }
        proof {
            assert(updates.take(i as int) =~= updates);
            law_delete_records_the_deletions(old(self)@.delta, offset, sparse_indices@);
        }
    }

    /// The dimensions that have updates or are stored, in rising order.
    pub fn dimension_ids(&self, stored: &Vec<u32>) -> (ids: Vec<u32>)
        ensures
            crate::dimension::is_rising(ids@),
            forall|i: int, j: int|
                #![trigger ids@[i], ids@[j]]
                0 <= i < j < ids.len() ==> ids@[i] < ids@[j],
            forall|id: u32|
                ids@.contains(id) <==> self@.delta.contains_key(id) || stored@.contains(id),
    {
        let updated: Vec<u32> = crate::delta::updated_dimensions(&self.delta);
        crate::dimension::merged_ids(&updated, stored)
    }

    /// Begins a commit of the given dimensions, in the order of their encoded
    /// keys. The writer keeps the updates of a dimension until the commit comes
    /// to it.
    pub fn commit(&self, dimension_ids: Vec<u32>, encoded: &Vec<Vec<u8>>) -> (c: Commit)
        requires
            dimension_ids.len() == encoded.len(),
        ensures
            c.wf(),
            c@.block_size == self@.block_size,
            c@.dimension_ids == dimension_ids@,
            crate::order::is_stable_order(encoded@, c@.pending),
    {
        let order: Vec<usize> = crate::order::stable_order(encoded);
        let c: Commit = Commit { block_size: self.block_size, dimension_ids, order, done: 0 };
        assert(c@.pending =~= order@);
        c
    }
}

/// A commit between two dimensions.
pub struct Commit {
    block_size: u32,
    dimension_ids: Vec<u32>,
    order: Vec<usize>,
    done: usize,
}

/// What a commit has still to do: the dimensions, and the positions of those
/// that have not been looked at.
pub struct CommitState {
    pub block_size: u32,
    pub dimension_ids: Seq<u32>,
    pub pending: Seq<usize>,
}

impl CommitState {
    pub open spec fn wf(self) -> bool {
        forall|i: int|
            0 <= i < self.pending.len() ==> (#[trigger] self.pending[i])
                < self.dimension_ids.len()
    }

    /// The dimension that is number `i` among those that are pending.
    pub open spec fn pending_id(self, i: int) -> u32 {
        self.dimension_ids[self.pending[i] as int]
    }

    /// The first `n` pending dimensions have no updates.
    pub open spec fn untouched(self, delta: Map<u32, Map<u32, Option<u32>>>, n: int) -> bool {
        forall|i: int| 0 <= i < n ==> !delta.contains_key(#[trigger] self.pending_id(i))
    }

    /// Every dimension with updates is still pending.
    pub open spec fn accounts_for_updates(self, delta: Map<u32, Map<u32, Option<u32>>>) -> bool {
        forall|id: u32| #[trigger]
            delta.contains_key(id) ==> exists|i: int|
                0 <= i < self.pending.len() && #[trigger] self.pending_id(i) == id
    }

    /// The state after the pending dimension number `n` was taken up.
    pub open spec fn after(self, n: int) -> CommitState {
        CommitState { pending: self.pending.skip(n + 1), ..self }
    }
}

/// Waits for the stored blocks of a dimension.
pub struct DimensionStep {
    commit: Commit,
    position: usize,
    updates: Updates,
}

/// Has the postings that a dimension is to have.
pub struct PlanStep {
    commit: Commit,
    entries: Vec<(u32, Weight)>,
    old_blocks: usize,
}

/// Waits for the last offsets and greatest weights of the blocks that were set.
pub struct DirectoryStep {
    commit: Commit,
    blocks: usize,
}

/// What a commit does next.
pub enum CommitStep {
    /// Another dimension has updates.
    Dimension(DimensionStep),
    /// All updates have been turned into changes.
    Finished,
}

impl Commit {
    pub closed spec fn view(&self) -> CommitState {
        CommitState {
            block_size: self.block_size,
            dimension_ids: self.dimension_ids@,
            pending: self.order@.skip(self.done as int),
        }
    }

    pub closed spec fn wf(&self) -> bool {
        self@.wf() && self.done <= self.order.len()
    }

    /// Goes on to the next dimension with updates and takes them out of the
    /// writer; the other dimensions stay as they are.
    pub fn next(self, writer: &mut BlockSparseWriter) -> (step: CommitStep)
        requires
            self.wf(),
        ensures
            match step {
                CommitStep::Finished => {
                    &&& self@.untouched(old(writer)@.delta, self@.pending.len() as int)
                    &&& final(writer)@ == old(writer)@
                },
                CommitStep::Dimension(d) => {
                    &&& d.wf()
                    &&& exists|n: int|
                        {
                            &&& 0 <= n < self@.pending.len()
                            &&& self@.untouched(old(writer)@.delta, n)
                            &&& old(writer)@.delta.contains_key(#[trigger] self@.pending_id(n))
                            &&& d.position() == self@.pending[n]
                            &&& d.updates() == old(writer)@.delta[self@.pending_id(n)]
                            &&& d@ == self@.after(n)
                            &&& final(writer)@ == (WriterState {
                                delta: old(writer)@.delta.remove(self@.pending_id(n)),
                                ..old(writer)@
                            })
                        }
                },
            },
    {
        let mut commit: Commit = self;
        let ghost start = self@;
        let ghost order = self.order@;
        let ghost first = self.done as int;
        let ghost held = writer@;
        while commit.done < commit.order.len()
            invariant
                start == self@,
                start.wf(),
                order == self.order@,
                order == commit.order@,
                first == self.done,
                first <= commit.done <= order.len(),
                start.pending == order.skip(first),
                commit.wf(),
                commit@ == (CommitState { pending: order.skip(commit.done as int), ..start }),
                held == old(writer)@,
                writer@ == held,
                start.untouched(held.delta, commit.done - first),
            decreases commit.order.len() - commit.done,
        {
            let position: usize = commit.order[commit.done];
            let ghost n = commit.done - first;
            proof {
                assert(commit@.pending[0] == position);
                assert(start.pending[n] == position);
            }
            let dimension_id: u32 = commit.dimension_ids[position];
            assert(start.pending_id(n) == dimension_id);
            let taken: Option<Updates> = crate::delta::take_updates(
                &mut writer.delta,
                dimension_id,
            );
            commit.done = commit.done + 1;
            assert(commit@.pending =~= start.pending.skip(n + 1));
            match taken {
                Some(updates) => {
                    return CommitStep::Dimension(DimensionStep { commit, position, updates });
                },
                None => {
                    assert(held.delta.remove(dimension_id) =~= held.delta);
                },
            }
        }
        CommitStep::Finished
    }
}

impl DimensionStep {
    pub closed spec fn view(&self) -> CommitState {
        self.commit@
    }

    pub closed spec fn wf(&self) -> bool {
        self.commit.wf()
    }

    pub closed spec fn position(&self) -> usize {
        self.position
    }

    pub closed spec fn updates(&self) -> Map<u32, Option<u32>> {
        crate::delta::updates_of(self.updates)
    }

    /// Where the dimension stands in the list of dimensions.
    pub fn dimension_index(&self) -> (i: usize)
        ensures
            i == self.position(),
    {
        self.position
    }

    /// Takes the dimension's stored blocks and merges the updates into them.
    pub fn merge(self, old_blocks: &Vec<Vec<(u32, Weight)>>) -> (step: PlanStep)
        requires
            self.wf(),
        ensures
            step.wf(),
            step@ == self@,
            step.old_blocks() == old_blocks.len(),
            ({
                let postings = crate::postings::merged(
                    crate::postings::stored(crate::postings::block_entries(old_blocks@)),
                    self.updates(),
                );
                &&& crate::postings::is_listing(step.entries(), postings)
                &&& step.entries() == crate::postings::listing(postings)
            }),
            forall|x: int, y: int|
                #![trigger step.entries()[x], step.entries()[y]]
                0 <= x < y < step.entries().len() ==> step.entries()[x].0 < step.entries()[y].0,
            forall|offset: u32| #[trigger]
                self.updates().contains_key(offset) ==> match self.updates()[offset] {
                    Some(bits) => step.entries().contains((offset, Weight { bits })),
                    None => forall|x: int| 0 <= x < step.entries().len() ==> (#[trigger] step.entries()[x]).0 != offset,
                },
            forall|b: int, i: int|
                0 <= b < old_blocks@.len() && 0 <= i < old_blocks@[b]@.len() && !self.updates().contains_key(
                    (#[trigger] old_blocks@[b]@[i]).0,
                ) && (forall|c: int, j: int|
                    0 <= c < old_blocks@.len() && 0 <= j < old_blocks@[c]@.len() && (c > b || (c == b && j > i))
                        ==> (#[trigger] old_blocks@[c]@[j]).0 != old_blocks@[b]@[i].0) ==> step.entries().contains(
                    old_blocks@[b]@[i],
                ),
            forall|x: int|
                0 <= x < step.entries().len() && !self.updates().contains_key((#[trigger] step.entries()[x]).0) ==> exists|b: int, i: int|
                    0 <= b < old_blocks@.len() && 0 <= i < old_blocks@[b]@.len() && #[trigger] old_blocks@[b]@[i] == step.entries()[x],
    {
        let entries: Vec<(u32, Weight)> = crate::postings::merge_postings(
            old_blocks,
            self.updates,
        );
        PlanStep { commit: self.commit, entries, old_blocks: old_blocks.len() }
    }
}

impl PlanStep {
    pub closed spec fn view(&self) -> CommitState {
        self.commit@
    }

    pub closed spec fn wf(&self) -> bool {
        self.commit.wf()
    }

    /// The postings that the dimension is to have.
    pub closed spec fn entries(&self) -> Seq<(u32, Weight)> {
        self.entries@
    }

    pub closed spec fn old_blocks(&self) -> nat {
        self.old_blocks as nat
    }

    /// Whether the postings can be laid out: without any there is nothing to
    /// cut into blocks.
    pub fn can_plan(&self) -> (b: bool)
        ensures
            b == (self@.block_size > 0 || self.entries().len() == 0),
    {
        self.commit.block_size > 0 || self.entries.len() == 0
    }

    /// The changes to the blocks that store the postings.
    pub fn plan(self) -> (out: (Vec<BlockOp>, DirectoryStep))
        requires
            self.wf(),
            self@.block_size > 0 || self.entries().len() == 0,
        ensures
            crate::layout::planned(out.0@) == crate::layout::plan_ops(
                self.entries(),
                self@.block_size as nat,
                self.old_blocks(),
            ),
            out.1.wf(),
            out.1@ == self@,
            out.1.blocks() == crate::layout::chunk_count(
                self.entries().len(),
                self@.block_size as nat,
            ),
    {
        let block_size: u32 = self.commit.block_size;
        let ops: Vec<BlockOp> = crate::layout::plan_blocks(
            &self.entries,
            block_size,
            self.old_blocks,
        );
        let blocks: usize = crate::layout::block_count(self.entries.len(), block_size);
        (ops, DirectoryStep { commit: self.commit, blocks })
    }
}

impl DirectoryStep {
    pub closed spec fn view(&self) -> CommitState {
        self.commit@
    }

    pub closed spec fn wf(&self) -> bool {
        self.commit.wf()
    }

    /// How many blocks were set.
    pub closed spec fn blocks(&self) -> nat {
        self.blocks as nat
    }

    /// How many blocks were set.
    pub fn block_count(&self) -> (n: usize)
        ensures
            n == self.blocks(),
    {
        self.blocks
    }

    /// Takes the last offset and the greatest weight of each block that was
    /// set, in block order, and gives the change to the directory: it lists
    /// them, and it goes when no block was set.
    pub fn directory(self, maxima: &Vec<(u32, Weight)>) -> (out: (DirectoryOp, Commit))
        requires
            self.wf(),
            maxima.len() == self.blocks(),
        ensures
            out.0@ == crate::layout::directory_op(maxima@),
            out.0 is SetDirectory <==> maxima.len() > 0,
            out.0 matches DirectoryOp::SetDirectory(d) ==> {
                &&& d.max_offsets@ == maxima@.map_values(|m: (u32, Weight)| m.0)
                &&& d.max_weights@ == maxima@.map_values(|m: (u32, Weight)| m.1)
            },
            out.1.wf(),
            out.1@ == self@,
    {
        let op: DirectoryOp = if self.blocks == 0 {
            DirectoryOp::DeleteDirectory
        } else {
            DirectoryOp::SetDirectory(crate::reader::directory_of(maxima))
        };
        (op, self.commit)
    }
}

/// A commit of all dimensions that have updates begins with every one of them
/// pending.
pub proof fn law_commit_begins_with_all_updates(
    state: CommitState,
    delta: Map<u32, Map<u32, Option<u32>>>,
    encoded: Seq<Vec<u8>>,
)
    requires
        crate::order::is_stable_order(encoded, state.pending),
        encoded.len() == state.dimension_ids.len() <= usize::MAX,
        forall|id: u32| delta.contains_key(id) ==> #[trigger] state.dimension_ids.contains(id),
    ensures
        state.accounts_for_updates(delta),
{
    assert forall|id: u32| #[trigger] delta.contains_key(id) implies exists|i: int|
        0 <= i < state.pending.len() && #[trigger] state.pending_id(i) == id by {
        assert(state.dimension_ids.contains(id));
        let p = choose|p: int|
            0 <= p < state.dimension_ids.len() && state.dimension_ids[p] == id;
        assert(state.pending.contains(p as usize));
        let i = choose|i: int| 0 <= i < state.pending.len() && state.pending[i] == p as usize;
        assert(state.pending_id(i) == id);
    }
}

/// Taking up the first pending dimension with updates leaves the others with
/// updates pending.
pub proof fn law_commit_keeps_updates_pending(
    state: CommitState,
    delta: Map<u32, Map<u32, Option<u32>>>,
    n: int,
)
    requires
        state.accounts_for_updates(delta),
        0 <= n < state.pending.len(),
        state.untouched(delta, n),
    ensures
        state.after(n).accounts_for_updates(delta.remove(state.pending_id(n))),
{
    let after = state.after(n);
    let left = delta.remove(state.pending_id(n));
    assert forall|id: u32| #[trigger] left.contains_key(id) implies exists|i: int|
        0 <= i < after.pending.len() && #[trigger] after.pending_id(i) == id by {
        assert(delta.contains_key(id));
        let i = choose|i: int|
            0 <= i < state.pending.len() && #[trigger] state.pending_id(i) == id;
        assert(i > n);
        assert(after.pending[i - (n + 1)] == state.pending[i]);
        assert(after.pending_id(i - (n + 1)) == id);
    }
}

/// A commit that accounts for the updates finishes only when none is left.
pub proof fn law_finished_commit_has_no_updates_left(
    state: CommitState,
    delta: Map<u32, Map<u32, Option<u32>>>,
)
    requires
        state.accounts_for_updates(delta),
        state.untouched(delta, state.pending.len() as int),
    ensures
        delta == crate::delta::no_updates(),
{
    assert forall|id: u32| !#[trigger] delta.dom().contains(id) by {
        if delta.contains_key(id) {
            let i = choose|i: int|
                0 <= i < state.pending.len() && #[trigger] state.pending_id(i) == id;
        }
    }
    assert(delta =~= Map::<u32, Map<u32, Option<u32>>>::empty());
}

/// Recording updates for one offset: in each dimension the last one counts, and
/// nothing else changes.
pub proof fn law_last_update_counts(
    delta: Map<u32, Map<u32, Option<u32>>>,
    offset: u32,
    updates: Seq<(u32, Option<u32>)>,
    dimension_id: u32,
    other: u32,
)
    ensures
        ({
            let after = recorded(delta, offset, updates);
            &&& forall|i: int|
                0 <= i < updates.len() && (#[trigger] updates[i]).0 == dimension_id && (
                forall|j: int| i < j < updates.len() ==> (#[trigger] updates[j]).0 != dimension_id)
                    ==> after.contains_key(dimension_id) && after[dimension_id].contains_key(offset)
                    && after[dimension_id][offset] == updates[i].1
            &&& (forall|i: int| 0 <= i < updates.len() ==> (#[trigger] updates[i]).0 != dimension_id)
                ==> after.contains_key(dimension_id) == delta.contains_key(dimension_id)
                && after[dimension_id] == delta[dimension_id]
            &&& other != offset ==> (after.contains_key(dimension_id)
                && after[dimension_id].contains_key(other)) == (delta.contains_key(dimension_id)
                && delta[dimension_id].contains_key(other))
            &&& other != offset && delta.contains_key(dimension_id)
                && delta[dimension_id].contains_key(other) ==> after[dimension_id][other]
                == delta[dimension_id][other]
        }),
    decreases updates.len(),
{
    if updates.len() > 0 {
        let before = updates.drop_last();
        let n = updates.len() - 1;
        assert(forall|i: int| 0 <= i < before.len() ==> #[trigger] before[i] == updates[i]);
        assert(updates.last() == updates[n]);
        law_last_update_counts(delta, offset, before, dimension_id, other);
        let after = recorded(delta, offset, updates);
        assert forall|i: int|
            0 <= i < updates.len() && (#[trigger] updates[i]).0 == dimension_id && (forall|j: int|
                i < j < updates.len() ==> (#[trigger] updates[j]).0 != dimension_id) implies
            after.contains_key(dimension_id) && after[dimension_id].contains_key(offset)
            && after[dimension_id][offset] == updates[i].1 by {
            if i < n {
                assert(updates[n].0 != dimension_id);
                assert(before[i].0 == dimension_id);
                assert forall|j: int| i < j < before.len() implies (#[trigger] before[j]).0
                    != dimension_id by {
                    assert(updates[j].0 != dimension_id);
                }
            }
        }
        if forall|i: int| 0 <= i < updates.len() ==> (#[trigger] updates[i]).0 != dimension_id {
            assert(updates[n].0 != dimension_id);
            assert forall|i: int| 0 <= i < before.len() implies (#[trigger] before[i]).0
                != dimension_id by {
                assert(updates[i].0 != dimension_id);
            }
        }
    }
}

/// What setting a vector records, over the vector itself: in each of its
/// dimensions the last value given for it, under the document's offset; the
/// other dimensions and the other offsets keep what they had.
pub proof fn law_set_records_the_vector(
    delta: Map<u32, Map<u32, Option<u32>>>,
    offset: u32,
    sparse_vector: Seq<(u32, Weight)>,
)
    ensures
        ({
            let after = recorded(delta, offset, set_updates(sparse_vector));
            &&& forall|i: int|
                0 <= i < sparse_vector.len() && (forall|j: int|
                    i < j < sparse_vector.len() ==> (#[trigger] sparse_vector[j]).0 != sparse_vector[i].0) ==> {
                    let d = (#[trigger] sparse_vector[i]).0;
                    &&& after.contains_key(d)
                    &&& after[d].contains_key(offset)
                    &&& after[d][offset] == Some(sparse_vector[i].1.bits)
                }
            &&& forall|d: u32|
                #![trigger after.contains_key(d)]
                (forall|i: int| 0 <= i < sparse_vector.len() ==> (#[trigger] sparse_vector[i]).0 != d)
                    ==> after.contains_key(d) == delta.contains_key(d) && (
                delta.contains_key(d) ==> after[d] == delta[d])
            &&& forall|d: u32, o: u32|
                #![trigger after[d].dom().contains(o)]
                #![trigger delta[d].dom().contains(o)]
                o != offset ==> (after.contains_key(d) && after[d].contains_key(o)) == (
                delta.contains_key(d) && delta[d].contains_key(o)) && (
                delta.contains_key(d) && delta[d].contains_key(o)
                    ==> after[d][o] == delta[d][o])
        }),
{
    let updates = set_updates(sparse_vector);
    let after = recorded(delta, offset, updates);
    assert forall|d: u32|
        #![trigger after.contains_key(d)]
        (forall|i: int| 0 <= i < sparse_vector.len() ==> (#[trigger] sparse_vector[i]).0 != d) implies after.contains_key(
        d,
    ) == delta.contains_key(d) && (delta.contains_key(d) ==> after[d] == delta[d]) by {
        law_last_update_counts(delta, offset, updates, d, offset);
        assert forall|i: int| 0 <= i < updates.len() implies (#[trigger] updates[i]).0 != d by {
            assert(sparse_vector[i].0 != d);
        }
    }
    assert forall|d: u32, o: u32|
        #![trigger after[d].dom().contains(o)]
        #![trigger delta[d].dom().contains(o)]
        o != offset implies (after.contains_key(d) && after[d].contains_key(o)) == (
    delta.contains_key(d) && delta[d].contains_key(o)) && (delta.contains_key(d)
        && delta[d].contains_key(o) ==> after[d][o] == delta[d][o]) by {
        law_last_update_counts(delta, offset, updates, d, o);
    }
    assert forall|i: int|
        0 <= i < sparse_vector.len() && (forall|j: int|
            i < j < sparse_vector.len() ==> (#[trigger] sparse_vector[j]).0
                != sparse_vector[i].0) implies {
        let d = (#[trigger] sparse_vector[i]).0;
        &&& after.contains_key(d)
        &&& after[d].contains_key(offset)
        &&& after[d][offset] == Some(sparse_vector[i].1.bits)
    } by {
        let d = sparse_vector[i].0;
        law_last_update_counts(delta, offset, updates, d, offset);
        assert(updates[i].0 == d);
        assert forall|j: int| i < j < updates.len() implies (#[trigger] updates[j]).0 != d by {
            assert(sparse_vector[j].0 != d);
        }
    }
}

/// The last place of an item that occurs.
proof fn lemma_last_place(items: Seq<u32>, i: int) -> (last: int)
    requires
        0 <= i < items.len(),
    ensures
        i <= last < items.len(),
        items[last] == items[i],
        forall|j: int| last < j < items.len() ==> #[trigger] items[j] != items[i],
    decreases items.len() - i,
{
    if exists|j: int| i < j < items.len() && #[trigger] items[j] == items[i] {
        let j = choose|j: int| i < j < items.len() && #[trigger] items[j] == items[i];
        lemma_last_place(items, j)
    } else {
        i
    }
}

/// What deleting a document from dimensions records, over the list of dimensions
/// itself: a deletion of its offset in each of them; the other dimensions and the
/// other offsets keep what they had.
pub proof fn law_delete_records_the_deletions(
    delta: Map<u32, Map<u32, Option<u32>>>,
    offset: u32,
    sparse_indices: Seq<u32>,
)
    ensures
        ({
            let after = recorded(delta, offset, delete_updates(sparse_indices));
            &&& forall|i: int|
                0 <= i < sparse_indices.len() ==> {
                    let d = #[trigger] sparse_indices[i];
                    &&& after.contains_key(d)
                    &&& after[d].contains_key(offset)
                    &&& after[d][offset] == None::<u32>
                }
            &&& forall|d: u32|
                #![trigger after.contains_key(d)]
                (forall|i: int| 0 <= i < sparse_indices.len() ==> #[trigger] sparse_indices[i] != d)
                    ==> after.contains_key(d) == delta.contains_key(d) && (
                delta.contains_key(d) ==> after[d] == delta[d])
            &&& forall|d: u32, o: u32|
                #![trigger after[d].dom().contains(o)]
                #![trigger delta[d].dom().contains(o)]
                o != offset ==> (after.contains_key(d) && after[d].contains_key(o)) == (
                delta.contains_key(d) && delta[d].contains_key(o)) && (
                delta.contains_key(d) && delta[d].contains_key(o)
                    ==> after[d][o] == delta[d][o])
        }),
{
    let updates = delete_updates(sparse_indices);
    let after = recorded(delta, offset, updates);
    assert forall|d: u32|
        #![trigger after.contains_key(d)]
        (forall|i: int| 0 <= i < sparse_indices.len() ==> (#[trigger] sparse_indices[i]) != d) implies after.contains_key(
        d,
    ) == delta.contains_key(d) && (delta.contains_key(d) ==> after[d] == delta[d]) by {
        law_last_update_counts(delta, offset, updates, d, offset);
        assert forall|i: int| 0 <= i < updates.len() implies (#[trigger] updates[i]).0 != d by {
            assert(sparse_indices[i] != d);
        }
    }
    assert forall|d: u32, o: u32|
        #![trigger after[d].dom().contains(o)]
        #![trigger delta[d].dom().contains(o)]
        o != offset implies (after.contains_key(d) && after[d].contains_key(o)) == (
    delta.contains_key(d) && delta[d].contains_key(o)) && (delta.contains_key(d)
        && delta[d].contains_key(o) ==> after[d][o] == delta[d][o]) by {
        law_last_update_counts(delta, offset, updates, d, o);
    }
    assert forall|i: int| 0 <= i < sparse_indices.len() implies {
        let d = #[trigger] sparse_indices[i];
        &&& after.contains_key(d)
        &&& after[d].contains_key(offset)
        &&& after[d][offset] == None::<u32>
    } by {
        let d = sparse_indices[i];
        let last = lemma_last_place(sparse_indices, i);
        law_last_update_counts(delta, offset, updates, d, offset);
        assert(updates[last].0 == d);
        assert forall|j: int| last < j < updates.len() implies (#[trigger] updates[j]).0 != d by {
            assert(sparse_indices[j] != d);
        }
    }
}

/// What is pending in a commit, over its lists: dimension number `i` is the one
/// at the position that stands there; the first `n` are untouched when none of
/// these has updates; and taking up number `n` leaves those behind it.
pub proof fn law_pending_dimensions_are_listed(
    state: CommitState,
    delta: Map<u32, Map<u32, Option<u32>>>,
    n: int,
)
    requires
        0 <= n < state.pending.len(),
    ensures
        state.pending_id(n) == state.dimension_ids[state.pending[n] as int],
        state.untouched(delta, n) <==> forall|i: int|
            0 <= i < n ==> !delta.contains_key(
                state.dimension_ids[(#[trigger] state.pending[i]) as int],
            ),
        state.untouched(delta, state.pending.len() as int) <==> forall|i: int|
            0 <= i < state.pending.len() ==> !delta.contains_key(
                state.dimension_ids[(#[trigger] state.pending[i]) as int],
            ),
        state.after(n).pending.len() == state.pending.len() - n - 1,
        forall|i: int|
            n < i < state.pending.len() ==> state.after(n).pending[i - n - 1]
                == #[trigger] state.pending[i],
        state.after(n).dimension_ids == state.dimension_ids,
        state.after(n).block_size == state.block_size,
{
    assert forall|i: int| 0 <= i < state.pending.len() implies state.pending_id(i)
        == state.dimension_ids[(#[trigger] state.pending[i]) as int] by {}
    if state.untouched(delta, n) {
        assert forall|i: int| 0 <= i < n implies !delta.contains_key(
            state.dimension_ids[(#[trigger] state.pending[i]) as int],
        ) by {
            assert(!delta.contains_key(state.pending_id(i)));
        }
    }
    if state.untouched(delta, state.pending.len() as int) {
        assert forall|i: int| 0 <= i < state.pending.len() implies !delta.contains_key(
            state.dimension_ids[(#[trigger] state.pending[i]) as int],
        ) by {
            assert(!delta.contains_key(state.pending_id(i)));
        }
    }
}

} // verus!
