//! What the planned changes make of a stored posting list.

use vstd::prelude::*;

use crate::layout::PlannedOp;
use crate::layout::DIRECTORY_KEY;
use crate::reader::Directory;
use crate::weight::Weight;

verus! {

/// What is stored under a key of a dimension.
pub enum StoredValue {
    Postings(Seq<(u32, Weight)>),
    /// For each block its last offset and its greatest weight.
    Directory(Seq<(u32, Weight)>),
}

/// The keys and values of a dimension whose posting list has these blocks: the
/// blocks under their numbers, and when there are any, a directory with their
/// last offsets and greatest weights.
pub open spec fn laid_out(
    blocks: Seq<Seq<(u32, Weight)>>,
    maxima: Seq<(u32, Weight)>,
) -> Map<u32, StoredValue> {
    Map::new(
        |key: u32| key < blocks.len() || (key == DIRECTORY_KEY && blocks.len() > 0),
        |key: u32|
            if key == DIRECTORY_KEY {
                StoredValue::Directory(maxima)
            } else {
                StoredValue::Postings(blocks[key as int])
            },
    )
}

/// The effect of one change.
pub open spec fn apply_op(store: Map<u32, StoredValue>, op: PlannedOp) -> Map<u32, StoredValue> {
    match op {
        PlannedOp::SetBlock(seq, entries) => store.insert(seq, StoredValue::Postings(entries)),
        PlannedOp::DeleteBlock(seq) => store.remove(seq),
        PlannedOp::SetDirectory(maxima) => store.insert(
            DIRECTORY_KEY,
            StoredValue::Directory(maxima),
        ),
        PlannedOp::DeleteDirectory => store.remove(DIRECTORY_KEY),
    }
}

/// The effect of changes one after the other.
pub open spec fn apply_ops(store: Map<u32, StoredValue>, ops: Seq<PlannedOp>) -> Map<
    u32,
    StoredValue,
>
    decreases ops.len(),
{
    if ops.len() == 0 {
        store
    } else {
        apply_op(apply_ops(store, ops.drop_last()), ops.last())
    }
}

/// What a scan of the dimension's keys returns, by rising key.
pub open spec fn scan(
    blocks: Seq<Seq<(u32, Weight)>>,
    maxima: Seq<(u32, Weight)>,
) -> Seq<(u32, StoredValue)> {
    let listed = Seq::new(
        blocks.len(),
        |i: int| (i as u32, StoredValue::Postings(blocks[i])),
    );
    if blocks.len() > 0 {
        listed.push((DIRECTORY_KEY, StoredValue::Directory(maxima)))
    } else {
        listed
    }
}

proof fn lemma_apply_concat(store: Map<u32, StoredValue>, a: Seq<PlannedOp>, b: Seq<PlannedOp>)
    ensures
        apply_ops(store, a + b) == apply_ops(apply_ops(store, a), b),
    decreases b.len(),
{
    if b.len() == 0 {
        assert(a + b =~= a);
    } else {
        assert((a + b).drop_last() =~= a + b.drop_last());
        lemma_apply_concat(store, a, b.drop_last());
    }
}

/// Setting the first `n` blocks replaces those keys and no others.
proof fn lemma_apply_sets(
    store: Map<u32, StoredValue>,
    entries: Seq<(u32, Weight)>,
    block_size: nat,
    n: nat,
    key: u32,
)
    requires
        n <= DIRECTORY_KEY,
    ensures
        ({
            let after = apply_ops(store, crate::layout::set_ops(entries, block_size, n));
            if key < n {
                after.contains_key(key) && after[key] == StoredValue::Postings(
                    crate::layout::chunk(entries, block_size, key as int),
                )
            } else {
                after.contains_key(key) == store.contains_key(key) && after[key] == store[key]
            }
        }),
    decreases n,
{
    let ops = crate::layout::set_ops(entries, block_size, n);
    if n > 0 {
        let m = (n - 1) as nat;
        assert(ops.drop_last() =~= crate::layout::set_ops(entries, block_size, m));
        lemma_apply_sets(store, entries, block_size, m, key);
        assert(crate::layout::count32(m) == m);
    }
}

/// Deleting a run of blocks removes those keys and no others.
proof fn lemma_apply_deletes(store: Map<u32, StoredValue>, from: nat, to: nat, key: u32)
    requires
        to <= DIRECTORY_KEY,
    ensures
        ({
            let after = apply_ops(store, crate::layout::delete_ops(from, to));
            if from <= key < to {
                !after.contains_key(key)
            } else {
                after.contains_key(key) == store.contains_key(key) && after[key] == store[key]
            }
        }),
    decreases to,
{
    let ops = crate::layout::delete_ops(from, to);
    if from < to {
        let m = (to - 1) as nat;
        assert(ops.drop_last() =~= crate::layout::delete_ops(from, m));
        lemma_apply_deletes(store, from, m, key);
        assert(ops.last() == PlannedOp::DeleteBlock(m as u32));
    }
}

/// A plan replaces a posting list: whatever blocks and directory it had,
/// afterwards it is laid out in the blocks of the new postings, with a directory
/// of one entry for each, and without a block or a directory left over. (The
/// keys must suffice: there are fewer blocks than keys.)
pub proof fn law_plan_replaces_the_posting_list(
    old_blocks: Seq<Seq<(u32, Weight)>>,
    old_maxima: Seq<(u32, Weight)>,
    entries: Seq<(u32, Weight)>,
    block_size: nat,
    maxima: Seq<(u32, Weight)>,
)
    requires
        block_size > 0 || entries.len() == 0,
        old_blocks.len() <= DIRECTORY_KEY,
        crate::layout::chunk_count(entries.len(), block_size) <= DIRECTORY_KEY,
        maxima.len() == crate::layout::chunk_count(entries.len(), block_size),
    ensures
        apply_ops(
            laid_out(old_blocks, old_maxima),
            crate::layout::plan_ops(entries, block_size, old_blocks.len()).push(
                crate::layout::directory_op(maxima),
            ),
        ) == laid_out(crate::layout::chunks(entries, block_size), maxima),
{
    let store = laid_out(old_blocks, old_maxima);
    let old = old_blocks.len();
    let blocks = crate::layout::chunks(entries, block_size);
    let n = blocks.len();
    let ops = crate::layout::plan_ops(entries, block_size, old);
    let all = ops.push(crate::layout::directory_op(maxima));
    let after = apply_ops(store, all);
    let target = laid_out(blocks, maxima);
    assert(crate::layout::count32(old) == old);
    assert(crate::layout::count32(n) == n);
    assert(all.drop_last() =~= ops);
    assert forall|key: u32|
        #![trigger after.dom().contains(key)]
        #![trigger target.dom().contains(key)]
        #![trigger after[key]]
        after.dom().contains(key) == target.dom().contains(key) && (target.dom().contains(key)
            ==> after[key] == target[key]) by {
        let sets = crate::layout::set_ops(entries, block_size, n);
        let deletes = crate::layout::delete_ops(n, old);
        lemma_apply_concat(store, sets, deletes);
        lemma_apply_sets(store, entries, block_size, n, key);
        lemma_apply_deletes(apply_ops(store, sets), n, old, key);
    }
    assert(after =~= target);
}

/// Cutting postings into blocks: every block but the last is full, none is
/// empty, and together they hold the postings in order.
pub proof fn law_blocks_hold_the_postings(entries: Seq<(u32, Weight)>, block_size: nat)
    requires
        block_size > 0,
    ensures
        forall|j: int|
            0 <= j < crate::layout::chunks(entries, block_size).len() ==> 0 < (
            #[trigger] crate::layout::chunks(entries, block_size)[j]).len() <= block_size,
        forall|j: int|
            0 <= j < crate::layout::chunks(entries, block_size).len() - 1 ==> (
            #[trigger] crate::layout::chunks(entries, block_size)[j]).len() == block_size,
        crate::layout::chunks(entries, block_size).flatten() == entries,
{
    let blocks = crate::layout::chunks(entries, block_size);
    let n = blocks.len();
    assert forall|j: int| 0 <= j < n implies 0 < (#[trigger] blocks[j]).len() <= block_size && (j
        < n - 1 ==> blocks[j].len() == block_size) by {
        crate::layout::lemma_chunk_count(entries.len(), block_size, j as nat);
        crate::layout::lemma_chunk_count(entries.len(), block_size, (j + 1) as nat);
        assert((j + 1) * block_size == j * block_size + block_size) by (nonlinear_arith);
        assert(0 <= j * block_size) by (nonlinear_arith)
            requires
                j >= 0,
                block_size > 0,
        ;
    }
    lemma_chunks_flatten(entries, block_size, n);
    assert(blocks.take(n as int) =~= blocks);
    crate::layout::lemma_chunk_count(entries.len(), block_size, n);
    assert(entries.take(entries.len() as int) =~= entries);
}

/// The first `n` blocks hold the first postings.
proof fn lemma_chunks_flatten(entries: Seq<(u32, Weight)>, block_size: nat, n: nat)
    requires
        block_size > 0,
        n <= crate::layout::chunk_count(entries.len(), block_size),
    ensures
        crate::layout::chunks(entries, block_size).take(n as int).flatten() == entries.take(
            if n * block_size < entries.len() {
                (n * block_size) as int
            } else {
                entries.len() as int
            },
        ),
    decreases n,
{
    let blocks = crate::layout::chunks(entries, block_size);
    if n == 0 {
        assert(n * block_size == 0) by (nonlinear_arith)
            requires
                n == 0,
        ;
        assert(blocks.take(0).flatten() =~= Seq::<(u32, Weight)>::empty());
        assert(entries.take(0) =~= Seq::<(u32, Weight)>::empty());
    } else {
        let m = (n - 1) as nat;
        lemma_chunks_flatten(entries, block_size, m);
        crate::layout::lemma_chunk_count(entries.len(), block_size, m);
        assert(n * block_size == m * block_size + block_size) by (nonlinear_arith)
            requires
                n == m + 1,
        ;
        assert(0 <= m * block_size) by (nonlinear_arith);
        assert(blocks.take(n as int) =~= blocks.take(m as int).push(blocks[m as int]));
        blocks.take(m as int).lemma_flatten_push(blocks[m as int]);
        let end = if n * block_size < entries.len() {
            (n * block_size) as int
        } else {
            entries.len() as int
        };
        assert(entries.take(end) =~= entries.take((m * block_size) as int) + blocks[m as int]);
    }
}

/// `maxima` has for each block its last offset, and a number that none of its
/// weights exceeds, such as the greatest of them.
pub open spec fn bounds_blocks(
    maxima: Seq<(u32, Weight)>,
    blocks: Seq<Seq<(u32, Weight)>>,
) -> bool {
    &&& maxima.len() == blocks.len()
    &&& forall|j: int|
        0 <= j < blocks.len() ==> (#[trigger] maxima[j]).0 == blocks[j].last().0
            && !maxima[j].1.nan()
    &&& forall|j: int, i: int|
        #![trigger blocks[j][i]]
        0 <= j < blocks.len() && 0 <= i < blocks[j].len() ==> !blocks[j][i].1.gt(maxima[j].1)
}

/// What a directory is good for. When `maxima` has the last offset of each
/// block of a posting list by rising offset, and a bound on its weights, the
/// directory of them has one entry for each block, in block order; its offsets
/// rise strictly and set the blocks apart; none of a block's weights exceeds
/// the block's entry; the last entry has the last offset of the list; and no
/// weight of the list exceeds the greatest weight of the directory.
pub proof fn law_directory_summarizes_the_blocks(
    entries: Seq<(u32, Weight)>,
    block_size: nat,
    maxima: Seq<(u32, Weight)>,
    directory: Directory,
    dim_max: Weight,
)
    requires
        block_size > 0,
        forall|x: int, y: int|
            #![trigger entries[x], entries[y]]
            0 <= x < y < entries.len() ==> entries[x].0 < entries[y].0,
        bounds_blocks(maxima, crate::layout::chunks(entries, block_size)),
        directory.max_offsets@ == maxima.map_values(|m: (u32, Weight)| m.0),
        directory.max_weights@ == maxima.map_values(|m: (u32, Weight)| m.1),
        dim_max.is_greatest_of(directory.max_weights@),
    ensures
        ({
            let blocks = crate::layout::chunks(entries, block_size);
            let offsets = directory.max_offsets@;
            let weights = directory.max_weights@;
            &&& offsets.len() == blocks.len()
            &&& weights.len() == blocks.len()
            &&& forall|j: int, k: int|
                #![trigger offsets[j], offsets[k]]
                0 <= j < k < offsets.len() ==> offsets[j] < offsets[k]
            &&& forall|j: int, i: int|
                #![trigger blocks[j][i]]
                0 <= j < blocks.len() && 0 <= i < blocks[j].len() ==> {
                    &&& blocks[j][i].0 <= offsets[j]
                    &&& j > 0 ==> offsets[j - 1] < blocks[j][i].0
                    &&& !blocks[j][i].1.gt(weights[j])
                }
            &&& forall|j: int|
                0 <= j < blocks.len() ==> #[trigger] offsets[j] == blocks[j].last().0
                    && weights[j] == maxima[j].1
            &&& entries.len() > 0 ==> offsets.len() > 0 && offsets.last() == entries.last().0
            &&& forall|x: int| 0 <= x < entries.len() ==> !(#[trigger] entries[x]).1.gt(dim_max)
        }),
{
    let blocks = crate::layout::chunks(entries, block_size);
    let offsets = directory.max_offsets@;
    let weights = directory.max_weights@;
    let n = entries.len();
    assert(forall|j: int|
        0 <= j < maxima.len() ==> #[trigger] offsets[j] == maxima[j].0 && weights[j]
            == maxima[j].1);
    assert forall|j: int| 0 <= j < blocks.len() implies #[trigger] offsets[j] == blocks[j].last().0
        && weights[j] == maxima[j].1 by {
        assert(maxima[j].0 == blocks[j].last().0);
    }
    assert forall|j: int, k: int|
        #![trigger offsets[j], offsets[k]]
        0 <= j < k < offsets.len() implies offsets[j] < offsets[k] by {
        lemma_block_span(entries, block_size, j);
        lemma_block_span(entries, block_size, k);
        lemma_blocks_in_turn(entries, block_size, j, k);
        assert(offsets[j] == entries[block_end(n, block_size, j) - 1].0);
        assert(offsets[k] == entries[block_end(n, block_size, k) - 1].0);
    }
    assert forall|j: int, i: int|
        #![trigger blocks[j][i]]
        0 <= j < blocks.len() && 0 <= i < blocks[j].len() implies {
        &&& blocks[j][i].0 <= offsets[j]
        &&& j > 0 ==> offsets[j - 1] < blocks[j][i].0
        &&& !blocks[j][i].1.gt(weights[j])
    } by {
        lemma_block_span(entries, block_size, j);
        let x = j * block_size + i;
        assert(blocks[j][i] == entries[x]);
        assert(offsets[j] == entries[block_end(n, block_size, j) - 1].0);
        if j > 0 {
            lemma_block_span(entries, block_size, j - 1);
            lemma_blocks_in_turn(entries, block_size, j - 1, j);
            assert(offsets[j - 1] == entries[block_end(n, block_size, j - 1) - 1].0);
        }
    }
    assert forall|x: int| 0 <= x < n implies !(#[trigger] entries[x]).1.gt(dim_max) by {
        let j = x / block_size as int;
        let i = x % block_size as int;
        vstd::arithmetic::div_mod::lemma_fundamental_div_mod(x, block_size as int);
        vstd::arithmetic::div_mod::lemma_mod_bound(x, block_size as int);
        vstd::arithmetic::div_mod::lemma_div_pos_is_pos(x, block_size as int);
        assert(block_size * j == j * block_size) by (nonlinear_arith);
        assert((j + 1) * block_size == j * block_size + block_size) by (nonlinear_arith);
        crate::layout::lemma_chunk_count(n, block_size, j as nat);
        lemma_block_span(entries, block_size, j);
        assert(blocks[j][i] == entries[x]);
        assert(!blocks[j][i].1.gt(weights[j]));
        assert(weights[j] == maxima[j].1);
    }
    if n > 0 {
        crate::layout::lemma_chunk_count(n, block_size, 0);
        let last = blocks.len() - 1;
        lemma_block_span(entries, block_size, last);
        crate::layout::lemma_chunk_count(n, block_size, blocks.len());
        assert(offsets[last] == blocks[last].last().0);
    }
}

/// Where block `j` of `n` postings ends.
spec fn block_end(n: nat, block_size: nat, j: int) -> int {
    if (j + 1) * block_size < n {
        (j + 1) * block_size
    } else {
        n as int
    }
}

/// Block `j` holds the postings from `j * block_size` up to its end, and there
/// is at least one.
proof fn lemma_block_span(entries: Seq<(u32, Weight)>, block_size: nat, j: int)
    requires
        block_size > 0,
        0 <= j < crate::layout::chunks(entries, block_size).len(),
    ensures
        0 <= j * block_size < block_end(entries.len(), block_size, j) <= entries.len(),
        block_end(entries.len(), block_size, j) <= j * block_size + block_size,
        crate::layout::chunks(entries, block_size)[j] == entries.subrange(
            j * block_size,
            block_end(entries.len(), block_size, j),
        ),
{
    crate::layout::lemma_chunk_count(entries.len(), block_size, j as nat);
    assert((j + 1) * block_size == j * block_size + block_size) by (nonlinear_arith);
    assert(0 <= j * block_size) by (nonlinear_arith)
        requires
            j >= 0,
            block_size > 0,
    ;
}

/// An earlier block ends before a later one starts.
proof fn lemma_blocks_in_turn(entries: Seq<(u32, Weight)>, block_size: nat, j: int, k: int)
    requires
        block_size > 0,
        0 <= j < k < crate::layout::chunks(entries, block_size).len(),
    ensures
        block_end(entries.len(), block_size, j) <= k * block_size,
{
    crate::layout::lemma_chunk_count(entries.len(), block_size, k as nat);
    assert((j + 1) * block_size <= k * block_size) by (nonlinear_arith)
        requires
            j + 1 <= k,
            block_size > 0,
    ;
}

/// A list of postings by rising offset stores exactly those postings.
pub proof fn law_listing_stores_the_postings(
    entries: Seq<(u32, Weight)>,
    postings: Map<u32, Weight>,
)
    requires
        crate::postings::is_listing(entries, postings),
    ensures
        crate::postings::stored(entries) == postings,
{
    let found = crate::postings::stored(entries);
    assert forall|offset: u32|
        #![trigger found.dom().contains(offset)]
        #![trigger postings.dom().contains(offset)]
        #![trigger found[offset]]
        found.dom().contains(offset) == postings.dom().contains(offset) && (
        postings.dom().contains(offset) ==> found[offset] == postings[offset]) by {
        lemma_stored(entries, offset);
        if postings.contains_key(offset) {
            let i = choose|i: int| 0 <= i < entries.len() && (#[trigger] entries[i]).0 == offset;
            assert(postings[entries[i].0] == entries[i].1);
        }
    }
    assert(found =~= postings);
}

proof fn lemma_stored(entries: Seq<(u32, Weight)>, offset: u32)
    requires
        forall|i: int, j: int|
            #![trigger entries[i], entries[j]]
            0 <= i < j < entries.len() ==> entries[i].0 < entries[j].0,
    ensures
        crate::postings::stored(entries).contains_key(offset) <==> exists|i: int|
            0 <= i < entries.len() && (#[trigger] entries[i]).0 == offset,
        forall|i: int|
            0 <= i < entries.len() && (#[trigger] entries[i]).0 == offset
                ==> crate::postings::stored(entries)[offset] == entries[i].1,
    decreases entries.len(),
{
    if entries.len() > 0 {
        let before = entries.drop_last();
        let n = entries.len() - 1;
        assert(forall|i: int| 0 <= i < before.len() ==> #[trigger] before[i] == entries[i]);
        lemma_stored(before, offset);
        assert(entries.last() == entries[n]);
        if entries[n].0 == offset {
            assert forall|i: int| 0 <= i < entries.len() && (#[trigger] entries[i]).0 == offset implies i
                == n by {
                if i < n {
                    assert(entries[i].0 < entries[n].0);
                }
            }
            assert(exists|i: int| 0 <= i < entries.len() && (#[trigger] entries[i]).0 == offset);
        } else {
            if exists|i: int| 0 <= i < entries.len() && (#[trigger] entries[i]).0 == offset {
                let i = choose|i: int|
                    0 <= i < entries.len() && (#[trigger] entries[i]).0 == offset;
                assert(before[i].0 == offset);
            }
            assert forall|i: int| 0 <= i < entries.len() && (#[trigger] entries[i]).0 == offset implies
                crate::postings::stored(entries)[offset] == entries[i].1 by {
                assert(before[i] == entries[i]);
            }
            if crate::postings::stored(entries).contains_key(offset) {
                let i = choose|i: int| 0 <= i < before.len() && (#[trigger] before[i]).0 == offset;
                assert(entries[i].0 == offset);
            }
        }
    }
}

/// A committed dimension reads back what was written. Whatever blocks it had,
/// the planned changes leave it laid out in `blocks`; a scan finds these and no
/// others; and in them an updated offset has the value that was set, or none if
/// it was deleted, while every other offset is as it was.
pub proof fn law_commit_is_read_back(
    old_blocks: Seq<Vec<(u32, Weight)>>,
    old_maxima: Seq<(u32, Weight)>,
    updates: Map<u32, Option<u32>>,
    entries: Seq<(u32, Weight)>,
    block_size: nat,
    maxima: Seq<(u32, Weight)>,
    offset: u32,
)
    requires
        block_size > 0 || entries.len() == 0,
        old_blocks.len() <= DIRECTORY_KEY,
        crate::layout::chunk_count(entries.len(), block_size) <= DIRECTORY_KEY,
        maxima.len() == crate::layout::chunk_count(entries.len(), block_size),
        crate::postings::is_listing(
            entries,
            crate::postings::merged(
                crate::postings::stored(crate::postings::block_entries(old_blocks)),
                updates,
            ),
        ),
    ensures
        ({
            let before = crate::postings::stored(
                old_blocks.map_values(|b: Vec<(u32, Weight)>| b@).flatten(),
            );
            let blocks = crate::layout::chunks(entries, block_size);
            let after = crate::postings::stored(blocks.flatten());
            &&& apply_ops(
                laid_out(old_blocks.map_values(|b: Vec<(u32, Weight)>| b@), old_maxima),
                crate::layout::plan_ops(entries, block_size, old_blocks.len()).push(
                    crate::layout::directory_op(maxima),
                ),
            ) == laid_out(blocks, maxima)
            &&& crate::reader::posting_values(scan(blocks, maxima)) == blocks.map_values(
                |b: Seq<(u32, Weight)>| StoredValue::Postings(b),
            )
            &&& updates.contains_key(offset) ==> match updates[offset] {
                Some(bits) => after.contains_key(offset) && after[offset].bits == bits,
                None => !after.contains_key(offset),
            }
            &&& !updates.contains_key(offset) ==> after.contains_key(offset)
                == before.contains_key(offset) && (before.contains_key(offset) ==> after[offset]
                == before[offset])
        }),
{
    let before = crate::postings::stored(crate::postings::block_entries(old_blocks));
    let blocks = crate::layout::chunks(entries, block_size);
    crate::postings::law_blocks_are_read_in_full(old_blocks);
    let held = old_blocks.map_values(|b: Vec<(u32, Weight)>| b@);
    law_plan_replaces_the_posting_list(held, old_maxima, entries, block_size, maxima);
    crate::reader::law_scan_reads_the_blocks(blocks, maxima);
    if block_size > 0 {
        law_blocks_hold_the_postings(entries, block_size);
    } else {
        assert(blocks.flatten() =~= entries);
    }
    law_listing_stores_the_postings(entries, crate::postings::merged(before, updates));
}

} // verus!
