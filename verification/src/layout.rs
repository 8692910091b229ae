//! How a posting list is laid out in storage: under consecutive keys its
//! blocks, and under a key of its own a directory of them.

use vstd::prelude::*;

use crate::reader::Directory;
use crate::weight::Weight;

verus! {

/// How many postings a block holds, unless the writer is told otherwise.
pub const DEFAULT_BLOCK_SIZE: u32 = 1024;

/// The key of the directory.
pub const DIRECTORY_KEY: u32 = 0xffff_ffff;

/// The size of a storage block of postings, in bytes.
pub const SPARSE_POSTING_BLOCK_SIZE_BYTES: usize = 1048576;

/// A count or an index as it is numbered in storage, where keys have 32 bits.
pub open spec fn count32(n: nat) -> nat {
    n % 0x1_0000_0000
}

/// A count or an index as it is numbered in storage.
pub fn truncated(n: usize) -> (c: u32)
    ensures
        c == count32(n as nat),
{
    ((n as u64) % 0x1_0000_0000u64) as u32
}

/// One change to the stored posting list of a dimension.
#[derive(Debug)]
pub enum BlockOp {
    /// Store these postings as the block with this number.
    SetBlock(u32, Vec<(u32, Weight)>),
    /// Delete the block with this number.
    DeleteBlock(u32),
}

/// The change to the directory of a dimension, which follows those to its
/// blocks.
#[derive(Debug)]
pub enum DirectoryOp {
    /// Store this directory.
    SetDirectory(Directory),
    /// Delete the directory.
    DeleteDirectory,
}

/// A change, with what it stores as a sequence; a directory lists the last
/// offset and the greatest weight of each block.
pub enum PlannedOp {
    SetBlock(u32, Seq<(u32, Weight)>),
    DeleteBlock(u32),
    SetDirectory(Seq<(u32, Weight)>),
    DeleteDirectory,
}

impl BlockOp {
    pub open spec fn view(&self) -> PlannedOp {
        match self {
            BlockOp::SetBlock(seq, entries) => PlannedOp::SetBlock(*seq, entries@),
            BlockOp::DeleteBlock(seq) => PlannedOp::DeleteBlock(*seq),
        }
    }
}

impl DirectoryOp {
    pub open spec fn view(&self) -> PlannedOp {
        match self {
            DirectoryOp::SetDirectory(directory) => PlannedOp::SetDirectory(directory@),
            DirectoryOp::DeleteDirectory => PlannedOp::DeleteDirectory,
        }
    }
}

/// The changes of a plan.
pub open spec fn planned(ops: Seq<BlockOp>) -> Seq<PlannedOp> {
    ops.map_values(|op: BlockOp| op@)
}

/// How many blocks `n` postings fill.
pub open spec fn chunk_count(n: nat, block_size: nat) -> nat {
    if block_size == 0 {
        0
    } else {
        ((n + block_size - 1) / block_size as int) as nat
    }
}

/// The postings of block `j`.
pub open spec fn chunk(entries: Seq<(u32, Weight)>, block_size: nat, j: int) -> Seq<(u32, Weight)> {
    entries.subrange(
        j * block_size,
        if (j + 1) * block_size < entries.len() {
            (j + 1) * block_size
        } else {
            entries.len() as int
        },
    )
}

/// The postings, cut into blocks.
pub open spec fn chunks(entries: Seq<(u32, Weight)>, block_size: nat) -> Seq<Seq<(u32, Weight)>> {
    Seq::new(chunk_count(entries.len(), block_size), |j: int| chunk(entries, block_size, j))
}

/// Stores the first `n` blocks.
pub open spec fn set_ops(entries: Seq<(u32, Weight)>, block_size: nat, n: nat) -> Seq<PlannedOp> {
    Seq::new(
        n,
        |j: int| PlannedOp::SetBlock(count32(j as nat) as u32, chunk(entries, block_size, j)),
    )
}

/// Deletes the blocks from number `from` up to, not including, number `to`.
pub open spec fn delete_ops(from: nat, to: nat) -> Seq<PlannedOp> {
    Seq::new(
        if from < to {
            (to - from) as nat
        } else {
            0
        },
        |i: int| PlannedOp::DeleteBlock((from + i) as u32),
    )
}

/// The changes to the blocks that put `entries` in the place of a posting list
/// of `old_blocks` blocks: the new blocks are set, then surplus ones deleted.
pub open spec fn plan_ops(
    entries: Seq<(u32, Weight)>,
    block_size: nat,
    old_blocks: nat,
) -> Seq<PlannedOp> {
    let n = chunk_count(entries.len(), block_size);
    set_ops(entries, block_size, n) + delete_ops(count32(n), count32(old_blocks))
}

/// The change to the directory once blocks with these last offsets and greatest
/// weights have been set: it lists them, one entry for each block, and there is
/// none without blocks.
pub open spec fn directory_op(maxima: Seq<(u32, Weight)>) -> PlannedOp {
    if maxima.len() == 0 {
        PlannedOp::DeleteDirectory
    } else {
        PlannedOp::SetDirectory(maxima)
    }
}

/// Block `j` exists just when there is a posting for its first place.
pub proof fn lemma_chunk_count(n: nat, block_size: nat, j: nat)
    requires
        block_size > 0,
    ensures
        j < chunk_count(n, block_size) <==> j * block_size < n,
{
    let b = block_size as int;
    let q = chunk_count(n, block_size) as int;
    vstd::arithmetic::div_mod::lemma_fundamental_div_mod(n + b - 1, b);
    vstd::arithmetic::div_mod::lemma_mod_bound(n + b - 1, b);
    assert(q == (n + b - 1) / b) by {
        vstd::arithmetic::div_mod::lemma_div_pos_is_pos(n + b - 1, b);
    }
    assert(b * q <= n + b - 1 < b * q + b);
    if j < q {
        assert(j * b + b <= b * q) by (nonlinear_arith)
            requires
                j + 1 <= q,
                b > 0,
        ;
    } else {
        assert(j * b >= b * q) by (nonlinear_arith)
            requires
                j >= q,
                b > 0,
        ;
    }
}

/// Copies the postings from `start` up to, not including, `end`.
fn copy_range(entries: &Vec<(u32, Weight)>, start: usize, end: usize) -> (out: Vec<(u32, Weight)>)
    requires
        start <= end <= entries.len(),
    ensures
        out@ == entries@.subrange(start as int, end as int),
{
    let mut out: Vec<(u32, Weight)> = Vec::new();
    let mut i: usize = start;
    while i < end
        invariant
            start <= i <= end <= entries.len(),
            out@ =~= entries@.subrange(start as int, i as int),
        decreases end - i,
    {
        out.push(entries[i]);
        i = i + 1;
    }
    out
}

proof fn lemma_planned_push(ops: Seq<BlockOp>, op: BlockOp)
    ensures
        planned(ops.push(op)) == planned(ops).push(op@),
{
    assert(planned(ops.push(op)) =~= planned(ops).push(op@));
}

/// Adds the deletion of the blocks from number `from` on.
fn push_deletes(ops: &mut Vec<BlockOp>, from: u32, to: u32)
    ensures
        planned(final(ops)@) == planned(old(ops)@) + delete_ops(from as nat, to as nat),
{
    let mut seq: u32 = from;
    let ghost before = planned(ops@);
    assert(before + delete_ops(from as nat, from as nat) =~= before);
    while seq < to
        invariant
            before == planned(old(ops)@),
            from <= seq,
            from <= to ==> seq <= to,
            seq > to ==> seq == from,
            planned(ops@) =~= before + delete_ops(from as nat, seq as nat),
        decreases to - seq,
    {
        proof {
            lemma_planned_push(ops@, BlockOp::DeleteBlock(seq));
            assert(delete_ops(from as nat, (seq + 1) as nat) =~= delete_ops(
                from as nat,
                seq as nat,
            ).push(PlannedOp::DeleteBlock(seq)));
        }
        ops.push(BlockOp::DeleteBlock(seq));
        seq = seq + 1;
    }
    assert(delete_ops(from as nat, to as nat) =~= delete_ops(from as nat, seq as nat));
}

/// Without postings there are no blocks.
proof fn lemma_no_chunks(block_size: nat)
    ensures
        chunk_count(0, block_size) == 0,
{
    if block_size > 0 {
        lemma_chunk_count(0, block_size, 0);
    }
}

/// How many blocks `n` postings fill.
pub fn block_count(n: usize, block_size: u32) -> (c: usize)
    requires
        block_size > 0 || n == 0,
    ensures
        c == chunk_count(n as nat, block_size as nat),
{
    if n == 0 {
        proof {
            lemma_no_chunks(block_size as nat);
        }
        return 0;
    }
    let full: u64 = (n as u64 - 1) / (block_size as u64);
    proof {
        let b = block_size as int;
        vstd::arithmetic::div_mod::lemma_div_plus_one(n - 1, b);
        assert(n - 1 + b == n + b - 1);
        vstd::arithmetic::div_mod::lemma_div_is_ordered_by_denominator(n - 1, 1, b);
        vstd::arithmetic::div_mod::lemma_div_basics(n - 1);
    }
    full as usize + 1
}

/// Plans how to change the blocks so as to put `entries` in the place of a
/// posting list of `old_blocks` blocks.
pub fn plan_blocks(
    entries: &Vec<(u32, Weight)>,
    block_size: u32,
    old_blocks: usize,
) -> (ops: Vec<BlockOp>)
    requires
        block_size > 0 || entries.len() == 0,
    ensures
        planned(ops@) == plan_ops(entries@, block_size as nat, old_blocks as nat),
{
    let mut ops: Vec<BlockOp> = Vec::new();
    let old_count: u32 = truncated(old_blocks);
    assert(planned(ops@) =~= Seq::<PlannedOp>::empty());
    if entries.len() == 0 {
        push_deletes(&mut ops, 0, old_count);
        proof {
            lemma_no_chunks(block_size as nat);
            assert(planned(ops@) =~= plan_ops(entries@, block_size as nat, old_blocks as nat));
        }
        return ops;
    }
    let ghost b = block_size as nat;
    let ghost n = entries@.len();
    let mut start: usize = 0;
    let mut j: usize = 0;
    while start < entries.len()
        invariant
            b == block_size > 0,
            n == entries@.len() == entries.len(),
            start <= n,
            start == if j * b < n {
                j * b
            } else {
                n as int
            },
            j <= start,
            j <= chunk_count(n, b),
            start == n ==> j == chunk_count(n, b),
            planned(ops@) =~= set_ops(entries@, b, j as nat),
        decreases entries.len() - start,
    {
        let left: usize = entries.len() - start;
        let end: usize = if left as u64 > block_size as u64 {
            start + block_size as usize
        } else {
            entries.len()
        };
        proof {
            lemma_chunk_count(n, b, j as nat);
            lemma_chunk_count(n, b, (j + 1) as nat);
            assert((j + 1) * b == j * b + b) by (nonlinear_arith);
            assert(chunk(entries@, b, j as int) =~= entries@.subrange(start as int, end as int));
        }
        let block: Vec<(u32, Weight)> = copy_range(entries, start, end);
        let op: BlockOp = BlockOp::SetBlock(truncated(j), block);
        proof {
            lemma_planned_push(ops@, op);
            assert(set_ops(entries@, b, (j + 1) as nat) =~= set_ops(entries@, b, j as nat).push(
                op@,
            ));
        }
        ops.push(op);
        start = end;
        j = j + 1;
    }
    push_deletes(&mut ops, truncated(j), old_count);
    assert(planned(ops@) =~= plan_ops(entries@, b, old_blocks as nat));
    ops
}

/// What the changes of a plan are, with their postings as sequences: the same
/// changes, one for one.
pub proof fn law_planned_changes_are_the_changes(ops: Seq<BlockOp>)
    ensures
        planned(ops).len() == ops.len(),
        forall|i: int|
            0 <= i < ops.len() ==> match #[trigger] ops[i] {
                BlockOp::SetBlock(seq, entries) => planned(ops)[i] == PlannedOp::SetBlock(
                    seq,
                    entries@,
                ),
                BlockOp::DeleteBlock(seq) => planned(ops)[i] == PlannedOp::DeleteBlock(seq),
            },
{
}

/// What a plan consists of, for `n` blocks that the postings just fill: block `j`
/// is set to the postings from place `j * block_size` on, as many as fit or are
/// left; then every old block that has no successor is deleted; nothing else.
pub proof fn law_plan_sets_and_deletes(
    entries: Seq<(u32, Weight)>,
    block_size: nat,
    old_blocks: nat,
    n: nat,
)
    requires
        block_size > 0 || entries.len() == 0,
        n == 0 <==> entries.len() == 0,
        n > 0 ==> (n - 1) * block_size < entries.len() <= n * block_size,
        n < 0x1_0000_0000,
        old_blocks < 0x1_0000_0000,
    ensures
        ({
            let ops = plan_ops(entries, block_size, old_blocks);
            &&& ops.len() == if n < old_blocks {
                old_blocks
            } else {
                n
            }
            &&& forall|j: int|
                0 <= j < n ==> #[trigger] ops[j] == PlannedOp::SetBlock(
                    j as u32,
                    entries.subrange(
                        j * block_size,
                        if j == n - 1 {
                            entries.len() as int
                        } else {
                            j * block_size + block_size
                        },
                    ),
                )
            &&& forall|j: int|
                n <= j < ops.len() ==> #[trigger] ops[j] == PlannedOp::DeleteBlock(j as u32)
        }),
{
    let ops = plan_ops(entries, block_size, old_blocks);
    let count = chunk_count(entries.len(), block_size);
    assert(count == n) by {
        if n == 0 {
            lemma_no_chunks(block_size);
        } else {
            lemma_chunk_count(entries.len(), block_size, (n - 1) as nat);
            lemma_chunk_count(entries.len(), block_size, n);
        }
    }
    assert forall|j: int| 0 <= j < n implies #[trigger] ops[j] == PlannedOp::SetBlock(
        j as u32,
        entries.subrange(
            j * block_size,
            if j == n - 1 {
                entries.len() as int
            } else {
                j * block_size + block_size
            },
        ),
    ) by {
        assert((j + 1) * block_size == j * block_size + block_size) by (nonlinear_arith);
        if j < n - 1 {
            lemma_chunk_count(entries.len(), block_size, (j + 1) as nat);
        }
        assert(count32(j as nat) == j);
    }
}

/// Numbers in storage have 32 bits: a smaller number is itself, and a number
/// that is greater by a multiple counts as the same.
pub proof fn law_numbers_have_32_bits(n: nat)
    ensures
        n < 0x1_0000_0000 ==> count32(n) == n,
        count32(n + 0x1_0000_0000) == count32(n),
{
}

/// With blocks there is a directory, and it has their entries; without any there
/// is none.
pub proof fn law_directory_has_the_entries(maxima: Seq<(u32, Weight)>)
    ensures
        maxima.len() > 0 ==> directory_op(maxima) == PlannedOp::SetDirectory(maxima),
        maxima.len() == 0 ==> directory_op(maxima) == PlannedOp::DeleteDirectory,
{
}

} // verus!
