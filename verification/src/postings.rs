//! The posting list of one dimension: merging updates into it, and laying it
//! out in blocks.

use std::collections::HashMap;
use vstd::prelude::*;

use crate::order::Ranked;
use crate::weight::Weight;

verus! {

broadcast use vstd::std_specs::hash::group_hash_axioms;

/// Postings stand by rising offset.
impl Ranked for (u32, Weight) {
    open spec fn ranks_le(&self, other: &(u32, Weight)) -> bool {
        self.0 <= other.0
    }

    proof fn ranks_le_total(a: &(u32, Weight), b: &(u32, Weight)) {
    }

    proof fn ranks_le_transitive(a: &(u32, Weight), b: &(u32, Weight), c: &(u32, Weight)) {
    }

    fn not_after(&self, other: &(u32, Weight)) -> (b: bool) {
        self.0 <= other.0
    }
}

/// What a list of postings stores: of two for one offset, the later counts.
pub open spec fn stored(entries: Seq<(u32, Weight)>) -> Map<u32, Weight>
    decreases entries.len(),
{
    if entries.len() == 0 {
        Map::empty()
    } else {
        stored(entries.drop_last()).insert(entries.last().0, entries.last().1)
    }
}

/// The postings of some blocks, block by block.
pub open spec fn block_entries(blocks: Seq<Vec<(u32, Weight)>>) -> Seq<(u32, Weight)>
    decreases blocks.len(),
{
    if blocks.len() == 0 {
        Seq::empty()
    } else {
        block_entries(blocks.drop_last()) + blocks.last()@
    }
}

/// A posting list with updates merged into it: an updated offset has the value
/// that was set, or none if it was deleted; the others are untouched.
pub open spec fn merged(
    postings: Map<u32, Weight>,
    updates: Map<u32, Option<u32>>,
) -> Map<u32, Weight> {
    Map::new(
        |offset: u32|
            if updates.contains_key(offset) {
                updates[offset] is Some
            } else {
                postings.contains_key(offset)
            },
        |offset: u32|
            if updates.contains_key(offset) {
                Weight { bits: updates[offset]->0 }
            } else {
                postings[offset]
            },
    )
}

/// `entries` lists the postings by rising offset.
pub open spec fn is_listing(entries: Seq<(u32, Weight)>, postings: Map<u32, Weight>) -> bool {
    &&& forall|i: int, j: int|
        #![trigger entries[i], entries[j]]
        0 <= i < j < entries.len() ==> entries[i].0 < entries[j].0
    &&& forall|i: int|
        0 <= i < entries.len() ==> postings.contains_key((#[trigger] entries[i]).0)
            && postings[entries[i].0] == entries[i].1
    &&& forall|offset: u32| #[trigger]
        postings.contains_key(offset) ==> exists|i: int|
            0 <= i < entries.len() && (#[trigger] entries[i]).0 == offset
}

/// The postings by rising offset.
pub open spec fn listing(postings: Map<u32, Weight>) -> Seq<(u32, Weight)> {
    choose|entries: Seq<(u32, Weight)>| is_listing(entries, postings)
}

/// There is only one list of the postings by rising offset.
proof fn lemma_listing_is_unique(
    a: Seq<(u32, Weight)>,
    b: Seq<(u32, Weight)>,
    postings: Map<u32, Weight>,
    n: int,
)
    requires
        is_listing(a, postings),
        is_listing(b, postings),
        0 <= n <= a.len(),
    ensures
        n <= b.len(),
        forall|i: int| 0 <= i < n ==> a[i] == b[i],
    decreases n,
{
    if n > 0 {
        let m = n - 1;
        lemma_listing_is_unique(a, b, postings, m);
        assert(postings.contains_key(a[m].0));
        let j = choose|j: int| 0 <= j < b.len() && (#[trigger] b[j]).0 == a[m].0;
        if j < m {
            assert(a[j] == b[j]);
            assert(a[j].0 < a[m].0);
        }
        assert(m < b.len());
        assert(postings.contains_key(b[m].0));
        let k = choose|k: int| 0 <= k < a.len() && (#[trigger] a[k]).0 == b[m].0;
        if k < m {
            assert(a[k] == b[k]);
            assert(b[k].0 < b[m].0);
        }
        if m < j {
            assert(b[m].0 < b[j].0);
            if m < k {
                assert(a[m].0 < a[k].0);
            }
        }
        assert forall|i: int| 0 <= i < n implies a[i] == b[i] by {
            if i == m {
                assert(a[m].0 == b[m].0);
            }
        }
    }
}

/// `listing` picks the list of the postings by rising offset.
pub proof fn lemma_listing(entries: Seq<(u32, Weight)>, postings: Map<u32, Weight>)
    requires
        is_listing(entries, postings),
    ensures
        listing(postings) == entries,
{
    let picked = listing(postings);
    lemma_listing_is_unique(entries, picked, postings, entries.len() as int);
    lemma_listing_is_unique(picked, entries, postings, picked.len() as int);
    assert(picked =~= entries);
}

/// The postings after listed updates were applied one by one.
spec fn applied(
    postings: Map<u32, Weight>,
    listed: Seq<(u32, Option<u32>)>,
) -> Map<u32, Weight>
    decreases listed.len(),
{
    if listed.len() == 0 {
        postings
    } else {
        let before = applied(postings, listed.drop_last());
        match listed.last().1 {
            Some(bits) => before.insert(listed.last().0, Weight { bits }),
            None => before.remove(listed.last().0),
        }
    }
}

/// Applying updates one by one touches the offsets that are listed.
proof fn lemma_applied(
    postings: Map<u32, Weight>,
    listed: Seq<(u32, Option<u32>)>,
    offset: u32,
)
    requires
        forall|i: int, j: int|
            #![trigger listed[i], listed[j]]
            0 <= i < j < listed.len() ==> listed[i].0 != listed[j].0,
    ensures
        forall|i: int|
            0 <= i < listed.len() && (#[trigger] listed[i]).0 == offset ==> (match listed[i].1 {
                Some(bits) => applied(postings, listed).contains_key(offset) && applied(
                    postings,
                    listed,
                )[offset] == (Weight { bits }),
                None => !applied(postings, listed).contains_key(offset),
            }),
        (forall|i: int| 0 <= i < listed.len() ==> (#[trigger] listed[i]).0 != offset) ==> {
            &&& applied(postings, listed).contains_key(offset) == postings.contains_key(offset)
            &&& applied(postings, listed)[offset] == postings[offset]
        },
    decreases listed.len(),
{
    if listed.len() > 0 {
        let before = listed.drop_last();
        let n = listed.len() - 1;
        assert(forall|i: int| 0 <= i < before.len() ==> #[trigger] before[i] == listed[i]);
        lemma_applied(postings, before, offset);
        assert(listed.last() == listed[n]);
        if listed[n].0 == offset {
            assert forall|i: int|
                0 <= i < listed.len() && (#[trigger] listed[i]).0 == offset implies i == n by {
                if i < n {
                    assert(listed[i].0 != listed[n].0);
                }
            }
        } else {
            assert forall|i: int| 0 <= i < listed.len() && (#[trigger] listed[i]).0 == offset implies (
            match listed[i].1 {
                Some(bits) => applied(postings, listed).contains_key(offset) && applied(
                    postings,
                    listed,
                )[offset] == (Weight { bits }),
                None => !applied(postings, listed).contains_key(offset),
            }) by {
                assert(before[i] == listed[i]);
            }
        }
    }
}

/// Applying the updates in any order merges them.
proof fn lemma_applied_is_merged(
    postings: Map<u32, Weight>,
    listed: Seq<(u32, Option<u32>)>,
    updates: Map<u32, Option<u32>>,
)
    requires
        crate::delta::lists_updates(listed, updates),
    ensures
        applied(postings, listed) == merged(postings, updates),
{
    let a = applied(postings, listed);
    let m = merged(postings, updates);
    assert forall|offset: u32|
        #![trigger a.dom().contains(offset)]
        #![trigger m.dom().contains(offset)]
        #![trigger a[offset]]
        a.dom().contains(offset) == m.dom().contains(offset) && (a.dom().contains(offset)
            ==> a[offset] == m[offset]) by {
        lemma_applied(postings, listed, offset);
        if updates.contains_key(offset) {
            let i = choose|i: int| 0 <= i < listed.len() && (#[trigger] listed[i]).0 == offset;
            assert(updates[listed[i].0] == listed[i].1);
        }
    }
    assert(a =~= m);
}

/// Reads the postings of some blocks.
fn read_blocks(blocks: &Vec<Vec<(u32, Weight)>>) -> (entries: HashMap<u32, Weight>)
    ensures
        entries@ == stored(block_entries(blocks@)),
{
    let mut entries: HashMap<u32, Weight> = HashMap::new();
    let mut b: usize = 0;
    assert(blocks@.take(0) =~= Seq::<Vec<(u32, Weight)>>::empty());
    assert(entries@ =~= stored(block_entries(blocks@.take(0))));
    while b < blocks.len()
        invariant
            b <= blocks.len(),
            entries@ == stored(block_entries(blocks@.take(b as int))),
        decreases blocks.len() - b,
    {
        let block: &Vec<(u32, Weight)> = &blocks[b];
        let ghost before = block_entries(blocks@.take(b as int));
        let mut i: usize = 0;
        assert(before + block@.take(0) =~= before);
        while i < block.len()
            invariant
                i <= block.len(),
                entries@ == stored(before + block@.take(i as int)),
            decreases block.len() - i,
        {
            let entry: (u32, Weight) = block[i];
            entries.insert(entry.0, entry.1);
            proof {
                let now = before + block@.take(i + 1);
                assert(now.drop_last() =~= before + block@.take(i as int));
                assert(now.last() == entry);
            }
            i = i + 1;
        }
        proof {
            assert(block@.take(i as int) =~= block@);
            let now = blocks@.take(b + 1);
            assert(now.drop_last() =~= blocks@.take(b as int));
            assert(now.last() == blocks@[b as int]);
        }
        b = b + 1;
    }
    assert(blocks@.take(b as int) =~= blocks@);
    entries
}

/// Sorting a list that holds every posting once lists them by rising offset.
proof fn lemma_sorted_is_listing(
    found: Seq<(u32, Weight)>,
    entries: Seq<(u32, Weight)>,
    postings: Map<u32, Weight>,
)
    requires
        found.no_duplicates(),
        forall|i: int|
            0 <= i < found.len() ==> postings.contains_key((#[trigger] found[i]).0)
                && postings[found[i].0] == found[i].1,
        forall|offset: u32| #[trigger]
            postings.contains_key(offset) ==> found.contains((offset, postings[offset])),
        crate::order::is_sorted(entries),
        entries.to_multiset() == found.to_multiset(),
    ensures
        is_listing(entries, postings),
{
    found.lemma_multiset_has_no_duplicates();
    entries.lemma_multiset_has_no_duplicates_conv();
    assert forall|i: int| 0 <= i < entries.len() implies postings.contains_key(
        (#[trigger] entries[i]).0,
    ) && postings[entries[i].0] == entries[i].1 by {
        vstd::seq_lib::to_multiset_contains(entries, entries[i]);
        vstd::seq_lib::to_multiset_contains(found, entries[i]);
    }
    assert forall|i: int, j: int|
        #![trigger entries[i], entries[j]]
        0 <= i < j < entries.len() implies entries[i].0 < entries[j].0 by {
        assert(entries[i].ranks_le(&entries[j]));
        assert(entries[i] != entries[j]);
        assert(postings[entries[i].0] == entries[i].1);
        assert(postings[entries[j].0] == entries[j].1);
    }
    assert forall|offset: u32| #[trigger] postings.contains_key(offset) implies exists|i: int|
        0 <= i < entries.len() && (#[trigger] entries[i]).0 == offset by {
        let e = (offset, postings[offset]);
        vstd::seq_lib::to_multiset_contains(found, e);
        vstd::seq_lib::to_multiset_contains(entries, e);
        let i = choose|i: int| 0 <= i < entries.len() && entries[i] == e;
        assert(entries[i].0 == offset);
    }
}

/// Lists postings by rising offset.
fn list_postings(postings: &HashMap<u32, Weight>) -> (entries: Vec<(u32, Weight)>)
    ensures
        is_listing(entries@, postings@),
        entries@ == listing(postings@),
{
    let mut found: Vec<(u32, Weight)> = Vec::new();
    let ghost all = vstd::std_specs::iter::IteratorSpec::remaining(&postings.iter());
    for entry in it: postings.iter()
        invariant
            it.seq() == all,
            found@ =~= it.seq().take(it.index()).map_values(
                |e: (&u32, &Weight)| (*e.0, *e.1),
            ),
    {
        found.push((*entry.0, *entry.1));
    }
    assert(all.take(all.len() as int) =~= all);
    let entries: Vec<(u32, Weight)> = crate::order::sorted(&found);
    proof {
        assert forall|i: int| 0 <= i < found.len() implies postings@.contains_key(
            (#[trigger] found@[i]).0,
        ) && postings@[found@[i].0] == found@[i].1 by {
            assert(postings@.contains_key(*all[i].0));
        }
        assert forall|offset: u32| #[trigger] postings@.contains_key(offset) implies found@.contains(
            (offset, postings@[offset]),
        ) by {
            assert(all.contains((&offset, &postings@[offset])));
            let i = choose|i: int|
                0 <= i < all.len() && all[i] == (&offset, &postings@[offset]);
            assert(found@[i] == (offset, postings@[offset]));
        }
        assert forall|i: int, j: int| 0 <= i < j < found.len() implies found@[i] != found@[j] by {
            assert(all[i] != all[j]);
        }
        lemma_sorted_is_listing(found@, entries@, postings@);
        lemma_listing(entries@, postings@);
    }
    entries
}

/// Merges updates into the postings of some blocks, and lists the outcome by
/// rising offset.
pub fn merge_postings(
    old_blocks: &Vec<Vec<(u32, Weight)>>,
    updates: crate::delta::Updates,
) -> (entries: Vec<(u32, Weight)>)
    ensures
        ({
            let postings = merged(
                stored(block_entries(old_blocks@)),
                crate::delta::updates_of(updates),
            );
            is_listing(entries@, postings) && entries@ == listing(postings)
        }),
        forall|x: int, y: int|
            #![trigger entries@[x], entries@[y]]
            0 <= x < y < entries@.len() ==> entries@[x].0 < entries@[y].0,
        forall|offset: u32| #[trigger]
            crate::delta::updates_of(updates).contains_key(offset) ==> match crate::delta::updates_of(updates)[offset] {
                Some(bits) => entries@.contains((offset, Weight { bits })),
                None => forall|x: int| 0 <= x < entries@.len() ==> (#[trigger] entries@[x]).0 != offset,
            },
        forall|b: int, i: int|
            0 <= b < old_blocks@.len() && 0 <= i < old_blocks@[b]@.len() && !crate::delta::updates_of(updates).contains_key(
                (#[trigger] old_blocks@[b]@[i]).0,
            ) && (forall|c: int, j: int|
                0 <= c < old_blocks@.len() && 0 <= j < old_blocks@[c]@.len() && (c > b || (c == b && j > i))
                    ==> (#[trigger] old_blocks@[c]@[j]).0 != old_blocks@[b]@[i].0) ==> entries@.contains(
                old_blocks@[b]@[i],
            ),
        forall|x: int|
            0 <= x < entries@.len() && !crate::delta::updates_of(updates).contains_key((#[trigger] entries@[x]).0) ==> exists|b: int, i: int|
                0 <= b < old_blocks@.len() && 0 <= i < old_blocks@[b]@.len() && #[trigger] old_blocks@[b]@[i] == entries@[x],
{
    let ghost changes = crate::delta::updates_of(updates);
    let mut postings: HashMap<u32, Weight> = read_blocks(old_blocks);
    let ghost before = postings@;
    let listed: Vec<(u32, Option<u32>)> = crate::delta::list_updates(updates);
    let mut i: usize = 0;
    while i < listed.len()
        invariant
            i <= listed.len(),
            postings@ == applied(before, listed@.take(i as int)),
        decreases listed.len() - i,
    {
        let update: (u32, Option<u32>) = listed[i];
        proof {
            let now = listed@.take(i + 1);
            assert(now.drop_last() =~= listed@.take(i as int));
            assert(now.last() == update);
        }
        match update.1 {
            Some(bits) => {
                postings.insert(update.0, Weight::from_bits(bits));
            },
            None => {
                postings.remove(&update.0);
            },
        }
        i = i + 1;
    }
    proof {
        assert(listed@.take(i as int) =~= listed@);
        lemma_applied_is_merged(before, listed@, changes);
    }
    let entries: Vec<(u32, Weight)> = list_postings(&postings);
    proof {
        law_merging_keeps_every_posting(old_blocks@, changes, entries@);
    }
    entries
}

/// Blocks are read in full, one after the other.
pub proof fn law_blocks_are_read_in_full(blocks: Seq<Vec<(u32, Weight)>>)
    ensures
        block_entries(blocks) == blocks.map_values(|b: Vec<(u32, Weight)>| b@).flatten(),
    decreases blocks.len(),
{
    let lists = blocks.map_values(|b: Vec<(u32, Weight)>| b@);
    if blocks.len() == 0 {
        assert(lists.flatten() =~= Seq::<(u32, Weight)>::empty());
    } else {
        let before = blocks.drop_last();
        law_blocks_are_read_in_full(before);
        let early = before.map_values(|b: Vec<(u32, Weight)>| b@);
        assert(lists =~= early.push(blocks.last()@));
        early.lemma_flatten_push(blocks.last()@);
    }
}

/// More postings do not touch an offset that is not among theirs.
proof fn lemma_stored_without(a: Seq<(u32, Weight)>, b: Seq<(u32, Weight)>, offset: u32)
    requires
        forall|i: int| 0 <= i < b.len() ==> (#[trigger] b[i]).0 != offset,
    ensures
        stored(a + b).contains_key(offset) == stored(a).contains_key(offset),
        stored(a + b)[offset] == stored(a)[offset],
    decreases b.len(),
{
    if b.len() == 0 {
        assert(a + b =~= a);
    } else {
        let c = b.drop_last();
        assert((a + b).drop_last() =~= a + c);
        assert((a + b).last() == b[b.len() - 1]);
        assert(forall|i: int| 0 <= i < c.len() ==> #[trigger] c[i] == b[i]);
        lemma_stored_without(a, c, offset);
    }
}

/// Of more postings the last one with an offset counts.
proof fn lemma_stored_with(a: Seq<(u32, Weight)>, b: Seq<(u32, Weight)>, i: int)
    requires
        0 <= i < b.len(),
        forall|j: int| i < j < b.len() ==> (#[trigger] b[j]).0 != b[i].0,
    ensures
        stored(a + b).contains_key(b[i].0),
        stored(a + b)[b[i].0] == b[i].1,
    decreases b.len(),
{
    let c = b.drop_last();
    let n = b.len() - 1;
    assert((a + b).drop_last() =~= a + c);
    assert((a + b).last() == b[n]);
    if i < n {
        assert(b[n].0 != b[i].0);
        assert(forall|j: int| 0 <= j < c.len() ==> #[trigger] c[j] == b[j]);
        lemma_stored_with(a, c, i);
    }
}

/// The last place of an offset that occurs.
proof fn lemma_last_place(b: Seq<(u32, Weight)>, i: int) -> (last: int)
    requires
        0 <= i < b.len(),
    ensures
        i <= last < b.len(),
        b[last].0 == b[i].0,
        forall|j: int| last < j < b.len() ==> (#[trigger] b[j]).0 != b[i].0,
    decreases b.len() - i,
{
    if exists|j: int| i < j < b.len() && (#[trigger] b[j]).0 == b[i].0 {
        let j = choose|j: int| i < j < b.len() && (#[trigger] b[j]).0 == b[i].0;
        lemma_last_place(b, j)
    } else {
        i
    }
}

/// A posting that no later one of the blocks replaces is stored.
proof fn lemma_last_posting_is_stored(blocks: Seq<Vec<(u32, Weight)>>, b: int, i: int)
    requires
        0 <= b < blocks.len(),
        0 <= i < blocks[b]@.len(),
        forall|c: int, j: int|
            0 <= c < blocks.len() && 0 <= j < blocks[c]@.len() && (c > b || (c == b && j > i))
                ==> (#[trigger] blocks[c]@[j]).0 != blocks[b]@[i].0,
    ensures
        stored(block_entries(blocks)).contains_key(blocks[b]@[i].0),
        stored(block_entries(blocks))[blocks[b]@[i].0] == blocks[b]@[i].1,
    decreases blocks.len(),
{
    let before = blocks.drop_last();
    let n = blocks.len() - 1;
    let offset = blocks[b]@[i].0;
    let last = blocks[n]@;
    assert(blocks.last() == blocks[n]);
    if b == n {
        assert forall|j: int| i < j < last.len() implies (#[trigger] last[j]).0 != last[i].0 by {
            assert(blocks[n]@[j].0 != offset);
        }
        lemma_stored_with(block_entries(before), last, i);
    } else {
        assert forall|j: int| 0 <= j < last.len() implies (#[trigger] last[j]).0 != offset by {
            assert(blocks[n]@[j].0 != offset);
        }
        lemma_stored_without(block_entries(before), last, offset);
        assert(forall|c: int| 0 <= c < before.len() ==> #[trigger] before[c] == blocks[c]);
        lemma_last_posting_is_stored(before, b, i);
    }
}

/// What is stored stands in one of the blocks.
proof fn lemma_stored_stands_in_a_block(blocks: Seq<Vec<(u32, Weight)>>, offset: u32)
    requires
        stored(block_entries(blocks)).contains_key(offset),
    ensures
        exists|b: int, i: int|
            0 <= b < blocks.len() && 0 <= i < blocks[b]@.len() && #[trigger] blocks[b]@[i] == (
                offset,
                stored(block_entries(blocks))[offset],
            ),
    decreases blocks.len(),
{
    if blocks.len() > 0 {
        let before = blocks.drop_last();
        let n = blocks.len() - 1;
        let last = blocks[n]@;
        assert(blocks.last() == blocks[n]);
        if exists|i: int| 0 <= i < last.len() && (#[trigger] last[i]).0 == offset {
            let first = choose|i: int| 0 <= i < last.len() && (#[trigger] last[i]).0 == offset;
            let i = lemma_last_place(last, first);
            lemma_stored_with(block_entries(before), last, i);
            assert(blocks[n]@[i] == (offset, stored(block_entries(blocks))[offset]));
        } else {
            lemma_stored_without(block_entries(before), last, offset);
            assert(stored(block_entries(before)).contains_key(offset));
            lemma_stored_stands_in_a_block(before, offset);
            let (b, i) = choose|b: int, i: int|
                0 <= b < before.len() && 0 <= i < before[b]@.len() && #[trigger] before[b]@[i] == (
                    offset,
                    stored(block_entries(before))[offset],
                );
            assert(blocks[b]@[i] == (offset, stored(block_entries(blocks))[offset]));
        }
    }
}

/// What merging yields, over the old blocks and the updates themselves: a list by
/// rising offset; an update that sets is in it, and one that deletes leaves its
/// offset out; every posting of every old block is in it unless its offset was
/// updated or stands again in a later place; and nothing else is.
pub proof fn law_merging_keeps_every_posting(
    old_blocks: Seq<Vec<(u32, Weight)>>,
    updates: Map<u32, Option<u32>>,
    entries: Seq<(u32, Weight)>,
)
    requires
        is_listing(entries, merged(stored(block_entries(old_blocks)), updates)),
    ensures
        forall|x: int, y: int|
            #![trigger entries[x], entries[y]]
            0 <= x < y < entries.len() ==> entries[x].0 < entries[y].0,
        forall|offset: u32| #[trigger]
            updates.contains_key(offset) ==> match updates[offset] {
                Some(bits) => entries.contains((offset, Weight { bits })),
                None => forall|x: int| 0 <= x < entries.len() ==> (#[trigger] entries[x]).0 != offset,
            },
        forall|b: int, i: int|
            0 <= b < old_blocks.len() && 0 <= i < old_blocks[b]@.len() && !updates.contains_key(
                (#[trigger] old_blocks[b]@[i]).0,
            ) && (forall|c: int, j: int|
                0 <= c < old_blocks.len() && 0 <= j < old_blocks[c]@.len() && (c > b || (c == b && j > i))
                    ==> (#[trigger] old_blocks[c]@[j]).0 != old_blocks[b]@[i].0) ==> entries.contains(
                old_blocks[b]@[i],
            ),
        forall|x: int|
            0 <= x < entries.len() && !updates.contains_key((#[trigger] entries[x]).0) ==> exists|b: int, i: int|
                0 <= b < old_blocks.len() && 0 <= i < old_blocks[b]@.len() && #[trigger] old_blocks[b]@[i] == entries[x],
{
    let before = stored(block_entries(old_blocks));
    let all = merged(before, updates);
    assert forall|offset: u32| #[trigger] updates.contains_key(offset) implies (match updates[offset] {
        Some(bits) => entries.contains((offset, Weight { bits })),
        None => forall|x: int| 0 <= x < entries.len() ==> (#[trigger] entries[x]).0 != offset,
    }) by {
        match updates[offset] {
            Some(bits) => {
                assert(all.contains_key(offset));
                let x = choose|x: int|
                    0 <= x < entries.len() && (#[trigger] entries[x]).0 == offset;
                assert(entries[x] == (offset, Weight { bits }));
            },
            None => {
                assert(!all.contains_key(offset));
            },
        }
    }
    assert forall|b: int, i: int|
        0 <= b < old_blocks.len() && 0 <= i < old_blocks[b]@.len() && !updates.contains_key(
            (#[trigger] old_blocks[b]@[i]).0,
        ) && (forall|c: int, j: int|
            0 <= c < old_blocks.len() && 0 <= j < old_blocks[c]@.len() && (c > b || (c == b && j
                > i)) ==> (#[trigger] old_blocks[c]@[j]).0 != old_blocks[b]@[i].0) implies
        entries.contains(old_blocks[b]@[i]) by {
        let offset = old_blocks[b]@[i].0;
        lemma_last_posting_is_stored(old_blocks, b, i);
        assert(all.contains_key(offset));
        let x = choose|x: int| 0 <= x < entries.len() && (#[trigger] entries[x]).0 == offset;
        assert(entries[x] == old_blocks[b]@[i]);
    }
    assert forall|x: int|
        0 <= x < entries.len() && !updates.contains_key((#[trigger] entries[x]).0) implies exists|
        b: int,
        i: int,
    |
        0 <= b < old_blocks.len() && 0 <= i < old_blocks[b]@.len() && #[trigger] old_blocks[b]@[i]
            == entries[x] by {
        assert(all.contains_key(entries[x].0));
        lemma_stored_stands_in_a_block(old_blocks, entries[x].0);
    }
}

} // verus!
