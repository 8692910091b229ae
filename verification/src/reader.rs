//! Reading: what of a scan is postings, which dimensions are stored, and how a
//! query is set up.

use vstd::prelude::*;

use crate::layout::DIRECTORY_KEY;
use crate::storage::StoredValue;
use crate::weight::Weight;

verus! {

/// The decisions of a reader; fetching is up to its caller.
#[derive(Debug)]
pub struct BlockSparseReader {}

/// Of the values that a scan returns, those that are not the directory.
pub open spec fn posting_values<B>(scanned: Seq<(u32, B)>) -> Seq<B> {
    scanned.filter(|e: (u32, B)| e.0 != DIRECTORY_KEY).map_values(|e: (u32, B)| e.1)
}

/// A dimension's directory: for each block its last offset and its greatest
/// weight.
#[derive(Debug)]
pub struct Directory {
    pub max_offsets: Vec<u32>,
    pub max_weights: Vec<Weight>,
}

impl Directory {
    /// The entries: for each block its last offset and its greatest weight.
    pub open spec fn view(&self) -> Seq<(u32, Weight)> {
        Seq::new(
            self.max_offsets@.len(),
            |j: int| (self.max_offsets@[j], self.max_weights@[j]),
        )
    }
}

/// The directory of blocks with these last offsets and greatest weights, in
/// block order.
pub fn directory_of(maxima: &Vec<(u32, Weight)>) -> (d: Directory)
    ensures
        d.max_offsets@ == maxima@.map_values(|m: (u32, Weight)| m.0),
        d.max_weights@ == maxima@.map_values(|m: (u32, Weight)| m.1),
        d@ == maxima@,
{
    let mut max_offsets: Vec<u32> = Vec::new();
    let mut max_weights: Vec<Weight> = Vec::new();
    let mut j: usize = 0;
    while j < maxima.len()
        invariant
            j <= maxima.len(),
            max_offsets@ =~= maxima@.take(j as int).map_values(|m: (u32, Weight)| m.0),
            max_weights@ =~= maxima@.take(j as int).map_values(|m: (u32, Weight)| m.1),
        decreases maxima.len() - j,
    {
        max_offsets.push(maxima[j].0);
        max_weights.push(maxima[j].1);
        j = j + 1;
    }
    assert(maxima@.take(j as int) =~= maxima@);
    let d: Directory = Directory { max_offsets, max_weights };
    assert(d@ =~= maxima@);
    d
}

/// A query term whose dimension has postings.
#[derive(Debug)]
pub struct TermMeta {
    /// Which dimension of the query it is.
    pub index: usize,
    pub query_weight: Weight,
    pub directory: Directory,
    /// The greatest weight of the dimension, or zero.
    pub dim_max: Weight,
}

/// How the blocks of a dimension are fetched.
#[derive(Clone, Copy, Debug, PartialEq, Eq, Structural)]
pub enum CursorPath {
    /// All at once, when the cursor is opened.
    Eager,
    /// When they are needed.
    Lazy,
}

/// Dimensions of up to this many storage blocks are fetched at once.
pub const EAGER_BLOCKS: usize = 2;

/// A query before its terms are looked up.
#[derive(Debug)]
pub struct QueryPlan {
    query_vector: Vec<(u32, Weight)>,
    k: u32,
}

/// The positions below `n` of the directories that list a block.
pub open spec fn usable(directories: Seq<Option<Directory>>, n: nat) -> Seq<int>
    decreases n,
{
    if n == 0 {
        Seq::empty()
    } else {
        let before = usable(directories, (n - 1) as nat);
        match directories[n - 1] {
            Some(d) if d.max_offsets@.len() > 0 => before.push(n - 1),
            _ => before,
        }
    }
}

impl BlockSparseReader {
    /// The posting blocks among the values that a scan returned, in scan order.
    pub fn get_posting_blocks<B>(scanned: Vec<(u32, B)>) -> (blocks: Vec<B>)
        ensures
            blocks@ == posting_values(scanned@),
    {
        let mut blocks: Vec<B> = Vec::new();
        let ghost all = scanned@;
        let ghost keep = |e: (u32, B)| e.0 != DIRECTORY_KEY;
        let ghost value = |e: (u32, B)| e.1;
        proof {
            reveal(Seq::filter);
            assert(all.take(0).filter(keep).map_values(value) =~= Seq::<B>::empty());
        }
        for entry in it: scanned
            invariant
                it.seq() == all,
                keep == (|e: (u32, B)| e.0 != DIRECTORY_KEY),
                value == (|e: (u32, B)| e.1),
                blocks@ == all.take(it.index()).filter(keep).map_values(value),
        {
            proof {
                reveal(Seq::filter);
                let now = all.take(it.index() + 1);
                let before = all.take(it.index());
                assert(now.drop_last() =~= before);
                assert(now.last() == entry);
                assert(before.filter(keep).push(entry).map_values(value) =~= before.filter(
                    keep,
                ).map_values(value).push(entry.1));
            }
            if entry.0 != DIRECTORY_KEY {
                blocks.push(entry.1);
            }
        }
        assert(all.take(all.len() as int) =~= all);
        blocks
    }

    /// The dimensions that are stored, in rising order; a key that does not
    /// decode to a dimension is passed over.
    pub fn get_all_dimension_ids(decoded: &Vec<Option<u32>>) -> (ids: Vec<u32>)
        ensures
            crate::dimension::is_rising(ids@),
            forall|i: int, j: int|
                #![trigger ids@[i], ids@[j]]
                0 <= i < j < ids.len() ==> ids@[i] < ids@[j],
            forall|id: u32| ids@.contains(id) <==> decoded@.contains(Some(id)),
    {
        let mut found: Vec<u32> = Vec::new();
        let mut i: usize = 0;
        while i < decoded.len()
            invariant
                i <= decoded.len(),
                forall|id: u32|
                    found@.contains(id) <==> decoded@.take(i as int).contains(Some(id)),
            decreases decoded.len() - i,
        {
            let ghost before = found@;
            let ghost seen = decoded@.take(i as int);
            let ghost now = decoded@.take(i + 1);
            let next: Option<u32> = decoded[i];
            if let Some(id) = next {
                found.push(id);
            }
            proof {
                assert(now =~= seen.push(next));
                assert forall|id: u32| found@.contains(id) <==> now.contains(Some(id)) by {
                    if now.contains(Some(id)) {
                        let j = choose|j: int| 0 <= j < now.len() && now[j] == Some(id);
                        if j < i {
                            assert(seen[j] == Some(id));
                            assert(before.contains(id));
                            let a = choose|a: int| 0 <= a < before.len() && before[a] == id;
                            assert(found@[a] == id);
                        } else {
                            assert(found@[before.len() as int] == id);
                        }
                    }
                    if found@.contains(id) {
                        let a = choose|a: int| 0 <= a < found@.len() && found@[a] == id;
                        if a < before.len() {
                            assert(before[a] == id);
                            assert(before.contains(id));
                            assert(seen.contains(Some(id)));
                            let j = choose|j: int| 0 <= j < seen.len() && seen[j] == Some(id);
                            assert(now[j] == Some(id));
                        } else {
                            assert(now[i as int] == Some(id));
                        }
                    }
                }
            }
            i = i + 1;
        }
        assert(decoded@.take(i as int) =~= decoded@);
        crate::dimension::distinct_sorted(&found)
    }

    /// The blocks that a cursor over a scanned dimension opens with; `None`
    /// when the dimension has no postings.
    pub fn open_cursor<B>(scanned: Vec<(u32, B)>) -> (blocks: Option<Vec<B>>)
        ensures
            blocks is Some <==> posting_values(scanned@).len() > 0,
            blocks matches Some(b) ==> b@ == posting_values(scanned@),
    {
        let blocks: Vec<B> = BlockSparseReader::get_posting_blocks(scanned);
        if blocks.len() == 0 {
            None
        } else {
            Some(blocks)
        }
    }

    /// Sets up a query for the best `k` documents; `None` when `k` is zero and
    /// there is nothing to look for.
    pub fn query(query_vector: Vec<(u32, Weight)>, k: u32) -> (plan: Option<QueryPlan>)
        ensures
            plan is Some <==> k > 0,
            plan matches Some(p) ==> p.terms() == query_vector@ && p.wanted() == k,
    {
        if k == 0 {
            None
        } else {
            Some(QueryPlan { query_vector, k })
        }
    }

    /// How the blocks of a dimension with this many storage blocks are fetched.
    pub fn cursor_path(block_count: usize) -> (path: CursorPath)
        ensures
            path == if block_count <= EAGER_BLOCKS {
                CursorPath::Eager
            } else {
                CursorPath::Lazy
            },
            path == CursorPath::Eager <==> block_count <= 2,
    {
        if block_count <= EAGER_BLOCKS {
            CursorPath::Eager
        } else {
            CursorPath::Lazy
        }
    }

    /// The blocks, if every one of them was found.
    pub fn complete_blocks<B>(found: Vec<Option<B>>) -> (blocks: Option<Vec<B>>)
        ensures
            blocks is Some <==> forall|i: int| 0 <= i < found.len() ==> #[trigger] found@[i] is Some,
            blocks matches Some(b) ==> b@ == found@.map_values(|f: Option<B>| f->0),
    {
        let n: usize = found.len();
        let mut blocks: Vec<B> = Vec::new();
        let ghost all = found@;
        for entry in it: found
            invariant
                it.seq() == all,
                n == all.len(),
                blocks.len() <= it.index(),
                blocks.len() == it.index() <==> forall|i: int|
                    0 <= i < it.index() ==> #[trigger] all[i] is Some,
                blocks.len() == it.index() ==> blocks@ =~= all.take(it.index()).map_values(
                    |f: Option<B>| f->0,
                ),
        {
            if let Some(block) = entry {
                blocks.push(block);
            }
            assert(all[it.index()] == entry);
        }
        assert(all.take(all.len() as int) =~= all);
        if blocks.len() == n {
            Some(blocks)
        } else {
            None
        }
    }
}

impl QueryPlan {
    /// The dimensions of the query and their weights.
    pub closed spec fn terms(&self) -> Seq<(u32, Weight)> {
        self.query_vector@
    }

    /// How many documents are wanted.
    pub closed spec fn wanted(&self) -> u32 {
        self.k
    }

    pub fn k(&self) -> (k: u32)
        ensures
            k == self.wanted(),
    {
        self.k
    }

    /// The keys of the directories to load, in query order: each a dimension
    /// and a key in it.
    pub fn directory_keys(&self) -> (keys: Vec<(u32, u32)>)
        ensures
            keys@ == self.terms().map_values(|t: (u32, Weight)| (t.0, DIRECTORY_KEY)),
    {
        let mut keys: Vec<(u32, u32)> = Vec::new();
        let mut i: usize = 0;
        while i < self.query_vector.len()
            invariant
                i <= self.query_vector.len(),
                keys@ =~= self.query_vector@.take(i as int).map_values(
                    |t: (u32, Weight)| (t.0, DIRECTORY_KEY),
                ),
            decreases self.query_vector.len() - i,
        {
            keys.push((self.query_vector[i].0, DIRECTORY_KEY));
            i = i + 1;
        }
        assert(self.query_vector@.take(i as int) =~= self.query_vector@);
        keys
    }

    /// Takes the directories that were found, in query order, and keeps the
    /// terms whose directory lists a block.
    pub fn term_metas(&self, directories: Vec<Option<Directory>>) -> (metas: Vec<TermMeta>)
        requires
            directories.len() == self.terms().len(),
        ensures
            ({
                let kept = usable(directories@, directories@.len());
                &&& metas.len() == kept.len()
                &&& forall|j: int|
                    0 <= j < metas.len() ==> {
                        let m = #[trigger] metas@[j];
                        &&& m.index == kept[j]
                        &&& m.query_weight == self.terms()[kept[j]].1
                        &&& directories@[kept[j]] == Some(m.directory)
                        &&& m.dim_max.is_greatest_of(m.directory.max_weights@)
                    }
            }),
            forall|a: int, b: int|
                #![trigger metas@[a], metas@[b]]
                0 <= a < b < metas.len() ==> metas@[a].index < metas@[b].index,
            forall|j: int|
                0 <= j < directories.len() && (#[trigger] directories@[j] matches Some(d)
                    && d.max_offsets@.len() > 0) ==> exists|a: int|
                    0 <= a < metas.len() && (#[trigger] metas@[a]).index == j,
            forall|a: int|
                0 <= a < metas.len() ==> {
                    let m = #[trigger] metas@[a];
                    &&& m.index < directories.len()
                    &&& directories@[m.index as int] == Some(m.directory)
                    &&& m.directory.max_offsets@.len() > 0
                    &&& m.query_weight == self.terms()[m.index as int].1
                    &&& forall|i: int|
                        0 <= i < m.directory.max_weights@.len()
                            ==> !(#[trigger] m.directory.max_weights@[i]).gt(m.dim_max)
                    &&& m.dim_max.bits == 0 || exists|i: int|
                        0 <= i < m.directory.max_weights@.len()
                            && #[trigger] m.directory.max_weights@[i] == m.dim_max
                },
    {
        let mut metas: Vec<TermMeta> = Vec::new();
        let ghost all = directories@;
        let n: usize = directories.len();
        let mut index: usize = 0;
        for entry in it: directories
            invariant
                it.seq() == all,
                index == it.index(),
                n == all.len(),
                n == self.query_vector@.len(),
                metas.len() == usable(all, index as nat).len(),
                forall|j: int|
                    0 <= j < metas.len() ==> {
                        let m = #[trigger] metas@[j];
                        let kept = usable(all, index as nat);
                        &&& m.index == kept[j]
                        &&& m.query_weight == self.query_vector@[kept[j]].1
                        &&& all[kept[j]] == Some(m.directory)
                        &&& m.dim_max.is_greatest_of(m.directory.max_weights@)
                    },
        {
            assert(all[index as int] == entry);
            if let Some(directory) = entry {
                if directory.max_offsets.len() > 0 {
                    let dim_max: Weight = Weight::greatest(&directory.max_weights);
                    let query_weight: Weight = self.query_vector[index].1;
                    metas.push(TermMeta { index, query_weight, directory, dim_max });
                }
            }
            index = index + 1;
        }
        proof {
            law_usable_directories_list_a_block(all);
            let kept = usable(all, all.len());
            assert forall|a: int, b: int|
                #![trigger metas@[a], metas@[b]]
                0 <= a < b < metas.len() implies metas@[a].index < metas@[b].index by {
                assert(kept[a] < kept[b]);
            }
            assert forall|j: int|
                0 <= j < all.len() && (#[trigger] all[j] matches Some(d) && d.max_offsets@.len()
                    > 0) implies exists|a: int|
                0 <= a < metas.len() && (#[trigger] metas@[a]).index == j by {
                let a = choose|a: int| 0 <= a < kept.len() && #[trigger] kept[a] == j;
                assert(metas@[a].index == j);
            }
            assert forall|a: int| 0 <= a < metas.len() implies {
                let m = #[trigger] metas@[a];
                &&& m.index < all.len()
                &&& all[m.index as int] == Some(m.directory)
                &&& m.directory.max_offsets@.len() > 0
                &&& m.query_weight == self.terms()[m.index as int].1
                &&& forall|i: int|
                    0 <= i < m.directory.max_weights@.len()
                        ==> !(#[trigger] m.directory.max_weights@[i]).gt(m.dim_max)
                &&& m.dim_max.bits == 0 || exists|i: int|
                    0 <= i < m.directory.max_weights@.len()
                        && #[trigger] m.directory.max_weights@[i] == m.dim_max
            } by {
                assert(0 <= kept[a] < all.len());
                crate::weight::law_greatest_is_the_maximum(
                    metas@[a].dim_max,
                    metas@[a].directory.max_weights@,
                );
            }
        }
        metas
    }
}

/// Scanning a posting list and leaving the directory out gives its blocks, in
/// order.
pub proof fn law_scan_reads_the_blocks(
    blocks: Seq<Seq<(u32, Weight)>>,
    maxima: Seq<(u32, Weight)>,
)
    requires
        blocks.len() <= DIRECTORY_KEY,
    ensures
        posting_values(crate::storage::scan(blocks, maxima)) == blocks.map_values(
            |b: Seq<(u32, Weight)>| StoredValue::Postings(b),
        ),
{
    let keep = |e: (u32, StoredValue)| e.0 != DIRECTORY_KEY;
    let listed = Seq::new(blocks.len(), |i: int| (i as u32, StoredValue::Postings(blocks[i])));
    lemma_all_kept(listed, keep);
    reveal(Seq::filter);
    let scanned = crate::storage::scan(blocks, maxima);
    if blocks.len() > 0 {
        assert(scanned.drop_last() =~= listed);
        assert(!keep(scanned.last()));
    }
    assert(scanned.filter(keep) =~= listed);
    assert(posting_values(scanned) =~= blocks.map_values(
        |b: Seq<(u32, Weight)>| StoredValue::Postings(b),
    ));
}

proof fn lemma_all_kept(
    s: Seq<(u32, StoredValue)>,
    keep: spec_fn((u32, StoredValue)) -> bool,
)
    requires
        forall|i: int| 0 <= i < s.len() ==> keep(#[trigger] s[i]),
    ensures
        s.filter(keep) == s,
    decreases s.len(),
{
    reveal(Seq::filter);
    if s.len() > 0 {
        assert forall|i: int| 0 <= i < s.len() - 1 implies keep(#[trigger] s.drop_last()[i]) by {
            assert(keep(s[i]));
        }
        lemma_all_kept(s.drop_last(), keep);
        assert(keep(s[s.len() - 1]));
        assert(s.drop_last().push(s.last()) =~= s);
    }
}

/// The positions of the query that are kept: exactly those whose directory was
/// found and lists at least one block, however many, in rising order.
pub proof fn law_usable_directories_list_a_block(directories: Seq<Option<Directory>>)
    ensures
        ({
            let kept = usable(directories, directories.len());
            &&& forall|a: int, b: int|
                #![trigger kept[a], kept[b]]
                0 <= a < b < kept.len() ==> kept[a] < kept[b]
            &&& forall|a: int|
                0 <= a < kept.len() ==> 0 <= (#[trigger] kept[a]) < directories.len() && (
                directories[kept[a]] matches Some(d) && d.max_offsets@.len() > 0)
            &&& forall|j: int|
                0 <= j < directories.len() && (#[trigger] directories[j] matches Some(d)
                    && d.max_offsets@.len() > 0) ==> exists|a: int|
                    0 <= a < kept.len() && #[trigger] kept[a] == j
        }),
{
    lemma_usable(directories, directories.len());
}

proof fn lemma_usable(directories: Seq<Option<Directory>>, n: nat)
    requires
        n <= directories.len(),
    ensures
        ({
            let kept = usable(directories, n);
            &&& forall|a: int, b: int|
                #![trigger kept[a], kept[b]]
                0 <= a < b < kept.len() ==> kept[a] < kept[b]
            &&& forall|a: int|
                0 <= a < kept.len() ==> 0 <= (#[trigger] kept[a]) < n && (
                directories[kept[a]] matches Some(d) && d.max_offsets@.len() > 0)
            &&& forall|j: int|
                0 <= j < n && (#[trigger] directories[j] matches Some(d) && d.max_offsets@.len()
                    > 0) ==> exists|a: int| 0 <= a < kept.len() && #[trigger] kept[a] == j
        }),
    decreases n,
{
    if n > 0 {
        lemma_usable(directories, (n - 1) as nat);
        let before = usable(directories, (n - 1) as nat);
        let kept = usable(directories, n);
        assert forall|j: int|
            0 <= j < n && (#[trigger] directories[j] matches Some(d) && d.max_offsets@.len()
                > 0) implies exists|a: int| 0 <= a < kept.len() && #[trigger] kept[a] == j by {
            if j < n - 1 {
                let a = choose|a: int| 0 <= a < before.len() && #[trigger] before[a] == j;
                assert(kept[a] == j);
            } else {
                assert(kept[before.len() as int] == j);
            }
        }
    }
}

/// The values that are kept of a scan: exactly those whose key is not the
/// greatest one, which is the directory's, in scan order.
pub proof fn law_scan_is_kept_but_for_the_directory<B>(scanned: Seq<(u32, B)>) -> (at: Seq<int>)
    ensures
        at.len() == posting_values(scanned).len(),
        forall|i: int|
            0 <= i < at.len() ==> 0 <= (#[trigger] at[i]) < scanned.len() && posting_values(
                scanned,
            )[i] == scanned[at[i]].1,
        forall|i: int, j: int|
            #![trigger at[i], at[j]]
            0 <= i < j < at.len() ==> at[i] < at[j],
        forall|p: int|
            #![trigger scanned[p]]
            0 <= p < scanned.len() ==> (scanned[p].0 != u32::MAX <==> exists|i: int|
                0 <= i < at.len() && #[trigger] at[i] == p),
{
    crate::order::lemma_filter_places(scanned, |e: (u32, B)| e.0 != DIRECTORY_KEY)
}

} // verus!
