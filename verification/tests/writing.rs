use sparse_maxscore::dimension::{distinct_sorted, merged_ids};
use sparse_maxscore::layout::{
    block_count, plan_blocks, truncated, BlockOp, DirectoryOp, DEFAULT_BLOCK_SIZE, DIRECTORY_KEY,
    SPARSE_POSTING_BLOCK_SIZE_BYTES,
};
use sparse_maxscore::reader::directory_of;
use sparse_maxscore::weight::Weight;
use sparse_maxscore::writer::{BlockSparseWriter, Commit, CommitStep, PlanStep};

fn w(x: f32) -> Weight {
    Weight::from_bits(x.to_bits())
}

fn entries(v: &[(u32, f32)]) -> Vec<(u32, Weight)> {
    v.iter().map(|&(o, x)| (o, w(x))).collect()
}

fn show(ops: &[BlockOp]) -> Vec<String> {
    ops.iter()
        .map(|op| match op {
            BlockOp::SetBlock(seq, e) => {
                let listed: Vec<String> = e
                    .iter()
                    .map(|(o, x)| format!("{}={}", o, f32::from_bits(x.to_bits())))
                    .collect();
                format!("set {} [{}]", seq, listed.join(" "))
            }
            BlockOp::DeleteBlock(seq) => format!("delete {}", seq),
        })
        .collect()
}

fn show_directory(op: &DirectoryOp) -> String {
    match op {
        DirectoryOp::SetDirectory(d) => {
            assert_eq!(d.max_offsets.len(), d.max_weights.len());
            let listed: Vec<String> = d
                .max_offsets
                .iter()
                .zip(d.max_weights.iter())
                .map(|(o, x)| format!("{}={}", o, f32::from_bits(x.to_bits())))
                .collect();
            format!("set directory [{}]", listed.join(" "))
        }
        DirectoryOp::DeleteDirectory => "delete directory".to_string(),
    }
}

// The last offset and the greatest weight of each block that is set.
fn maxima(ops: &[BlockOp]) -> Vec<(u32, Weight)> {
    ops.iter()
        .filter_map(|op| match op {
            BlockOp::SetBlock(_, e) => {
                let greatest = e.iter().map(|(_, x)| f32::from_bits(x.to_bits())).fold(0.0, f32::max);
                Some((e[e.len() - 1].0, w(greatest)))
            }
            BlockOp::DeleteBlock(_) => None,
        })
        .collect()
}

// Carries a plan out: its changes, and the commit that goes on.
fn carry_out(plan: PlanStep) -> (Vec<String>, Commit) {
    assert!(plan.can_plan());
    let (ops, step) = plan.plan();
    let found = maxima(&ops);
    assert_eq!(step.block_count(), found.len());
    let (directory, commit) = step.directory(&found);
    let mut shown = show(&ops);
    shown.push(show_directory(&directory));
    (shown, commit)
}

// Keys of one byte each, which reverse the order of the ids.
fn encoded(ids: &[u32]) -> Vec<Vec<u8>> {
    ids.iter().map(|id| vec![255 - *id as u8]).collect()
}

fn run_commit(
    mut writer: BlockSparseWriter,
    stored: &[(u32, Vec<Vec<(u32, Weight)>>)],
) -> Vec<(u32, Vec<String>)> {
    let stored_ids: Vec<u32> = stored.iter().map(|s| s.0).collect();
    let ids = writer.dimension_ids(&stored_ids);
    let keys = encoded(&ids);
    let mut commit: Commit = writer.commit(ids.clone(), &keys);
    let mut out = Vec::new();
    loop {
        match commit.next(&mut writer) {
            CommitStep::Finished => break,
            CommitStep::Dimension(step) => {
                let id = ids[step.dimension_index()];
                let blocks: Vec<Vec<(u32, Weight)>> = stored
                    .iter()
                    .filter(|s| s.0 == id)
                    .flat_map(|s| s.1.clone())
                    .collect();
                let plan = step.merge(&blocks);
                let (shown, rest) = carry_out(plan);
                out.push((id, shown));
                commit = rest;
            }
        }
    }
    out
}

#[test]
fn layout_constants() {
    assert_eq!(DEFAULT_BLOCK_SIZE, 1024);
    assert_eq!(DIRECTORY_KEY, u32::MAX);
    assert_eq!(SPARSE_POSTING_BLOCK_SIZE_BYTES, 1024 * 1024);
    assert_eq!(truncated(7), 7);
    assert_eq!(truncated(u32::MAX as usize), u32::MAX);
    assert_eq!(truncated(u32::MAX as usize + 3), 2);
}

#[test]
fn ids_are_sorted_without_duplicates() {
    assert_eq!(distinct_sorted(&vec![5, 1, 5, 3, 1]), vec![1, 3, 5]);
    assert_eq!(distinct_sorted(&vec![]), Vec::<u32>::new());
    assert_eq!(merged_ids(&vec![4, 2], &vec![2, 9, 1]), vec![1, 2, 4, 9]);
}

#[test]
fn plan_cuts_postings_into_blocks() {
    let e = entries(&[(1, 1.0), (2, 2.0), (5, 3.0), (7, 4.0), (8, 5.0)]);
    assert_eq!(
        show(&plan_blocks(&e, 2, 0)),
        vec!["set 0 [1=1 2=2]", "set 1 [5=3 7=4]", "set 2 [8=5]"]
    );
    assert_eq!(
        show(&plan_blocks(&e, 3, 4)),
        vec!["set 0 [1=1 2=2 5=3]", "set 1 [7=4 8=5]", "delete 2", "delete 3"]
    );
    assert_eq!(
        show(&plan_blocks(&e, 5, 1)),
        vec!["set 0 [1=1 2=2 5=3 7=4 8=5]"]
    );
}

#[test]
fn plan_of_nothing_deletes_everything() {
    assert_eq!(
        show(&plan_blocks(&vec![], 4, 2)),
        vec!["delete 0", "delete 1"]
    );
    assert!(plan_blocks(&vec![], 0, 0).is_empty());
    assert_eq!(block_count(0, 0), 0);
    assert_eq!(block_count(0, 3), 0);
    assert_eq!((block_count(6, 3), block_count(7, 3), block_count(1, 3)), (2, 3, 1));
}

#[test]
fn commit_of_new_dimensions_follows_the_encoded_keys() {
    let mut writer = BlockSparseWriter::new();
    writer.set(10, &entries(&[(1, 0.5), (3, 1.5)]));
    writer.set(4, &entries(&[(1, 2.5)]));
    assert_eq!(writer.dimension_ids(&vec![7, 3]), vec![1, 3, 7]);
    assert_eq!(
        run_commit(writer, &[]),
        vec![
            (3, vec!["set 0 [10=1.5]".to_string(), "set directory [10=1.5]".to_string()]),
            (1, vec!["set 0 [4=2.5 10=0.5]".to_string(), "set directory [10=2.5]".to_string()]),
        ]
    );
}

#[test]
fn commit_merges_updates_into_stored_blocks() {
    let stored = vec![
        (
            1,
            vec![entries(&[(1, 1.0), (2, 2.0)]), entries(&[(3, 3.0), (4, 4.0)]), entries(&[(5, 5.0)])],
        ),
        (2, vec![entries(&[(1, 1.0)])]),
        (6, vec![entries(&[(8, 8.0)])]),
    ];
    let mut writer = BlockSparseWriter::new().with_block_size(2);
    writer.set(3, &entries(&[(1, 33.0)]));
    writer.delete(2, &vec![1]);
    writer.delete(4, &vec![1]);
    writer.delete(1, &vec![2]);
    assert_eq!(
        run_commit(writer, &stored),
        vec![
            (2, vec!["delete 0".to_string(), "delete directory".to_string()]),
            (
                1,
                vec![
                    "set 0 [1=1 3=33]".to_string(),
                    "set 1 [5=5]".to_string(),
                    "delete 2".to_string(),
                    "set directory [3=33 5=5]".to_string()
                ]
            ),
        ]
    );
}

#[test]
fn the_last_update_counts() {
    let mut writer = BlockSparseWriter::new();
    writer.set(1, &entries(&[(5, 1.0), (5, 2.0)]));
    writer.set(2, &entries(&[(5, 3.0)]));
    writer.delete(2, &vec![5]);
    writer.delete(3, &vec![5]);
    writer.set(3, &entries(&[(5, 4.0)]));
    assert_eq!(
        run_commit(writer, &[]),
        vec![(5, vec!["set 0 [1=2 3=4]".to_string(), "set directory [3=4]".to_string()])]
    );
}

#[test]
fn a_later_block_overrides_an_earlier_one() {
    let stored = vec![(1, vec![entries(&[(1, 1.0)]), entries(&[(1, 9.0)])])];
    let mut writer = BlockSparseWriter::new();
    writer.delete(77, &vec![1]);
    assert_eq!(
        run_commit(writer, &stored),
        vec![(
            1,
            vec![
                "set 0 [1=9]".to_string(),
                "delete 1".to_string(),
                "set directory [1=9]".to_string()
            ]
        )]
    );
}

#[test]
fn a_block_size_of_zero_plans_nothing_but_deletions() {
    let mut writer = BlockSparseWriter::new().with_block_size(0);
    writer.set(1, &entries(&[(5, 1.0)]));
    writer.delete(1, &vec![6]);
    let ids = writer.dimension_ids(&vec![]);
    assert_eq!(ids, vec![5, 6]);
    let commit = writer.commit(ids, &vec![vec![b'b'], vec![b'a', b'a']]);
    match commit.next(&mut writer) {
        CommitStep::Dimension(step) => {
            assert_eq!(step.dimension_index(), 1);
            let plan = step.merge(&vec![]);
            let (shown, rest) = carry_out(plan);
            assert_eq!(shown, vec!["delete directory"]);
            match rest.next(&mut writer) {
                CommitStep::Dimension(step) => {
                    assert_eq!(step.dimension_index(), 0);
                    assert!(!step.merge(&vec![]).can_plan());
                }
                CommitStep::Finished => unreachable!(),
            }
        }
        CommitStep::Finished => unreachable!(),
    }
}

#[test]
fn committed_postings_are_read_back() {
    let mut writer = BlockSparseWriter::new().with_block_size(3);
    let mut x: u32 = 99;
    let mut expected: Vec<(u32, f32)> = Vec::new();
    for i in 0..50u32 {
        x = x.wrapping_mul(1664525).wrapping_add(1013904223);
        let offset = (i * 37) % 101;
        let value = (x >> 20) as f32 / 16.0;
        writer.set(offset, &entries(&[(8, value)]));
        expected.push((offset, value));
    }
    expected.sort_by_key(|e| e.0);
    let ids = writer.dimension_ids(&vec![]);
    let commit = writer.commit(ids, &vec![vec![0]]);
    let plan = match commit.next(&mut writer) {
        CommitStep::Dimension(step) => step.merge(&vec![]),
        CommitStep::Finished => unreachable!(),
    };
    let (ops, step) = plan.plan();
    assert_eq!(step.block_count(), 17);
    let (directory, rest) = step.directory(&maxima(&ops));
    match directory {
        DirectoryOp::SetDirectory(d) => {
            assert_eq!(d.max_offsets.len(), 17);
            assert!(d.max_offsets.windows(2).all(|p| p[0] < p[1]));
            assert_eq!(d.max_offsets.last(), expected.last().map(|e| &e.0));
        }
        DirectoryOp::DeleteDirectory => unreachable!(),
    }
    assert!(matches!(rest.next(&mut writer), CommitStep::Finished));
    let mut read: Vec<(u32, f32)> = Vec::new();
    let mut blocks = 0;
    for op in ops.iter() {
        if let BlockOp::SetBlock(seq, e) = op {
            assert_eq!(*seq, blocks);
            assert!(!e.is_empty() && e.len() <= 3);
            blocks += 1;
            read.extend(e.iter().map(|(o, v)| (*o, f32::from_bits(v.to_bits()))));
        }
    }
    assert_eq!(blocks, 17);
    assert_eq!(read, expected);
}

#[test]
fn encoded_keys_are_ordered_like_a_dictionary() {
    let mut writer = BlockSparseWriter::new();
    writer.set(1, &entries(&[(1, 1.0), (2, 1.0), (3, 1.0), (4, 1.0)]));
    let ids = writer.dimension_ids(&vec![]);
    let keys: Vec<Vec<u8>> =
        ["b", "ab", "a", "abc"].iter().map(|s| s.as_bytes().to_vec()).collect();
    let mut commit = writer.commit(ids.clone(), &keys);
    let mut seen = Vec::new();
    loop {
        match commit.next(&mut writer) {
            CommitStep::Finished => break,
            CommitStep::Dimension(step) => {
                seen.push(ids[step.dimension_index()]);
                commit = carry_out(step.merge(&vec![])).1;
            }
        }
    }
    assert_eq!(seen, vec![3, 2, 4, 1]);
}

#[test]
fn a_directory_has_an_entry_for_each_block() {
    let mut writer = BlockSparseWriter::new().with_block_size(2);
    writer.set(5, &entries(&[(7, 0.5)]));
    writer.set(1, &entries(&[(7, 0.25)]));
    writer.set(9, &entries(&[(7, 1.0)]));
    assert_eq!(
        run_commit(writer, &[]),
        vec![(
            7,
            vec![
                "set 0 [1=0.25 5=0.5]".to_string(),
                "set 1 [9=1]".to_string(),
                "set directory [5=0.5 9=1]".to_string()
            ]
        )]
    );
    let d = directory_of(&entries(&[(5, 0.5), (9, 1.0)]));
    assert_eq!(d.max_offsets, vec![5, 9]);
    assert_eq!(d.max_weights, vec![w(0.5), w(1.0)]);
    assert!(directory_of(&vec![]).max_offsets.is_empty());
}

#[test]
fn a_commit_takes_updates_one_dimension_at_a_time() {
    let mut writer = BlockSparseWriter::new();
    writer.set(1, &entries(&[(5, 1.0), (6, 2.0)]));
    let ids = writer.dimension_ids(&vec![]);
    let commit = writer.commit(ids, &vec![vec![0], vec![1]]);
    assert_eq!(writer.dimension_ids(&vec![]), vec![5, 6]);
    let step = match commit.next(&mut writer) {
        CommitStep::Dimension(step) => step,
        CommitStep::Finished => unreachable!(),
    };
    assert_eq!(step.dimension_index(), 0);
    assert_eq!(writer.dimension_ids(&vec![]), vec![6]);
    writer.set(3, &entries(&[(6, 4.0)]));
    let (_, commit) = carry_out(step.merge(&vec![]));
    match commit.next(&mut writer) {
        CommitStep::Dimension(step) => {
            let (shown, commit) = carry_out(step.merge(&vec![]));
            assert_eq!(shown, vec!["set 0 [1=2 3=4]", "set directory [3=4]"]);
            assert!(matches!(commit.next(&mut writer), CommitStep::Finished));
        }
        CommitStep::Finished => unreachable!(),
    }
    assert!(writer.dimension_ids(&vec![]).is_empty());
}
