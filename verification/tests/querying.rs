use sparse_maxscore::query::{BoundStep, Drained, Next, Pruned};
use sparse_maxscore::reader::{BlockSparseReader, CursorPath, Directory};
use sparse_maxscore::score::Score;
use sparse_maxscore::search::{
    BlockStatus, CursorBlocks, CursorShape, NonEssentialStep, Search,
};
use sparse_maxscore::weight::Weight;
use sparse_maxscore::window::WindowBuffer;

fn w(x: f32) -> Weight {
    Weight::from_bits(x.to_bits())
}

fn f(x: Weight) -> f32 {
    f32::from_bits(x.to_bits())
}

fn pairs(v: &[Score]) -> Vec<(f32, u32)> {
    v.iter().map(|s| (f(s.score), s.offset)).collect()
}

struct Term {
    weight: f32,
    postings: Vec<(u32, f32)>,
}

impl Term {
    fn bound(&self, start: u32, end: u32) -> f32 {
        self.postings
            .iter()
            .filter(|p| start <= p.0 && p.0 <= end)
            .map(|p| self.weight * p.1)
            .fold(0.0, f32::max)
    }
}

// Runs a query over terms held in memory; returns the results and how many
// candidate scores were probed.
fn run(terms: &[Term], k: u32) -> (Vec<(f32, u32)>, usize) {
    let max_scores: Vec<Weight> = terms.iter().map(|t| w(t.bound(0, u32::MAX))).collect();
    let lasts: Vec<Option<u32>> =
        terms.iter().map(|t| t.postings.last().map(|p| p.0)).collect();
    let search = match Search::new(k as usize, &max_scores, &lasts) {
        Some(search) => search,
        None => return (vec![], 0),
    };
    let mut probed = 0;
    let mut buffer = WindowBuffer::new();
    let mut step = BoundStep::new(search);
    loop {
        let (start, end) = step.window();
        let bounds: Vec<Weight> = terms.iter().map(|t| w(t.bound(start, end))).collect();
        let sum_step = step.bounded(&bounds);
        let mut sum = 0.0f32;
        let sums: Vec<Weight> = sum_step
            .terms()
            .iter()
            .map(|t| {
                sum += f(t.window_score);
                w(sum)
            })
            .collect();
        let drain_step = sum_step.summed(&sums);
        for slot in drain_step.slots() {
            for p in terms[slot].postings.iter().filter(|p| start <= p.0 && p.0 <= end) {
                let s = (p.0 - start) as usize;
                buffer.accum[s] = w(f(buffer.accum[s]) + terms[slot].weight * p.1);
                buffer.bitmap[s / 64] |= 1 << (s % 64);
            }
        }
        let mut pruned = match drain_step.drained(&mut buffer) {
            Drained::Next(next) => Pruned::Next(next),
            Drained::Inspect(inspect) => {
                let shapes: Vec<CursorBlocks> = terms
                    .iter()
                    .map(|_| CursorBlocks { lazy: false, blocks: vec![] })
                    .collect();
                let (keys, budget) = inspect.inspected(&shapes);
                assert!(keys.is_empty());
                let remaining: f32 = budget.bounds().iter().map(|b| f(*b)).sum();
                let cutoff = f(budget.threshold()) - remaining;
                budget.budgeted(w(remaining), w(cutoff))
            }
            Drained::Budget(budget) => {
                let remaining: f32 = budget.bounds().iter().map(|b| f(*b)).sum();
                let cutoff = f(budget.threshold()) - remaining;
                budget.budgeted(w(remaining), w(cutoff))
            }
        };
        let next = loop {
            match pruned {
                Pruned::Next(next) => break next,
                Pruned::Probe(probe) => {
                    let term = probe.term();
                    assert_eq!(probe.window(), (start, end));
                    let (docs, scores) = probe.candidates();
                    probed += docs.len();
                    let t = &terms[term.slot];
                    let new: Vec<Weight> = docs
                        .iter()
                        .zip(scores.iter())
                        .map(|(d, s)| {
                            let add: f32 = t
                                .postings
                                .iter()
                                .filter(|p| p.0 == *d)
                                .map(|p| t.weight * p.1)
                                .sum();
                            w(f(*s) + add)
                        })
                        .collect();
                    // The bounds of the terms before this one.
                    let remaining: f32 = {
                        let mut below: Vec<f32> =
                            terms.iter().map(|t| t.bound(start, end)).collect();
                        below.sort_by(|a, b| a.total_cmp(b));
                        let own = f(term.window_score);
                        below.iter().filter(|b| **b < own).sum()
                    };
                    let cutoff = f(probe.threshold()) - remaining;
                    pruned = probe.probed(new, w(remaining), w(cutoff));
                }
            }
        };
        match next {
            Next::Window(s) => step = s,
            Next::Finished(results) => return (pairs(&results), probed),
        }
    }
}

fn brute_force(terms: &[Term]) -> Vec<(f32, u32)> {
    let mut docs: Vec<u32> = terms.iter().flat_map(|t| t.postings.iter().map(|p| p.0)).collect();
    docs.sort();
    docs.dedup();
    let mut all: Vec<(f32, u32)> = docs
        .iter()
        .map(|d| {
            let s: f32 = terms
                .iter()
                .flat_map(|t| t.postings.iter().filter(|p| p.0 == *d).map(|p| t.weight * p.1))
                .sum();
            (s, *d)
        })
        .collect();
    all.sort_by(|a, b| b.0.total_cmp(&a.0).then(a.1.cmp(&b.1)));
    all
}

// Weights are small integers, so that sums are exact whatever their order.
fn sample_terms() -> Vec<Term> {
    let mut terms = Vec::new();
    let mut x: u32 = 7;
    for (i, &weight) in [1.0f32, 8.0, 2.0, 64.0].iter().enumerate() {
        let mut postings = Vec::new();
        let mut doc = i as u32 * 3;
        let mut n = 0;
        while n < 400 {
            x = x.wrapping_mul(1664525).wrapping_add(1013904223);
            doc += 1 + (x >> 24) % (40 * (i as u32 + 1));
            postings.push((doc, ((x >> 12) % 16) as f32));
            n += 1;
        }
        terms.push(Term { weight, postings });
    }
    terms
}

#[test]
fn query_finds_what_exhaustive_scoring_finds() {
    let terms = sample_terms();
    let all = brute_force(&terms);
    for k in [1u32, 3, 10, 50] {
        let (results, probed) = run(&terms, k);
        let scores: Vec<f32> = results.iter().map(|r| r.0).collect();
        let expected: Vec<f32> = all.iter().take(k as usize).map(|r| r.0).collect();
        assert_eq!(scores, expected);
        for r in results.iter() {
            assert!(all.contains(r));
        }
        assert!(probed > 0);
        assert!(probed < 3 * all.len());
    }
}

#[test]
fn query_returns_everything_when_k_is_large() {
    let terms = sample_terms();
    let all = brute_force(&terms);
    let (results, _) = run(&terms, 5000);
    assert_eq!(results, all);
}

#[test]
fn query_without_terms_finds_nothing() {
    assert!(run(&[], 3).0.is_empty());
    assert!(Search::new(1, &vec![], &vec![]).is_none());
}

#[test]
fn query_prefers_lower_offsets_among_equal_scores() {
    let terms = vec![Term {
        weight: 1.0,
        postings: vec![(3, 2.0), (9, 2.0), (5000, 2.0), (9000, 2.0)],
    }];
    assert_eq!(run(&terms, 2).0, vec![(2.0, 3), (2.0, 9)]);
}

#[test]
fn windows_cover_all_documents_up_to_the_last() {
    let mut search = Search::new(1, &vec![w(1.0), w(2.0)], &vec![Some(10000), Some(7)]).unwrap();
    assert_eq!(search.window(), Some((0, 4095)));
    search.finish_window();
    assert_eq!(search.window(), Some((4096, 8191)));
    search.finish_window();
    assert_eq!(search.window(), Some((8192, 10000)));
    search.finish_window();
    assert_eq!(search.window(), None);
    assert!(search.into_results().is_empty());

    let mut exact = Search::new(1, &vec![w(1.0)], &vec![Some(4095)]).unwrap();
    assert_eq!(exact.window(), Some((0, 4095)));
    exact.finish_window();
    assert_eq!(exact.window(), None);

    let mut unknown = Search::new(1, &vec![w(1.0)], &vec![None]).unwrap();
    assert_eq!(unknown.window(), Some((0, 0)));
    unknown.finish_window();
    assert_eq!(unknown.window(), None);
}

#[test]
fn the_last_window_ends_at_the_greatest_document_id() {
    let mut search = Search::new(1, &vec![w(1.0)], &vec![Some(u32::MAX)]).unwrap();
    let mut last = search.window();
    let mut n: u32 = 0;
    while let Some(window) = search.window() {
        last = Some(window);
        n += 1;
        search.finish_window();
    }
    assert_eq!(last, Some((u32::MAX - 4095, u32::MAX)));
    assert_eq!(n, 1048576);
}

#[test]
fn terms_are_split_at_the_threshold() {
    let mut search =
        Search::new(1, &vec![w(3.0), w(1.0), w(2.0)], &vec![Some(9), Some(9), Some(9)]).unwrap();
    let slots: Vec<usize> = search.terms().iter().map(|t| t.slot).collect();
    assert_eq!(slots, vec![1, 2, 0]);
    search.bound_terms(&vec![w(1.0), w(1.0), w(0.5)]);
    let slots: Vec<usize> = search.terms().iter().map(|t| t.slot).collect();
    assert_eq!(slots, vec![2, 1, 0]);
    search.split_terms(&vec![w(0.5), w(1.5), w(2.5)]);
    assert_eq!(search.essential(), 0);

    let mut buffer = WindowBuffer::new();
    buffer.accum[4] = w(1.5);
    buffer.bitmap[0] = 1 << 4;
    assert!(search.collect(&buffer));
    search.finish_window();
    assert_eq!(search.threshold(), w(1.5));
    search.split_terms(&vec![w(0.5), w(1.5), w(2.5)]);
    assert_eq!(search.essential(), 1);
    search.split_terms(&vec![w(0.5), w(1.0), w(1.25)]);
    assert_eq!(search.essential(), 3);
    search.split_terms(&vec![w(f32::NAN), w(f32::NAN), w(f32::NAN)]);
    assert_eq!(search.essential(), 3);
}

#[test]
fn candidates_below_the_cutoff_are_dropped_once_the_set_is_full() {
    let mut search =
        Search::new(1, &vec![w(1.0), w(2.0)], &vec![Some(9000), Some(9000)]).unwrap();
    let mut buffer = WindowBuffer::new();
    buffer.accum[4] = w(1.5);
    buffer.bitmap[0] = 1 << 4;
    search.collect(&buffer);
    search.finish_window();
    search.bound_terms(&vec![w(0.25), w(2.0)]);
    search.split_terms(&vec![w(0.25), w(2.25)]);
    assert_eq!(search.essential(), 1);
    buffer.accum[4] = w(1.25);
    buffer.accum[5] = w(1.5);
    buffer.bitmap[0] = 3 << 4;
    assert!(search.collect(&buffer));
    assert_eq!(search.candidates().0, &vec![4100, 4101]);
    assert_eq!(search.consider(0, w(0.25), w(1.25)), NonEssentialStep::Probe(0));
    assert_eq!(search.candidates().0, &vec![4101]);
    search.update_scores(vec![w(1.75)]);
    assert_eq!(search.consider(0, w(0.0), w(9.0)), NonEssentialStep::Probe(0));
    assert_eq!(search.consider(0, w(0.25), w(9.0)), NonEssentialStep::Stop);
    search.finish_window();
    assert_eq!(pairs(&search.into_results()), vec![(1.5, 4)]);
}

#[test]
fn terms_with_a_zero_bound_are_skipped() {
    let mut search = Search::new(2, &vec![w(1.0)], &vec![Some(9)]).unwrap();
    search.bound_terms(&vec![w(-0.0)]);
    search.split_terms(&vec![w(f32::NAN)]);
    let mut buffer = WindowBuffer::new();
    buffer.bitmap[0] = 1;
    search.collect(&buffer);
    assert_eq!(search.consider(0, w(1.0), w(9.0)), NonEssentialStep::Skip);
}

#[test]
fn lazy_blocks_are_loaded_first() {
    let search = Search::new(1, &vec![w(3.0), w(1.0), w(2.0)], &vec![None, None, None]).unwrap();
    let shapes = vec![
        CursorShape { lazy: true, block_count: 2 },
        CursorShape { lazy: true, block_count: 1 },
        CursorShape { lazy: false, block_count: 5 },
    ];
    assert_eq!(search.blocks_to_load(&shapes), vec![(1, 0), (0, 0), (0, 1)]);
}

#[test]
fn missing_blocks_are_asked_for_once() {
    let mut search = Search::new(1, &vec![w(1.0), w(2.0)], &vec![Some(9000), None]).unwrap();
    let cursors = vec![
        CursorBlocks {
            lazy: true,
            blocks: vec![
                BlockStatus { loaded: false, bound: w(1.0) },
                BlockStatus { loaded: true, bound: w(9.0) },
                BlockStatus { loaded: false, bound: w(2.0) },
                BlockStatus { loaded: false, bound: w(1.5) },
            ],
        },
        CursorBlocks { lazy: false, blocks: vec![BlockStatus { loaded: false, bound: w(9.0) }] },
    ];
    assert!(search.missing_blocks(&cursors).is_empty());
    assert!(!search.non_essential_loaded());
    let mut buffer = WindowBuffer::new();
    buffer.accum[0] = w(1.5);
    buffer.bitmap[0] = 1;
    search.collect(&buffer);
    search.finish_window();
    search.split_terms(&vec![w(1.0), w(3.0)]);
    assert_eq!(search.missing_blocks(&cursors), vec![(0, 2)]);
    assert!(search.non_essential_loaded());
    assert!(search.missing_blocks(&cursors).is_empty());
}

#[test]
fn posting_blocks_leave_the_directory_out() {
    let scanned = vec![(0, "a"), (1, "b"), (u32::MAX, "directory")];
    assert_eq!(BlockSparseReader::get_posting_blocks(scanned.clone()), vec!["a", "b"]);
    assert_eq!(BlockSparseReader::open_cursor(scanned), Some(vec!["a", "b"]));
    assert_eq!(BlockSparseReader::open_cursor(vec![(u32::MAX, "directory")]), None);
    assert_eq!(BlockSparseReader::open_cursor::<u8>(vec![]), None);
}

#[test]
fn stored_dimensions_are_listed_once() {
    let decoded = vec![Some(9), None, Some(2), Some(9), Some(0)];
    assert_eq!(BlockSparseReader::get_all_dimension_ids(&decoded), vec![0, 2, 9]);
    assert!(BlockSparseReader::get_all_dimension_ids(&vec![None]).is_empty());
}

#[test]
fn a_query_looks_up_its_directories() {
    assert!(BlockSparseReader::query(vec![(1, w(1.0))], 0).is_none());
    let plan = BlockSparseReader::query(
        vec![(4, w(0.5)), (2, w(1.5)), (8, w(2.5)), (3, w(3.5))],
        7,
    )
    .unwrap();
    assert_eq!(plan.k(), 7);
    assert_eq!(
        plan.directory_keys(),
        vec![(4, u32::MAX), (2, u32::MAX), (8, u32::MAX), (3, u32::MAX)]
    );
    let directories = vec![
        Some(Directory { max_offsets: vec![5, 9], max_weights: vec![w(0.25), w(4.0)] }),
        None,
        Some(Directory { max_offsets: vec![], max_weights: vec![] }),
        Some(Directory { max_offsets: vec![1], max_weights: vec![w(-1.0)] }),
    ];
    let metas = plan.term_metas(directories);
    assert_eq!(metas.len(), 2);
    assert_eq!((metas[0].index, metas[0].query_weight, metas[0].dim_max), (0, w(0.5), w(4.0)));
    assert_eq!(metas[0].directory.max_offsets, vec![5, 9]);
    assert_eq!((metas[1].index, metas[1].query_weight, metas[1].dim_max), (3, w(3.5), w(0.0)));
}

#[test]
fn small_dimensions_are_fetched_eagerly() {
    assert_eq!(BlockSparseReader::cursor_path(0), CursorPath::Eager);
    assert_eq!(BlockSparseReader::cursor_path(2), CursorPath::Eager);
    assert_eq!(BlockSparseReader::cursor_path(3), CursorPath::Lazy);
    assert_eq!(BlockSparseReader::complete_blocks(vec![Some(1), Some(2)]), Some(vec![1, 2]));
    assert_eq!(BlockSparseReader::complete_blocks(vec![Some(1), None]), None);
    assert_eq!(BlockSparseReader::complete_blocks::<u8>(vec![]), Some(vec![]));
}

#[test]
fn a_query_for_fewer_returns_the_front_of_more() {
    let terms = sample_terms();
    let (more, _) = run(&terms, 40);
    for k in [1u32, 2, 7, 25, 40] {
        let (fewer, _) = run(&terms, k);
        assert_eq!(fewer.len(), k as usize);
        for (a, b) in fewer.iter().zip(more.iter()) {
            assert_eq!(a.0, b.0);
        }
    }
    let apart = vec![
        Term { weight: 1.0, postings: vec![(3, 1.0), (9, 2.0), (5000, 4.0)] },
        Term { weight: 8.0, postings: vec![(9, 1.0), (9000, 2.0)] },
    ];
    let (all, _) = run(&apart, 9);
    assert_eq!(all, vec![(16.0, 9000), (10.0, 9), (4.0, 5000), (1.0, 3)]);
    for k in 1u32..5 {
        assert_eq!(run(&apart, k).0, all[..k as usize].to_vec());
    }
}

#[test]
fn a_query_names_no_document_twice() {
    let terms = sample_terms();
    for k in [5u32, 60, 5000] {
        let (results, _) = run(&terms, k);
        assert!(results.len() <= k as usize);
        let mut docs: Vec<u32> = results.iter().map(|r| r.1).collect();
        docs.sort();
        docs.dedup();
        assert_eq!(docs.len(), results.len());
    }
}

#[test]
fn draining_clears_the_marks_and_what_they_mark() {
    let search = Search::new(1, &vec![w(1.0)], &vec![Some(9)]).unwrap();
    let sums = BoundStep::new(search).bounded(&vec![w(1.0)]);
    let drain = sums.summed(&vec![w(1.0)]);
    let mut buffer = WindowBuffer::new();
    buffer.accum[4] = w(1.0);
    buffer.accum[7] = w(2.0);
    buffer.bitmap[0] = 1 << 4;
    match drain.drained(&mut buffer) {
        Drained::Next(Next::Finished(results)) => assert_eq!(pairs(&results), vec![(1.0, 4)]),
        _ => unreachable!(),
    }
    assert!(buffer.bitmap.iter().all(|word| *word == 0));
    assert_eq!(buffer.accum[4], w(0.0));
    assert_eq!(buffer.accum[7], w(2.0));
}
