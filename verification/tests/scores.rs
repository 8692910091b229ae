use sparse_maxscore::heap::ScoreHeap;
use sparse_maxscore::order::{sorted, stable_order};
use sparse_maxscore::rescore::{exact_scores_fit, rescore_and_select, rescore_request};
use sparse_maxscore::score::Score;
use sparse_maxscore::topk::TopK;
use sparse_maxscore::weight::Weight;
use sparse_maxscore::window::{filter_competitive, WindowBuffer};

fn w(x: f32) -> Weight {
    Weight::from_bits(x.to_bits())
}

fn score(x: f32, offset: u32) -> Score {
    Score { score: w(x), offset }
}

fn pairs(v: &[Score]) -> Vec<(f32, u32)> {
    v.iter().map(|s| (f32::from_bits(s.score.to_bits()), s.offset)).collect()
}

fn samples() -> Vec<f32> {
    vec![
        0.0,
        -0.0,
        1.0,
        -1.0,
        1.5,
        0.1,
        0.2,
        f32::MIN_POSITIVE,
        f32::from_bits(1),
        f32::from_bits(0x8000_0001),
        f32::from_bits(0x007f_ffff),
        f32::MAX,
        f32::MIN,
        f32::INFINITY,
        f32::NEG_INFINITY,
        f32::NAN,
        -f32::NAN,
        16777216.0,
        16777218.0,
    ]
}

#[test]
fn score_min_heap_ordering() {
    let mut heap = ScoreHeap::new();
    heap.push(score(3.0, 1));
    heap.push(score(1.0, 2));
    heap.push(score(2.0, 3));
    assert_eq!(heap.peek().unwrap().score, w(1.0));
    heap.pop();
    assert_eq!(heap.peek().unwrap().score, w(2.0));
}

#[test]
fn score_tiebreak_by_offset() {
    let a = score(1.0, 10);
    let b = score(1.0, 20);
    assert!(a > b);
}

#[test]
fn filter_competitive_removes_below_cutoff() {
    let mut docs = vec![1, 2, 3, 4, 5];
    let mut scores = vec![w(0.1), w(0.5), w(0.2), w(0.8), w(0.3)];
    filter_competitive(&mut docs, &mut scores, w(0.25));
    assert_eq!(docs, vec![2, 4, 5]);
    assert_eq!(scores, vec![w(0.5), w(0.8), w(0.3)]);
}

#[test]
fn filter_competitive_empty() {
    let mut docs: Vec<u32> = vec![];
    let mut scores: Vec<Weight> = vec![];
    filter_competitive(&mut docs, &mut scores, w(0.0));
    assert!(docs.is_empty());
}

#[test]
fn filter_competitive_drops_ties_and_nans() {
    let mut docs = vec![7, 8, 9, 10];
    let mut scores = vec![w(0.5), w(f32::NAN), w(0.75), w(-0.0)];
    filter_competitive(&mut docs, &mut scores, w(0.5));
    assert_eq!(docs, vec![9]);
    assert_eq!(scores, vec![w(0.75)]);
}

#[test]
fn weight_comparisons_are_those_of_single_precision() {
    for &a in samples().iter() {
        for &b in samples().iter() {
            assert_eq!(w(a).exceeds(w(b)), a > b, "{} > {}", a, b);
            assert_eq!(w(a).at_least(w(b)), a >= b, "{} >= {}", a, b);
            assert_eq!(w(a).equals(w(b)), a == b, "{} == {}", a, b);
            assert_eq!(
                w(a).total_rank().cmp(&w(b).total_rank()),
                a.total_cmp(&b),
                "{} against {}",
                a,
                b
            );
        }
        assert_eq!(w(a).is_nan(), a.is_nan());
    }
    assert_eq!(Weight::lowest(), w(f32::MIN));
    assert_eq!(Weight::zero(), w(0.0));
}

#[test]
fn greatest_weight_ignores_nans_and_is_at_least_zero() {
    assert_eq!(Weight::greatest(&vec![w(0.5), w(f32::NAN), w(2.5), w(1.0)]), w(2.5));
    assert_eq!(Weight::greatest(&vec![w(-1.0), w(f32::NAN)]), w(0.0));
    assert_eq!(Weight::greatest(&vec![]), w(0.0));
    assert_eq!(Weight::greatest(&vec![w(f32::INFINITY), w(1.0)]), w(f32::INFINITY));
}

#[test]
fn score_equality_is_numeric() {
    assert!(score(0.0, 1) == score(-0.0, 1));
    assert!(score(0.0, 1) != score(0.0, 2));
    assert!(score(f32::NAN, 1) != score(f32::NAN, 1));
    assert_eq!(score(2.0, 5).cmp(&score(1.0, 5)), std::cmp::Ordering::Less);
    assert_eq!(score(1.0, 5).cmp(&score(1.0, 5)), std::cmp::Ordering::Equal);
    assert_eq!(score(-0.0, 5).cmp(&score(0.0, 5)), std::cmp::Ordering::Greater);
    assert_eq!(
        score(1.0, 5).partial_cmp(&score(2.0, 4)),
        Some(std::cmp::Ordering::Greater)
    );
}

#[test]
fn heap_pops_worst_first() {
    let mut heap = ScoreHeap::new();
    assert!(heap.pop().is_none());
    let mut x: u32 = 12345;
    let mut all: Vec<Score> = Vec::new();
    for i in 0..200u32 {
        x = x.wrapping_mul(1664525).wrapping_add(1013904223);
        let s = score(((x >> 16) % 17) as f32, i % 37);
        heap.push(s);
        all.push(s);
    }
    assert_eq!(heap.len(), 200);
    all.sort_by(|a, b| {
        a.score.total_rank().cmp(&b.score.total_rank()).then(a.offset.cmp(&b.offset))
    });
    for expected in all.iter() {
        let got = heap.pop().unwrap();
        assert_eq!((got.score, got.offset), (expected.score, expected.offset));
    }
    assert!(heap.peek().is_none());
    heap.push(score(1.0, 1));
    assert_eq!(pairs(&heap.into_vec()), vec![(1.0, 1)]);
}

#[test]
fn stable_order_lists_positions() {
    assert_eq!(stable_order(&vec![5u32, 3, 5, 1, 3]), vec![3, 1, 4, 0, 2]);
    assert_eq!(stable_order::<u32>(&vec![]), Vec::<usize>::new());
    assert_eq!(sorted(&vec![5u32, 3, 5, 1, 3]), vec![1, 3, 3, 5, 5]);
}

#[test]
fn top_k_evicts_the_lowest_offset_of_the_worst_score() {
    let mut top = TopK::new(2);
    assert!(!top.is_full());
    assert_eq!(top.threshold(), w(f32::MIN));
    top.offer(score(1.0, 1));
    top.offer(score(1.0, 2));
    assert!(top.is_full());
    assert_eq!(top.threshold(), w(1.0));
    assert!(!top.would_admit(w(1.0)));
    top.offer(score(1.0, 3));
    assert!(top.would_admit(w(2.0)));
    top.offer(score(2.0, 4));
    assert_eq!(top.threshold(), w(1.0));
    assert_eq!(pairs(&top.into_results()), vec![(2.0, 4), (1.0, 2)]);
}

#[test]
fn top_k_results_are_best_first() {
    let mut top = TopK::new(4);
    for (i, &x) in [0.5f32, 2.0, 2.0, -1.0, 3.0, 0.25].iter().enumerate() {
        top.offer(score(x, 10 - i as u32));
    }
    assert_eq!(pairs(&top.into_results()), vec![(3.0, 6), (2.0, 8), (2.0, 9), (0.5, 10)]);
}

#[test]
fn top_k_is_shut_by_a_negative_nan() {
    let mut top = TopK::new(1);
    top.offer(score(-f32::NAN, 1));
    top.offer(score(5.0, 2));
    let kept = top.into_results();
    assert_eq!(kept.len(), 1);
    assert_eq!(kept[0].offset, 1);
}

#[test]
fn a_nan_is_listed_first_or_shut_out() {
    let mut one = TopK::new(1);
    let mut two = TopK::new(2);
    for s in [score(1.0, 1), score(f32::NAN, 2)] {
        one.offer(s);
        two.offer(s);
    }
    assert_eq!(pairs(&one.into_results()), vec![(1.0, 1)]);
    let offsets: Vec<u32> = two.into_results().iter().map(|s| s.offset).collect();
    assert_eq!(offsets, vec![2, 1]);
}

#[test]
fn pruned_candidates_make_no_difference() {
    let candidates = [2.0f32, 0.5, 3.0, 1.0, 0.75, 4.0, 2.0];
    let mut all = TopK::new(2);
    let mut pruned = TopK::new(2);
    for (i, &x) in [1.0f32, 2.0].iter().enumerate() {
        all.offer(score(x, i as u32));
        pruned.offer(score(x, i as u32));
    }
    let bar = pruned.threshold();
    assert_eq!(bar, w(1.0));
    for (i, &x) in candidates.iter().enumerate() {
        let s = score(x, 10 + i as u32);
        all.offer(s);
        if s.score.exceeds(bar) {
            pruned.offer(s);
        }
    }
    assert_eq!(all.threshold(), pruned.threshold());
    assert_eq!(pairs(&all.into_results()), pairs(&pruned.into_results()));
}

#[test]
fn rescoring_selects_by_exact_score() {
    let candidates = vec![score(9.0, 4), score(8.0, 7), score(7.0, 2), score(6.0, 9)];
    assert_eq!(rescore_request(&candidates, 2), Some(vec![4, 7, 2, 9]));
    let exact = vec![w(1.0), w(5.0), w(5.0), w(6.0)];
    assert!(exact_scores_fit(&candidates, 2, &exact));
    assert_eq!(
        pairs(&rescore_and_select(&candidates, 3, &exact)),
        vec![(6.0, 9), (5.0, 2), (5.0, 7)]
    );
    assert_eq!(
        pairs(&rescore_and_select(&candidates, 9, &exact)),
        vec![(6.0, 9), (5.0, 2), (5.0, 7), (1.0, 4)]
    );
}

#[test]
fn rescoring_nothing_selects_nothing() {
    let candidates = vec![score(9.0, 4)];
    assert_eq!(rescore_request(&candidates, 0), None);
    assert_eq!(rescore_request(&vec![], 3), None);
    assert!(rescore_and_select(&candidates, 0, &vec![w(1.0)]).is_empty());
    assert!(rescore_and_select(&vec![], 3, &vec![w(1.0)]).is_empty());
    assert!(exact_scores_fit(&vec![], 3, &vec![w(1.0)]));
}

#[test]
fn rescoring_with_too_few_or_too_many_scores() {
    let candidates = vec![score(9.0, 4), score(8.0, 7)];
    assert_eq!(pairs(&rescore_and_select(&candidates, 2, &vec![w(1.0)])), vec![(1.0, 4)]);
    let idle = vec![w(3.0), w(2.0), w(2.0)];
    assert!(exact_scores_fit(&candidates, 2, &idle));
    assert_eq!(pairs(&rescore_and_select(&candidates, 2, &idle)), vec![(3.0, 4), (2.0, 7)]);
    assert!(!exact_scores_fit(&candidates, 2, &vec![w(3.0), w(2.0), w(2.5)]));
    assert!(!exact_scores_fit(&candidates, 3, &idle));
}

#[test]
fn window_buffer_lists_marked_slots_and_clears_them() {
    let mut buffer = WindowBuffer::new();
    assert_eq!(buffer.accum.len(), 4096);
    for (slot, x) in [(0usize, 1.0f32), (63, 2.0), (64, 3.0), (1000, 4.0), (4095, 5.0)] {
        buffer.accum[slot] = w(x);
        buffer.bitmap[slot / 64] |= 1u64 << (slot % 64);
    }
    buffer.accum[5] = w(9.0);
    let (docs, scores) = buffer.candidates(8192);
    assert_eq!(docs, vec![8192, 8255, 8256, 9192, 12287]);
    assert_eq!(scores, vec![w(1.0), w(2.0), w(3.0), w(4.0), w(5.0)]);
    let (last, _) = buffer.candidates(u32::MAX - 4095);
    assert_eq!(last[4], u32::MAX);
    buffer.clear();
    assert_eq!(buffer.bitmap, [0u64; 64]);
    assert_eq!(buffer.accum[63], w(0.0));
    assert_eq!(buffer.accum[4095], w(0.0));
    assert_eq!(buffer.accum[5], w(9.0));
    assert!(buffer.candidates(0).0.is_empty());
}
