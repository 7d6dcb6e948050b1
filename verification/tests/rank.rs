use mlx_rerank::rank::{is_rankable, rank, score_key, timing, top, top3, Timing};

fn bits(scores: &[f32]) -> Vec<u32> {
    scores.iter().map(|s| s.to_bits()).collect()
}

#[test]
fn keys_order_as_the_reals_do() {
    let reals = [
        f32::NEG_INFINITY, -6e4, -1.5, -1.0, -1e-40, -0.0, 0.0, 1e-45, 0.14934, 0.15001, 1.0,
        10.31, f32::MAX, f32::INFINITY,
    ];
    for a in reals {
        for b in reals {
            let (x, y) = (score_key(a.to_bits()), score_key(b.to_bits()));
            assert_eq!(a.partial_cmp(&b), Some(x.cmp(&y)), "{a} {b}");
        }
    }
    assert_eq!(score_key(1f32.to_bits()), 0x3F80_0000);
    assert_eq!(score_key((-1f32).to_bits()), -0x3F80_0000);
}

#[test]
fn best_scores_come_first() {
    let scores = bits(&[8.12, -3.0, 10.31, 0.0, 9.84]);
    assert_eq!(rank(&scores), vec![2, 4, 0, 3, 1]);
    assert_eq!(top3(&scores), vec![2, 4, 0]);
    assert_eq!(top(&scores, Some(1)), vec![2]);
    assert_eq!(top(&scores, Some(0)), Vec::<usize>::new());
    assert_eq!(top(&scores, Some(99)), vec![2, 4, 0, 3, 1]);
    assert_eq!(top(&scores, None), vec![2, 4, 0, 3, 1]);
}

#[test]
fn equal_scores_keep_document_order() {
    assert_eq!(rank(&bits(&[0.5, 1.0, 0.5, 1.0])), vec![1, 3, 0, 2]);
    assert_eq!(rank(&bits(&[-0.0, 0.0])), vec![0, 1]);
    assert_eq!(rank(&bits(&[0.0, -0.0])), vec![0, 1]);
}

#[test]
fn few_scores_have_a_short_top() {
    assert_eq!(top3(&bits(&[1.0, 2.0])), vec![1, 0]);
    assert_eq!(top3(&vec![]), Vec::<usize>::new());
}

#[test]
fn scores_that_compare_with_nothing() {
    assert!(!is_rankable(&bits(&[1.0, f32::NAN])));
    assert!(!is_rankable(&bits(&[-f32::NAN, 2.0])));
    assert!(is_rankable(&bits(&[f32::NAN])));
    assert!(is_rankable(&bits(&[f32::INFINITY, f32::NEG_INFINITY])));
    assert!(is_rankable(&vec![]));
}

#[test]
fn ranks_as_the_standard_library_does() {
    let scores: Vec<f32> = (0..100).map(|i| ((i * 37 % 41) as f32 - 20.0) / 7.0).collect();
    let mut expected: Vec<usize> = (0..scores.len()).collect();
    expected.sort_by(|&a, &b| scores[b].partial_cmp(&scores[a]).unwrap());
    assert_eq!(rank(&bits(&scores)), expected);
    assert_eq!(top3(&bits(&scores)), expected[..3].to_vec());
}

#[test]
fn times_are_summed_up() {
    let eight = vec![1500, 1430, 1900, 1431, 1440, 1600, 1500, 1432];
    assert_eq!(timing(&eight), Timing { min: 1430, median: 1500, total: 12233 });
    assert_eq!(timing(&vec![7]), Timing { min: 7, median: 7, total: 7 });
    let wide = vec![u64::MAX, u64::MAX];
    assert_eq!(timing(&wide).total, 2 * u64::MAX as u128);
}

#[test]
fn what_is_left_out_with_an_equal_score_stands_later() {
    let scores = bits(&[1.0, 2.0, 1.0, 1.0]);
    assert_eq!(top(&scores, Some(2)), vec![1, 0]);
    assert_eq!(top3(&scores), vec![1, 0, 2]);
}
