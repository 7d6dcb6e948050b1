use mlx_rerank::batch::{group_indices, pad_chunk, place_scores, RunPlan, MAX_LEN};

fn document(len: usize) -> Vec<u32> {
    (0..len as u32).map(|i| 100 + i).collect()
}

#[test]
fn rows_are_padded_to_the_longest() {
    let (a, b) = (vec![5u32, 6], vec![7u32, 8, 9]);
    let (mut ids, mut mask) = (vec![1, 2, 3], vec![4]);
    assert_eq!(pad_chunk(&vec![&a, &b], &mut ids, &mut mask), (2, 3));
    assert_eq!(ids, vec![5, 6, 0, 7, 8, 9]);
    assert_eq!(mask, vec![1, 1, 0, 1, 1, 1]);
}

#[test]
fn empty_rows_are_one_wide() {
    let none: Vec<u32> = vec![];
    let (mut ids, mut mask) = (vec![], vec![]);
    assert_eq!(pad_chunk(&vec![&none, &none], &mut ids, &mut mask), (2, 1));
    assert_eq!((ids, mask), (vec![0, 0], vec![0, 0]));
    let (mut ids, mut mask) = (vec![9], vec![9]);
    assert_eq!(pad_chunk(&vec![], &mut ids, &mut mask), (0, 1));
    assert!(ids.is_empty() && mask.is_empty());
}

#[test]
fn rows_are_cut_to_the_greatest_length() {
    let long = document(MAX_LEN + 8);
    let short = document(1);
    let (mut ids, mut mask) = (vec![], vec![]);
    assert_eq!(pad_chunk(&vec![&long, &short], &mut ids, &mut mask), (2, MAX_LEN));
    assert_eq!(ids.len(), 2 * MAX_LEN);
    assert_eq!(ids[MAX_LEN - 1], 100 + MAX_LEN as i32 - 1);
    assert_eq!(ids[MAX_LEN], 100);
    assert_eq!(mask.iter().sum::<i32>(), MAX_LEN as i32 + 1);
}

#[test]
fn great_ids_wrap_as_casts_do() {
    let row = vec![u32::MAX, 0x8000_0000];
    let (mut ids, mut mask) = (vec![], vec![]);
    pad_chunk(&vec![&row], &mut ids, &mut mask);
    assert_eq!(ids, vec![-1, i32::MIN]);
}

#[test]
fn groups_have_the_size_but_the_last() {
    let order = vec![4usize, 2, 0, 1, 3];
    assert_eq!(group_indices(&order, 2), vec![vec![4, 2], vec![0, 1], vec![3]]);
    assert_eq!(group_indices(&order, 5), vec![order.clone()]);
    assert_eq!(group_indices(&order, usize::MAX), vec![order.clone()]);
    assert_eq!(group_indices(&vec![], 3), Vec::<Vec<usize>>::new());
}

#[test]
fn plans_sort_by_cut_length() {
    let encs = vec![document(600), document(3), document(700), document(1), document(512)];
    let plan = RunPlan::by_capped_length(encs, 2);
    assert_eq!(plan.order, vec![3, 1, 0, 2, 4]);
    assert_eq!(plan.chunk_idx, vec![vec![3, 1], vec![0, 2], vec![4]]);
    assert_eq!(plan.size, 2);
}

#[test]
fn plans_sort_by_whole_length() {
    let encs = vec![document(700), document(3), document(600), document(1), document(512)];
    let plan = RunPlan::by_length(encs, 3);
    assert_eq!(plan.order, vec![3, 1, 4, 2, 0]);
    assert_eq!(plan.chunk_idx, vec![vec![3, 1, 4], vec![2, 0]]);
}

#[test]
fn sub_batches_are_padded_to_their_own_longest() {
    let plan = RunPlan::by_capped_length(vec![document(4), document(1), document(2)], 2);
    let (mut ids, mut mask) = (vec![], vec![]);
    assert_eq!(plan.pad(0, &mut ids, &mut mask), (2, 2));
    assert_eq!(ids, vec![100, 0, 100, 101]);
    assert_eq!(mask, vec![1, 0, 1, 1]);
    assert_eq!(plan.pad(1, &mut ids, &mut mask), (1, 4));
    assert_eq!(ids, vec![100, 101, 102, 103]);
}

#[test]
fn scores_come_back_in_document_order() {
    let encs = vec![document(4), document(1), document(3), document(2), document(1)];
    let plan = RunPlan::by_capped_length(encs, 2);
    let per_chunk: Vec<Vec<f32>> = plan
        .chunk_idx
        .iter()
        .map(|idx| idx.iter().map(|&d| d as f32 + 0.5).collect())
        .collect();
    assert_eq!(plan.scores(&per_chunk, f32::NAN), vec![0.5, 1.5, 2.5, 3.5, 4.5]);
}

#[test]
fn scores_are_placed_where_groups_say() {
    let groups = vec![vec![2usize, 0], vec![1]];
    let scores = vec![vec!['c', 'a'], vec!['b']];
    assert_eq!(place_scores(&groups, &scores, 3, '-'), vec!['a', 'b', 'c']);
    assert_eq!(place_scores(&vec![vec![1usize]], &vec![vec!['x']], 3, '-'), vec!['-', 'x', '-']);
}

#[test]
fn every_document_is_in_one_sub_batch() {
    let encs: Vec<Vec<u32>> = (0..23).map(|i| document((i * 5) % 11)).collect();
    let plan = RunPlan::by_capped_length(encs, 4);
    let mut seen: Vec<usize> = plan.chunk_idx.concat();
    assert_eq!(seen, plan.order);
    seen.sort();
    assert_eq!(seen, (0..23).collect::<Vec<usize>>());
    assert_eq!(plan.chunk_idx.len(), 6);
    assert!(plan.chunk_idx.iter().take(5).all(|c| c.len() == 4));
    assert_eq!(plan.chunk_idx[5].len(), 3);
    let (mut ids, mut mask) = (vec![], vec![]);
    let widths: Vec<usize> = (0..6).map(|c| plan.pad(c, &mut ids, &mut mask).1).collect();
    assert!(widths.windows(2).all(|w| w[0] <= w[1]));
}

#[test]
fn later_tokens_are_not_read() {
    let with = |tail: &[u32]| {
        let mut long = document(512);
        long.extend(tail);
        vec![long, document(2)]
    };
    let (mut ids, mut mask) = (vec![], vec![]);
    let plain = RunPlan::by_capped_length(with(&[]), 2);
    assert_eq!(plain.pad(0, &mut ids, &mut mask), (2, 512));
    let (mut other_ids, mut other_mask) = (vec![], vec![]);
    for tail in [vec![1], vec![2, 3, 4]] {
        let plan = RunPlan::by_capped_length(with(&tail), 2);
        assert_eq!(plan.order, plain.order);
        assert_eq!(plan.pad(0, &mut other_ids, &mut other_mask), (2, 512));
        assert_eq!((&other_ids, &other_mask), (&ids, &mask));
    }
}
