use autodetect_pdf_fields::model::nmm::merge_plan;
use autodetect_pdf_fields::model::nms::greedy_select;

fn matrix(n: usize, pairs: &[(usize, usize)]) -> Vec<Vec<bool>> {
    let mut m = vec![vec![false; n]; n];
    for &(i, j) in pairs {
        m[i][j] = true;
    }
    m
}

#[test]
fn nms_keeps_best_and_drops_suppressed() {
    // 2 is best, suppresses 0; 1 survives.
    let order = vec![2, 0, 1];
    let sup = matrix(3, &[(2, 0)]);
    assert_eq!(greedy_select(&order, &sup), vec![2, 1]);
}

#[test]
fn nms_suppressed_candidate_does_not_suppress() {
    // 0 suppresses 1, 1 would suppress 2, but 1 is gone: 2 stays.
    let order = vec![0, 1, 2];
    let sup = matrix(3, &[(0, 1), (1, 2)]);
    assert_eq!(greedy_select(&order, &sup), vec![0, 2]);
}

#[test]
fn nms_empty_and_single() {
    let sup = matrix(0, &[]);
    assert_eq!(greedy_select(&vec![], &sup), Vec::<usize>::new());
    let sup = matrix(1, &[]);
    assert_eq!(greedy_select(&vec![0], &sup), vec![0]);
}

#[test]
fn nms_is_idempotent_on_example() {
    let order = vec![3, 1, 0, 2, 4];
    let sup = matrix(5, &[(3, 0), (1, 4), (0, 2), (2, 1)]);
    let kept = greedy_select(&order, &sup);
    assert_eq!(kept, vec![3, 1, 2]);
    assert_eq!(greedy_select(&kept, &sup), kept);
}

#[test]
fn nmm_groups_absorbed_candidates() {
    let order = vec![1, 0, 2, 3];
    let merges = matrix(4, &[(1, 2), (1, 3), (0, 3)]);
    let groups = merge_plan(&order, &merges);
    assert_eq!(groups, vec![(1, vec![2, 3]), (0, vec![])]);
}

#[test]
fn nmm_heads_match_nms() {
    let order = vec![4, 2, 0, 3, 1];
    let rel = matrix(5, &[(4, 1), (2, 0), (0, 3), (3, 1)]);
    let groups = merge_plan(&order, &rel);
    let heads: Vec<usize> = groups.iter().map(|g| g.0).collect();
    assert_eq!(heads, greedy_select(&order, &rel));
    let total: usize = groups.iter().map(|g| 1 + g.1.len()).sum();
    assert_eq!(total, order.len());
}
