use pg_glot_hybrid::rrf::{rrf_terms, RrfError};

fn score(denominators: &[u64]) -> f64 {
    denominators.iter().fold(0.0, |acc, d| acc + 1.0 / (*d as f64))
}

fn ids(list: &[i64]) -> Vec<Option<i64>> {
    list.iter().map(|i| Some(*i)).collect()
}

#[test]
fn shared_id_ranks_highest() {
    let groups = rrf_terms(&ids(&[10, 20, 30]), &ids(&[20, 40]), 60).unwrap();
    let best = groups
        .iter()
        .max_by(|a, b| score(&a.1).partial_cmp(&score(&b.1)).unwrap())
        .unwrap();
    assert_eq!(best.0, 20);
}

#[test]
fn single_leg_first_rank_scores_one_over_k_plus_one() {
    let groups = rrf_terms(&ids(&[10]), &[], 60).unwrap();
    assert_eq!(groups, vec![(10, vec![61])]);
    assert!((score(&groups[0].1) - 1.0 / 61.0).abs() < 1e-9);
}

#[test]
fn terms_sum_per_leg_ranks() {
    let groups = rrf_terms(&ids(&[10, 20, 30]), &ids(&[20, 40]), 60).unwrap();
    assert_eq!(groups, vec![(10, vec![61]), (20, vec![62, 61]), (30, vec![63]), (40, vec![62])]);
    let s20 = score(&groups[1].1);
    assert!((s20 - (1.0 / 62.0 + 1.0 / 61.0)).abs() < 1e-9);
}

#[test]
fn empty_legs_yield_no_rows() {
    assert_eq!(rrf_terms(&[], &[], 60).unwrap(), Vec::<(i64, Vec<u64>)>::new());
}

#[test]
fn nulls_take_a_rank_but_contribute_nothing() {
    let groups = rrf_terms(&[None, Some(7), None], &[Some(7)], 1).unwrap();
    assert_eq!(groups, vec![(7, vec![3, 2])]);
}

#[test]
fn repeated_id_in_one_list_sums_both_positions() {
    let groups = rrf_terms(&ids(&[5, 5]), &[], 10).unwrap();
    assert_eq!(groups, vec![(5, vec![11, 12])]);
}

#[test]
fn non_positive_k_is_refused() {
    assert_eq!(rrf_terms(&ids(&[1]), &[], 0), Err(RrfError::NonPositiveK(0)));
    assert_eq!(rrf_terms(&[], &[], -5), Err(RrfError::NonPositiveK(-5)));
}

#[test]
fn each_id_once_and_every_listed_id_present() {
    let first = vec![Some(3), None, Some(1), Some(3)];
    let second = vec![Some(2), Some(1)];
    let groups = rrf_terms(&first, &second, 5).unwrap();
    let ids: Vec<i64> = groups.iter().map(|g| g.0).collect();
    assert_eq!(ids, vec![3, 1, 2]);
    for (_, denominators) in &groups {
        assert!(denominators.iter().all(|d| *d > 5));
    }
    assert_eq!(groups, vec![(3, vec![6, 9]), (1, vec![8, 7]), (2, vec![6])]);
}
