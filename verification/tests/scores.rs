use simgraph::graph::{build_graph, Individual, SIM_ONE};
use simgraph::validation::calculate_silhouette_scores;

fn ind(bmi: i64) -> Individual {
    Individual {
        bmi,
        waist_circumference: 0,
        bp_systolic: 0,
        bp_diastolic: 0,
        blood_glucose_fasting: 0,
        total_cholesterol: 0,
        triglyceride: 0,
        hdl: 0,
        ldl: 0,
        hba1c: 0,
    }
}

#[test]
fn equidistant_node_scores_exactly_zero() {
    // Node 0 sits one unit from its community partner and one unit from
    // the other community: both mean dissimilarities are 527864 millionths.
    let vs = vec![ind(0), ind(1_000), ind(-1_000)];
    let g = build_graph(&vs, 300_000);
    let clusters = vec![vec![0usize, 1], vec![2]];
    let scores = calculate_silhouette_scores(&g, &clusters);
    assert_eq!(scores[0], (0, 0));
}

#[test]
fn singleton_community_with_positive_separation_scores_one() {
    // Node 0 stands alone: its within-community dissimilarity is exactly
    // zero, the separation from the other community is positive.
    let vs = vec![ind(0), ind(1_000), ind(2_000)];
    let g = build_graph(&vs, 300_000);
    let clusters = vec![vec![0usize], vec![1, 2]];
    let scores = calculate_silhouette_scores(&g, &clusters);
    assert_eq!(scores[0], (0, SIM_ONE as i64));
}

#[test]
fn scores_cover_every_node_in_cluster_order() {
    let vs = vec![ind(0), ind(1_000), ind(-1_000)];
    let g = build_graph(&vs, 300_000);
    let clusters = vec![vec![0usize, 1], vec![2]];
    let scores = calculate_silhouette_scores(&g, &clusters);
    let nodes: Vec<usize> = scores.iter().map(|p| p.0).collect();
    assert_eq!(nodes, vec![0, 1, 2]);
}

#[test]
fn scores_stay_within_unit_range() {
    let vs = vec![ind(0), ind(500), ind(20_000), ind(21_000), ind(50_000)];
    let g = build_graph(&vs, 300_000);
    let clusters = vec![vec![0usize, 1], vec![2, 3], vec![4]];
    let scores = calculate_silhouette_scores(&g, &clusters);
    assert_eq!(scores.len(), 5);
    for &(_, s) in &scores {
        assert!(-(SIM_ONE as i64) <= s && s <= SIM_ONE as i64);
    }
}

#[test]
fn unreachable_other_communities_give_full_score() {
    // Node 0's community is tight, and no other community is adjacent to
    // it: the separation is infinite, so the score is the maximum.
    let vs = vec![ind(0), ind(200), ind(50_000), ind(90_000)];
    let g = build_graph(&vs, 300_000);
    let clusters = vec![vec![0usize, 1], vec![2, 3]];
    let scores = calculate_silhouette_scores(&g, &clusters);
    assert_eq!(scores[0].1, SIM_ONE as i64);
    // The far pair is not even adjacent within its own community: both
    // means are infinite, which counts as equal, so the score is zero.
    assert_eq!(scores[2].1, 0);
}
