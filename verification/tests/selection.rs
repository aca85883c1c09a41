use simgraph::cluster::{evaluate_representatives, select_representatives};
use simgraph::graph::{build_graph, Individual};

fn ind(bmi: i64) -> Individual {
    Individual {
        bmi,
        waist_circumference: 0,
        bp_systolic: 0,
        bp_diastolic: 0,
        blood_glucose_fasting: 0,
        total_cholesterol: 0,
        triglyceride: 0,
        hdl: 0,
        ldl: 0,
        hba1c: 0,
    }
}

/// Six nodes whose degrees come out as [4, 3, 3, 1, 0, 3]: edges join
/// pairs within three units of body-mass index.
fn degree_graph() -> Vec<Individual> {
    vec![ind(0), ind(-1_000), ind(-2_000), ind(3_000), ind(100_000), ind(-3_000)]
}

#[test]
fn top_two_representatives_by_descending_degree() {
    let g = build_graph(&degree_graph(), 250_000);
    // A community of five nodes with degrees [4, 3, 3, 1, 0].
    let communities = vec![vec![0usize, 1, 2, 3, 4]];
    let reps = select_representatives(&g, &communities, 2);
    assert_eq!(reps, vec![0, 1]);
}

#[test]
fn representative_count_is_capped_by_community_size() {
    let g = build_graph(&degree_graph(), 250_000);
    let communities = vec![vec![3usize, 4]];
    let reps = select_representatives(&g, &communities, 5);
    assert_eq!(reps, vec![3, 4]);
}

#[test]
fn zero_representatives_requested_yields_none() {
    let g = build_graph(&degree_graph(), 250_000);
    let communities = vec![vec![0usize, 1, 2]];
    let reps = select_representatives(&g, &communities, 0);
    assert!(reps.is_empty());
}

#[test]
fn representatives_concatenate_across_communities() {
    let g = build_graph(&degree_graph(), 250_000);
    let communities = vec![vec![0usize, 3], vec![1, 2, 5]];
    let reps = select_representatives(&g, &communities, 1);
    assert_eq!(reps, vec![0, 1]);
}

#[test]
fn evaluation_reports_community_means_for_members() {
    let vs = vec![ind(0), ind(1_000)];
    let g = build_graph(&vs, 300_000);
    let communities = vec![vec![0usize, 1]];
    let reps = vec![0usize];
    let rows = evaluate_representatives(&g, &communities, &reps);
    assert_eq!(rows.len(), 1);
    let (ci, rep, avg) = rows[0];
    assert_eq!(ci, 0);
    assert_eq!(rep, 0);
    assert_eq!(avg.bmi, 500);
    assert_eq!(avg.hba1c, 0);
}

#[test]
fn evaluation_skips_representatives_outside_the_community() {
    let vs = vec![ind(0), ind(1_000), ind(50_000)];
    let g = build_graph(&vs, 300_000);
    let communities = vec![vec![0usize, 1], vec![2]];
    let reps = vec![2usize];
    let rows = evaluate_representatives(&g, &communities, &reps);
    assert_eq!(rows.len(), 1);
    assert_eq!(rows[0].0, 1);
    assert_eq!(rows[0].1, 2);
    assert_eq!(rows[0].2.bmi, 50_000);
}
