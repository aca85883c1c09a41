use simgraph::graph::{build_graph, edge_similarity, node_count, node_individual, vertex_degree, Individual};
use simgraph::validation::{distinct_node_ids, test_graph_integrity};

fn ind(bmi: i64) -> Individual {
    Individual {
        bmi,
        waist_circumference: 0,
        bp_systolic: 0,
        bp_diastolic: 0,
        blood_glucose_fasting: 0,
        total_cholesterol: 0,
        triglyceride: 0,
        hdl: 0,
        ldl: 0,
        hba1c: 0,
    }
}

#[test]
fn builder_keeps_every_vector_as_a_node() {
    let vs = vec![ind(0), ind(1_000), ind(4_000)];
    let g = build_graph(&vs, 500_000);
    assert_eq!(node_count(&g), 3);
    assert_eq!(node_individual(&g, 1), ind(1_000));
}

#[test]
fn edge_exists_iff_similarity_above_threshold() {
    // Pairwise similarities: (0,1) -> 527864, (0,2) -> 218449,
    // (1,2) -> 271497.
    let vs = vec![ind(0), ind(1_000), ind(4_000)];
    let g = build_graph(&vs, 500_000);
    assert_eq!(edge_similarity(&g, 0, 1), Some(527_864));
    assert_eq!(edge_similarity(&g, 1, 0), Some(527_864));
    assert_eq!(edge_similarity(&g, 0, 2), None);
    assert_eq!(edge_similarity(&g, 1, 2), None);
    assert_eq!(edge_similarity(&g, 1, 1), None);
}

#[test]
fn similarity_equal_to_threshold_gives_no_edge() {
    let vs = vec![ind(0), ind(1_000)];
    let g = build_graph(&vs, 527_864);
    assert_eq!(edge_similarity(&g, 0, 1), None);
}

#[test]
fn isolated_vectors_stay_in_the_graph() {
    let vs = vec![ind(0), ind(50_000)];
    let g = build_graph(&vs, 500_000);
    assert_eq!(node_count(&g), 2);
    assert_eq!(edge_similarity(&g, 0, 1), None);
}

#[test]
fn vertex_degree_counts_incident_edges() {
    // Positions 0, -1, -2, 3, 100, -3 units of body-mass index; edges join
    // pairs within three units (threshold 250000 sits between the
    // similarities at three and four units).
    let vs = vec![ind(0), ind(-1_000), ind(-2_000), ind(3_000), ind(100_000), ind(-3_000)];
    let g = build_graph(&vs, 250_000);
    assert_eq!(vertex_degree(&g), vec![4, 3, 3, 1, 0, 3]);
}

#[test]
fn integrity_holds_for_built_graphs() {
    let vs = vec![ind(0), ind(1_000), ind(4_000)];
    let g = build_graph(&vs, 500_000);
    assert!(test_graph_integrity(&g));
}

#[test]
fn integrity_check_rejects_duplicate_identities() {
    let ids = vec![0usize, 1, 1];
    assert!(!distinct_node_ids(&ids, 3));
    assert!(distinct_node_ids(&vec![0usize, 1, 2], 3));
    assert!(!distinct_node_ids(&vec![0usize, 1, 2], 4));
}
