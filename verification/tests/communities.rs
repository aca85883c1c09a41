use simgraph::cluster::{cluster_analysis, component_mapping, detect_communities};
use simgraph::graph::{build_graph, Individual};

fn ind(bmi: i64) -> Individual {
    Individual {
        bmi,
        waist_circumference: 0,
        bp_systolic: 0,
        bp_diastolic: 0,
        blood_glucose_fasting: 0,
        total_cholesterol: 0,
        triglyceride: 0,
        hdl: 0,
        ldl: 0,
        hba1c: 0,
    }
}

fn two_triangles() -> Vec<Individual> {
    // Two tight groups of three, far apart: each forms a triangle.
    vec![ind(0), ind(1_000), ind(2_000), ind(50_000), ind(51_000), ind(52_000)]
}

fn assert_is_partition(groups: &Vec<Vec<usize>>, n: usize) {
    let mut seen = vec![false; n];
    for group in groups {
        assert!(!group.is_empty());
        for &x in group {
            assert!(x < n);
            assert!(!seen[x], "node listed twice");
            seen[x] = true;
        }
    }
    for x in 0..n {
        assert!(seen[x], "node missing from partition");
    }
}

#[test]
fn components_of_two_disjoint_triangles() {
    let g = build_graph(&two_triangles(), 300_000);
    let comp = component_mapping(&g);
    // Ids count up in the order the components are first met.
    assert_eq!(comp, vec![0, 0, 0, 1, 1, 1]);
}

#[test]
fn component_ids_are_deterministic_across_runs() {
    let vs = two_triangles();
    let g1 = build_graph(&vs, 300_000);
    let g2 = build_graph(&vs, 300_000);
    assert_eq!(component_mapping(&g1), component_mapping(&g2));
}

#[test]
fn cluster_analysis_groups_by_component() {
    let g = build_graph(&two_triangles(), 300_000);
    let clusters = cluster_analysis(&g);
    assert_eq!(clusters, vec![vec![0, 1, 2], vec![3, 4, 5]]);
}

#[test]
fn communities_of_two_triangles() {
    let g = build_graph(&two_triangles(), 300_000);
    let communities = detect_communities(&g);
    assert_is_partition(&communities, 6);
    assert_eq!(communities, vec![vec![0, 1, 2], vec![3, 4, 5]]);
}

#[test]
fn communities_of_the_empty_graph() {
    let g = build_graph(&vec![], 500_000);
    let communities = detect_communities(&g);
    assert!(communities.is_empty());
}

#[test]
fn fully_disconnected_graph_gives_singleton_communities() {
    let vs = vec![ind(0), ind(50_000), ind(100_000)];
    let g = build_graph(&vs, 900_000);
    let communities = detect_communities(&g);
    assert_is_partition(&communities, 3);
    assert_eq!(communities, vec![vec![0], vec![1], vec![2]]);
}

#[test]
fn communities_are_deterministic_across_runs() {
    let vs = two_triangles();
    let g1 = build_graph(&vs, 300_000);
    let g2 = build_graph(&vs, 300_000);
    assert_eq!(detect_communities(&g1), detect_communities(&g2));
}

#[test]
fn end_to_end_six_similar_individuals() {
    // Six subjects within one unit of each other: every pair is similar
    // above one half, so the graph is one component.
    let vs = vec![ind(0), ind(200), ind(400), ind(600), ind(800), ind(1_000)];
    let g = build_graph(&vs, 500_000);
    let comp = component_mapping(&g);
    assert_eq!(comp, vec![0, 0, 0, 0, 0, 0]);
    let communities = detect_communities(&g);
    assert_is_partition(&communities, 6);
    assert_eq!(communities, vec![vec![0, 1, 2, 3, 4, 5]]);
}
