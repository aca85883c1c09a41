//! Feature vectors and the weighted similarity metric.
//!
//! Measurements are fixed-point integers in thousandths of their clinical
//! unit.  The metric scales each squared per-dimension difference by a
//! per-dimension importance weight (in tenths), takes the floor square root
//! at a millionth resolution, and maps the distance `d` to the similarity
//! `1 / (1 + d)`, carried in millionths (`SIM_ONE` = exactly 1).

use vstd::prelude::*;
use vstd::arithmetic::div_mod::{lemma_div_is_ordered_by_denominator, lemma_fundamental_div_mod_converse};
use crate::num::{sqrt_floor, isqrt, lemma_sqrt_floor_bounds, lemma_sqrt_floor_monotone, lemma_div_strict_decrease};
use crate::store::{
    graph_nodes, graph_edges, graph_simple, graph_wf, graph_new, graph_add_node, graph_add_edge,
    graph_node_count, graph_edge_weight, graph_payload,
};
use petgraph::graph::UnGraph;

verus! {

/// Similarity of a vector with itself: exactly 1, in millionths.
pub const SIM_ONE: u64 = 1_000_000;

/// Largest admissible magnitude of a measurement, in thousandths.
pub const FEATURE_LIMIT: i64 = 100_000_000;

// Importance weights, in tenths.
pub const BMI_WEIGHT: i64 = 8;
pub const WAIST_CIRCUMFERENCE_WEIGHT: i64 = 11;
pub const SYSTOLIC_BP_WEIGHT: i64 = 12;
pub const DIASTOLIC_BP_WEIGHT: i64 = 10;
pub const GLUCOSE_WEIGHT: i64 = 13;
pub const TOTAL_CHOLESTEROL_WEIGHT: i64 = 11;
pub const TRIGLYCERIDE_WEIGHT: i64 = 10;
pub const HDL_WEIGHT: i64 = 11;
pub const LDL_WEIGHT: i64 = 12;
pub const HBA1C_WEIGHT: i64 = 15;

/// One observed subject: ten clinical measurements in thousandths.
#[derive(Clone, Copy, Debug, PartialEq, Eq, Structural)]
pub struct Individual {
    pub bmi: i64,
    pub waist_circumference: i64,
    pub bp_systolic: i64,
    pub bp_diastolic: i64,
    pub blood_glucose_fasting: i64,
    pub total_cholesterol: i64,
    pub triglyceride: i64,
    pub hdl: i64,
    pub ldl: i64,
    pub hba1c: i64,
}

impl Individual {
    /// Every measurement within the admissible fixed-point range.
    pub open spec fn wf(self) -> bool {
        &&& -FEATURE_LIMIT <= self.bmi <= FEATURE_LIMIT
        &&& -FEATURE_LIMIT <= self.waist_circumference <= FEATURE_LIMIT
        &&& -FEATURE_LIMIT <= self.bp_systolic <= FEATURE_LIMIT
        &&& -FEATURE_LIMIT <= self.bp_diastolic <= FEATURE_LIMIT
        &&& -FEATURE_LIMIT <= self.blood_glucose_fasting <= FEATURE_LIMIT
        &&& -FEATURE_LIMIT <= self.total_cholesterol <= FEATURE_LIMIT
        &&& -FEATURE_LIMIT <= self.triglyceride <= FEATURE_LIMIT
        &&& -FEATURE_LIMIT <= self.hdl <= FEATURE_LIMIT
        &&& -FEATURE_LIMIT <= self.ldl <= FEATURE_LIMIT
        &&& -FEATURE_LIMIT <= self.hba1c <= FEATURE_LIMIT
    }
}

/// A weighted squared difference in one dimension.
pub open spec fn spec_term(w: int, x: int, y: int) -> int {
    w * ((x - y) * (x - y))
}

/// Weighted sum of squared differences over the ten dimensions.
pub open spec fn spec_weighted_sq_sum(a: Individual, b: Individual) -> int {
    spec_term(BMI_WEIGHT as int, a.bmi as int, b.bmi as int)
        + spec_term(WAIST_CIRCUMFERENCE_WEIGHT as int, a.waist_circumference as int, b.waist_circumference as int)
        + spec_term(SYSTOLIC_BP_WEIGHT as int, a.bp_systolic as int, b.bp_systolic as int)
        + spec_term(DIASTOLIC_BP_WEIGHT as int, a.bp_diastolic as int, b.bp_diastolic as int)
        + spec_term(GLUCOSE_WEIGHT as int, a.blood_glucose_fasting as int, b.blood_glucose_fasting as int)
        + spec_term(TOTAL_CHOLESTEROL_WEIGHT as int, a.total_cholesterol as int, b.total_cholesterol as int)
        + spec_term(TRIGLYCERIDE_WEIGHT as int, a.triglyceride as int, b.triglyceride as int)
        + spec_term(HDL_WEIGHT as int, a.hdl as int, b.hdl as int)
        + spec_term(LDL_WEIGHT as int, a.ldl as int, b.ldl as int)
        + spec_term(HBA1C_WEIGHT as int, a.hba1c as int, b.hba1c as int)
}

/// Weighted Euclidean distance between two vectors, floor-rounded, in
/// millionths of a measurement unit.
pub open spec fn spec_distance(a: Individual, b: Individual) -> int {
    sqrt_floor((spec_weighted_sq_sum(a, b) * 100_000) as nat) as int
}

/// Similarity at a given distance: `1 / (1 + d)` in millionths.
pub open spec fn spec_sim_of_distance(d: int) -> int {
    1_000_000_000_000int / (1_000_000 + d)
}

/// Similarity of two vectors, in millionths; 1 is `SIM_ONE`.
pub open spec fn spec_similarity(a: Individual, b: Individual) -> int {
    spec_sim_of_distance(spec_distance(a, b))
}

proof fn lemma_term_bounds(w: int, x: int, y: int)
    requires
        0 < w <= 15,
        -FEATURE_LIMIT <= x <= FEATURE_LIMIT,
        -FEATURE_LIMIT <= y <= FEATURE_LIMIT,
    ensures
        0 <= spec_term(w, x, y) <= w * 40_000_000_000_000_000,
        spec_term(w, x, y) == 0 <==> x == y,
        x != y ==> spec_term(w, x, y) >= w,
{
    assert(0 <= (x - y) * (x - y) <= 40_000_000_000_000_000) by (nonlinear_arith)
        requires -200_000_000 <= x - y <= 200_000_000,
    ;
    assert(x != y ==> (x - y) * (x - y) >= 1) by (nonlinear_arith);
    assert(0 <= spec_term(w, x, y) <= w * 40_000_000_000_000_000) by (nonlinear_arith)
        requires 0 < w <= 15, 0 <= (x - y) * (x - y) <= 40_000_000_000_000_000,
    ;
    assert(spec_term(w, x, y) == 0 <==> (x - y) * (x - y) == 0) by (nonlinear_arith)
        requires 0 < w,
    ;
    assert((x - y) * (x - y) == 0 <==> x == y) by (nonlinear_arith);
    assert(x != y ==> spec_term(w, x, y) >= w) by (nonlinear_arith)
        requires 0 < w, x != y ==> (x - y) * (x - y) >= 1,
    ;
}

/// Range and definiteness of the weighted sum of squares.
pub proof fn lemma_ssq_bounds(a: Individual, b: Individual)
    requires
        a.wf(),
        b.wf(),
    ensures
        0 <= spec_weighted_sq_sum(a, b) <= 4_520_000_000_000_000_000,
        spec_weighted_sq_sum(a, b) == 0 <==> a == b,
        a != b ==> spec_weighted_sq_sum(a, b) >= 8,
{
    lemma_term_bounds(BMI_WEIGHT as int, a.bmi as int, b.bmi as int);
    lemma_term_bounds(WAIST_CIRCUMFERENCE_WEIGHT as int, a.waist_circumference as int, b.waist_circumference as int);
    lemma_term_bounds(SYSTOLIC_BP_WEIGHT as int, a.bp_systolic as int, b.bp_systolic as int);
    lemma_term_bounds(DIASTOLIC_BP_WEIGHT as int, a.bp_diastolic as int, b.bp_diastolic as int);
    lemma_term_bounds(GLUCOSE_WEIGHT as int, a.blood_glucose_fasting as int, b.blood_glucose_fasting as int);
    lemma_term_bounds(TOTAL_CHOLESTEROL_WEIGHT as int, a.total_cholesterol as int, b.total_cholesterol as int);
    lemma_term_bounds(TRIGLYCERIDE_WEIGHT as int, a.triglyceride as int, b.triglyceride as int);
    lemma_term_bounds(HDL_WEIGHT as int, a.hdl as int, b.hdl as int);
    lemma_term_bounds(LDL_WEIGHT as int, a.ldl as int, b.ldl as int);
    lemma_term_bounds(HBA1C_WEIGHT as int, a.hba1c as int, b.hba1c as int);
}

/// Bounds of the floor-rounded distance, and its definiteness.
pub proof fn lemma_distance_bounds(a: Individual, b: Individual)
    requires
        a.wf(),
        b.wf(),
    ensures
        0 <= spec_distance(a, b) <= 999_999_000_000,
        spec_distance(a, b) == 0 <==> a == b,
{
    lemma_ssq_bounds(a, b);
    let prod = (spec_weighted_sq_sum(a, b) * 100_000) as nat;
    let d = sqrt_floor(prod);
    lemma_sqrt_floor_bounds(prod);
    assert(prod <= 452_000_000_000_000_000_000_000);
    if d > 999_999_000_000 {
        assert(d * d > 452_000_000_000_000_000_000_000) by (nonlinear_arith)
            requires d > 999_999_000_000,
        ;
    }
    if a == b {
        assert(prod == 0);
    } else {
        assert(prod >= 800_000);
        if d == 0 {
            assert((d + 1) * (d + 1) == 1) by (nonlinear_arith)
                requires d == 0,
            ;
            assert(false);
        }
    }
}

/// Similarity bounds at a given distance: in `(0, SIM_ONE]`, and equal to
/// `SIM_ONE` exactly at distance zero.
pub proof fn lemma_sim_of_distance_range(d: int)
    requires
        0 <= d <= 999_999_000_000,
    ensures
        1 <= spec_sim_of_distance(d) <= SIM_ONE,
        spec_sim_of_distance(d) == SIM_ONE <==> d == 0,
{
    lemma_div_is_ordered_by_denominator(1_000_000_000_000, 1_000_000 + d, 1_000_000_000_000);
    lemma_fundamental_div_mod_converse(1_000_000_000_000, 1_000_000_000_000, 1, 0);
    lemma_div_is_ordered_by_denominator(1_000_000_000_000, 1_000_000, 1_000_000 + d);
    lemma_fundamental_div_mod_converse(1_000_000_000_000, 1_000_000, 1_000_000, 0);
    if d >= 1 {
        lemma_div_is_ordered_by_denominator(1_000_000_000_000, 1_000_001, 1_000_000 + d);
        assert(999_999int * 1_000_001 + 1 == 1_000_000_000_000) by (nonlinear_arith);
        lemma_fundamental_div_mod_converse(1_000_000_000_000, 1_000_001, 999_999, 1);
    }
}

/// Similarity is antitone in the distance.
pub proof fn lemma_sim_of_distance_antitone(d1: int, d2: int)
    requires
        0 <= d1 <= d2,
    ensures
        spec_sim_of_distance(d1) >= spec_sim_of_distance(d2),
{
    lemma_div_is_ordered_by_denominator(1_000_000_000_000, 1_000_000 + d1, 1_000_000 + d2);
}

/// Similarity is strictly smaller at a strictly larger distance, whenever
/// the two distances are far enough apart for the millionth-resolution
/// quotients to separate.
pub proof fn lemma_sim_of_distance_strict(d1: int, d2: int)
    requires
        0 <= d1 < d2,
        (1_000_000 + d1) * (1_000_000 + d2) <= 1_000_000_000_000 * (d2 - d1),
    ensures
        spec_sim_of_distance(d1) > spec_sim_of_distance(d2),
{
    lemma_div_strict_decrease(1_000_000_000_000, 1_000_000 + d1, 1_000_000 + d2);
}

/// A larger weighted sum of squares never yields a larger similarity.
pub proof fn lemma_similarity_antitone(a: Individual, b: Individual, c: Individual)
    requires
        a.wf(),
        b.wf(),
        c.wf(),
        spec_weighted_sq_sum(a, b) <= spec_weighted_sq_sum(a, c),
    ensures
        spec_distance(a, b) <= spec_distance(a, c),
        spec_similarity(a, b) >= spec_similarity(a, c),
{
    lemma_ssq_bounds(a, b);
    lemma_ssq_bounds(a, c);
    lemma_sqrt_floor_monotone((spec_weighted_sq_sum(a, b) * 100_000) as nat, (spec_weighted_sq_sum(a, c) * 100_000) as nat);
    lemma_sim_of_distance_antitone(spec_distance(a, b), spec_distance(a, c));
}

/// A strictly larger distance gives a strictly smaller similarity, as
/// long as the gap between the two distances survives the millionth
/// rounding of the quotients.
pub proof fn lemma_similarity_strict(a: Individual, b: Individual, c: Individual)
    requires
        a.wf(),
        b.wf(),
        c.wf(),
        spec_distance(a, b) < spec_distance(a, c),
        (1_000_000 + spec_distance(a, b)) * (1_000_000 + spec_distance(a, c))
            <= 1_000_000_000_000 * (spec_distance(a, c) - spec_distance(a, b)),
    ensures
        spec_similarity(a, b) > spec_similarity(a, c),
{
    lemma_distance_bounds(a, b);
    lemma_sim_of_distance_strict(spec_distance(a, b), spec_distance(a, c));
}

/// A vector is perfectly similar to itself, and to nothing else: the
/// similarity of two well-formed vectors is in `(0, SIM_ONE]`, with the top
/// reached exactly on equal vectors.
pub proof fn lemma_similarity_range(a: Individual, b: Individual)
    requires
        a.wf(),
        b.wf(),
    ensures
        1 <= spec_similarity(a, b) <= SIM_ONE,
        spec_similarity(a, b) == SIM_ONE <==> a == b,
        spec_similarity(a, a) == SIM_ONE,
{
    lemma_distance_bounds(a, b);
    lemma_sim_of_distance_range(spec_distance(a, b));
    lemma_distance_bounds(a, a);
    lemma_sim_of_distance_range(spec_distance(a, a));
}

/// Weighted fixed-point similarity of two feature vectors, in millionths.
pub fn similarity(individual1: &Individual, individual2: &Individual) -> (r: u64)
    requires
        individual1.wf(),
        individual2.wf(),
    ensures
        r == spec_similarity(*individual1, *individual2),
        1 <= r <= SIM_ONE,
        r == SIM_ONE <==> *individual1 == *individual2,
{
    let a = individual1;
    let b = individual2;
    proof {
        lemma_ssq_bounds(*a, *b);
        lemma_term_bounds(BMI_WEIGHT as int, a.bmi as int, b.bmi as int);
        lemma_term_bounds(WAIST_CIRCUMFERENCE_WEIGHT as int, a.waist_circumference as int, b.waist_circumference as int);
        lemma_term_bounds(SYSTOLIC_BP_WEIGHT as int, a.bp_systolic as int, b.bp_systolic as int);
        lemma_term_bounds(DIASTOLIC_BP_WEIGHT as int, a.bp_diastolic as int, b.bp_diastolic as int);
        lemma_term_bounds(GLUCOSE_WEIGHT as int, a.blood_glucose_fasting as int, b.blood_glucose_fasting as int);
        lemma_term_bounds(TOTAL_CHOLESTEROL_WEIGHT as int, a.total_cholesterol as int, b.total_cholesterol as int);
        lemma_term_bounds(TRIGLYCERIDE_WEIGHT as int, a.triglyceride as int, b.triglyceride as int);
        lemma_term_bounds(HDL_WEIGHT as int, a.hdl as int, b.hdl as int);
        lemma_term_bounds(LDL_WEIGHT as int, a.ldl as int, b.ldl as int);
        lemma_term_bounds(HBA1C_WEIGHT as int, a.hba1c as int, b.hba1c as int);
    }
    let mut sum_squares: i64 = 0;
    sum_squares += weighted_square(a.bmi, b.bmi, BMI_WEIGHT);
    sum_squares += weighted_square(a.waist_circumference, b.waist_circumference, WAIST_CIRCUMFERENCE_WEIGHT);
    sum_squares += weighted_square(a.bp_systolic, b.bp_systolic, SYSTOLIC_BP_WEIGHT);
    sum_squares += weighted_square(a.bp_diastolic, b.bp_diastolic, DIASTOLIC_BP_WEIGHT);
    sum_squares += weighted_square(a.blood_glucose_fasting, b.blood_glucose_fasting, GLUCOSE_WEIGHT);
    sum_squares += weighted_square(a.total_cholesterol, b.total_cholesterol, TOTAL_CHOLESTEROL_WEIGHT);
    sum_squares += weighted_square(a.triglyceride, b.triglyceride, TRIGLYCERIDE_WEIGHT);
    sum_squares += weighted_square(a.hdl, b.hdl, HDL_WEIGHT);
    sum_squares += weighted_square(a.ldl, b.ldl, LDL_WEIGHT);
    sum_squares += weighted_square(a.hba1c, b.hba1c, HBA1C_WEIGHT);
    assert(sum_squares == spec_weighted_sq_sum(*a, *b));
    let prod: u128 = (sum_squares as u128) * 100_000;
    let euclidean_distance: u128 = isqrt(prod);
    proof {
        lemma_distance_bounds(*a, *b);
        lemma_sim_of_distance_range(spec_distance(*a, *b));
    }
    let sim: u128 = 1_000_000_000_000 / (1_000_000 + euclidean_distance);
    sim as u64
}

/// One weighted squared difference, overflow-free inside the admissible
/// measurement range.
fn weighted_square(x: i64, y: i64, w: i64) -> (t: i64)
    requires
        0 < w <= 15,
        -FEATURE_LIMIT <= x <= FEATURE_LIMIT,
        -FEATURE_LIMIT <= y <= FEATURE_LIMIT,
    ensures
        t == spec_term(w as int, x as int, y as int),
        0 <= t <= w * 40_000_000_000_000_000,
{
    proof {
        lemma_term_bounds(w as int, x as int, y as int);
        assert(0 <= (x - y) * (x - y) <= 40_000_000_000_000_000) by (nonlinear_arith)
            requires -200_000_000 <= x - y <= 200_000_000,
        ;
        assert(0 <= w * ((x - y) * (x - y)) <= 15 * 40_000_000_000_000_000) by (nonlinear_arith)
            requires 0 < w <= 15, 0 <= (x - y) * (x - y) <= 40_000_000_000_000_000,
        ;
    }
    let d: i64 = x - y;
    w * (d * d)
}

/// The metric does not depend on the order of its arguments.
pub proof fn lemma_similarity_symmetric(a: Individual, b: Individual)
    ensures
        spec_weighted_sq_sum(a, b) == spec_weighted_sq_sum(b, a),
        spec_distance(a, b) == spec_distance(b, a),
        spec_similarity(a, b) == spec_similarity(b, a),
{
    assert forall|w: int, x: int, y: int| #[trigger] spec_term(w, x, y) == spec_term(w, y, x) by {
        assert(w * ((x - y) * (x - y)) == w * ((y - x) * (y - x))) by (nonlinear_arith);
    }
}

/// Which unordered pairs the builder has already examined when the outer
/// index is `i` and the inner index is `j`.
pub open spec fn pair_done(a: int, b: int, i: int, j: int) -> bool {
    let lo = if a < b { a } else { b };
    let hi = if a < b { b } else { a };
    lo < i || (lo == i && hi < j)
}

/// Builds the weighted similarity graph: one node per input vector, in
/// input order, and an edge between two distinct vectors exactly when
/// their similarity strictly exceeds the threshold, weighted by that
/// similarity.
pub fn build_graph(individuals: &Vec<Individual>, threshold: u64) -> (g: UnGraph<Individual, u64>)
    requires
        forall|i: int| 0 <= i < individuals@.len() ==> individuals@[i].wf(),
        individuals@.len() <= 32768,
    ensures
        graph_nodes(g) == individuals@,
        graph_wf(g),
        graph_simple(g),
        forall|i: int, j: int|
            0 <= i < individuals@.len() && 0 <= j < individuals@.len() && i != j ==>
                (#[trigger] graph_edges(g).dom().contains((i, j)) <==>
                    spec_similarity(individuals@[i], individuals@[j]) > threshold),
        forall|i: int, j: int| #[trigger] graph_edges(g).dom().contains((i, j)) ==>
            0 <= i < individuals@.len() && 0 <= j < individuals@.len() && i != j
            && graph_edges(g)[(i, j)] == spec_similarity(individuals@[i], individuals@[j]),
{
    let n = individuals.len();
    let mut graph = graph_new();
    let mut idx: usize = 0;
    while idx < n
        invariant
            idx <= n,
            n == individuals@.len() <= 32768,
            forall|i: int| 0 <= i < individuals@.len() ==> individuals@[i].wf(),
            graph_nodes(graph) == individuals@.subrange(0, idx as int),
            graph_edges(graph).dom() == Set::<(int, int)>::empty(),
            graph_simple(graph),
        decreases n - idx,
    {
        let payload = individuals[idx];
        graph_add_node(&mut graph, payload);
        proof {
            assert(individuals@.subrange(0, idx + 1) =~= individuals@.subrange(0, idx as int).push(payload));
        }
        idx += 1;
    }
    proof {
        assert(individuals@.subrange(0, n as int) =~= individuals@);
        assert(graph_edges(graph).dom().finite()) by {
            assert(Set::<(int, int)>::empty().finite());
        }
    }
    let mut i: usize = 0;
    while i < n
        invariant
            i <= n,
            n == individuals@.len() <= 32768,
            forall|k: int| 0 <= k < individuals@.len() ==> individuals@[k].wf(),
            graph_nodes(graph) == individuals@,
            graph_simple(graph),
            graph_edges(graph).dom().finite(),
            graph_edges(graph).dom().len() <= 2 * (i * n),
            forall|a: int, b: int|
                #[trigger] graph_edges(graph).dom().contains((a, b)) <==>
                    (0 <= a < n && 0 <= b < n && a != b && pair_done(a, b, i as int, i as int + 1)
                        && spec_similarity(individuals@[a], individuals@[b]) > threshold),
            forall|a: int, b: int| #[trigger] graph_edges(graph).dom().contains((a, b)) ==>
                graph_edges(graph)[(a, b)] == spec_similarity(individuals@[a], individuals@[b]),
        decreases n - i,
    {
        let mut j: usize = i + 1;
        while j < n
            invariant
                i < n,
                i + 1 <= j <= n,
                n == individuals@.len() <= 32768,
                forall|k: int| 0 <= k < individuals@.len() ==> individuals@[k].wf(),
                graph_nodes(graph) == individuals@,
                graph_simple(graph),
                graph_edges(graph).dom().finite(),
                graph_edges(graph).dom().len() <= 2 * (i * n + j),
                forall|a: int, b: int|
                    #[trigger] graph_edges(graph).dom().contains((a, b)) <==>
                        (0 <= a < n && 0 <= b < n && a != b && pair_done(a, b, i as int, j as int)
                            && spec_similarity(individuals@[a], individuals@[b]) > threshold),
                forall|a: int, b: int| #[trigger] graph_edges(graph).dom().contains((a, b)) ==>
                    graph_edges(graph)[(a, b)] == spec_similarity(individuals@[a], individuals@[b]),
            decreases n - j,
        {
            let a = individuals[i];
            let b = individuals[j];
            let similar = similarity(&a, &b);
            proof {
                lemma_similarity_symmetric(a, b);
                assert(2 * (i * n + j) + 2 <= 2 * (i * n + j + 1)) by (nonlinear_arith);
                assert(2 * ((n as int) * n + n) < 0xFFFF_FFFE) by (nonlinear_arith)
                    requires n <= 32768,
                ;
                assert(i * n + j <= (n as int) * n + n) by (nonlinear_arith)
                    requires 0 <= i < n, 0 <= j <= n,
                ;
            }
            if similar > threshold {
                let ghost e_old = graph_edges(graph);
                graph_add_edge(&mut graph, i, j, similar);
                proof {
                    vstd::set::axiom_set_insert_len(e_old.dom(), (i as int, j as int));
                    vstd::set::axiom_set_insert_len(e_old.dom().insert((i as int, j as int)), (j as int, i as int));
                }
            }
            j += 1;
        }
        proof {
            assert(2 * (i * n + n) <= 2 * ((i + 1) * n)) by (nonlinear_arith);
        }
        i += 1;
    }
    proof {
        assert forall|a: int, b: int| #[trigger] graph_edges(graph).dom().contains((a, b)) implies
            0 <= a < individuals@.len() && 0 <= b < individuals@.len() && a != b
            && graph_edges(graph).dom().contains((b, a))
            && graph_edges(graph)[(b, a)] == graph_edges(graph)[(a, b)]
            && 1 <= graph_edges(graph)[(a, b)] <= SIM_ONE by {
            assert(0 <= a < n && 0 <= b < n && a != b
                && spec_similarity(individuals@[a], individuals@[b]) > threshold);
            assert(individuals@[a].wf());
            assert(individuals@[b].wf());
            lemma_similarity_symmetric(individuals@[a], individuals@[b]);
            lemma_similarity_range(individuals@[a], individuals@[b]);
            assert(pair_done(b, a, n as int, n as int + 1));
            assert(graph_edges(graph).dom().contains((b, a)));
        }
    }
    graph
}

/// The neighbours of node `x` below bound `j`, in ascending order.
pub open spec fn spec_row_upto(e: Map<(int, int), u64>, x: int, j: int) -> Seq<usize>
    decreases j,
{
    if j <= 0 {
        Seq::empty()
    } else {
        let r = spec_row_upto(e, x, j - 1);
        if e.dom().contains((x, j - 1)) {
            r.push((j - 1) as usize)
        } else {
            r
        }
    }
}

/// The full adjacency row of node `x`: its neighbours in ascending order.
pub open spec fn spec_adj_row(e: Map<(int, int), u64>, n: int, x: int) -> Seq<usize> {
    spec_row_upto(e, x, n)
}

/// The degree of node `x`: how many neighbours it has.
pub open spec fn spec_degree(e: Map<(int, int), u64>, n: int, x: int) -> int {
    spec_adj_row(e, n, x).len() as int
}

/// Membership and ordering of an adjacency row prefix.
pub proof fn lemma_row_upto_props(e: Map<(int, int), u64>, x: int, j: int)
    requires
        j <= usize::MAX,
    ensures
        forall|k: int| 0 <= k < spec_row_upto(e, x, j).len() ==>
            (#[trigger] spec_row_upto(e, x, j)[k]) < j
            && e.dom().contains((x, spec_row_upto(e, x, j)[k] as int)),
        forall|y: int| 0 <= y < j && #[trigger] e.dom().contains((x, y)) ==>
            spec_row_upto(e, x, j).contains(y as usize),
        forall|k1: int, k2: int| 0 <= k1 < k2 < spec_row_upto(e, x, j).len() ==>
            #[trigger] spec_row_upto(e, x, j)[k1] < #[trigger] spec_row_upto(e, x, j)[k2],
    decreases j,
{
    if j > 0 {
        lemma_row_upto_props(e, x, j - 1);
        let prev = spec_row_upto(e, x, j - 1);
        let cur = spec_row_upto(e, x, j);
        assert forall|k: int| 0 <= k < cur.len() implies
            (#[trigger] cur[k]) < j && e.dom().contains((x, cur[k] as int)) by {
            if k < prev.len() {
                assert(cur[k] == prev[k]);
                assert(prev[k] < j - 1);
            } else {
                assert(cur[k] == (j - 1) as usize);
            }
        }
        assert forall|k1: int, k2: int| 0 <= k1 < k2 < cur.len() implies
            #[trigger] cur[k1] < #[trigger] cur[k2] by {
            assert(cur[k1] == prev[k1]);
            assert(prev[k1] < j - 1);
            if k2 < prev.len() {
                assert(cur[k2] == prev[k2]);
            } else {
                assert(cur[k2] == (j - 1) as usize);
            }
        }
        assert forall|y: int| 0 <= y < j && #[trigger] e.dom().contains((x, y)) implies
            cur.contains(y as usize) by {
            if y < j - 1 {
                assert(prev.contains(y as usize));
                let k = choose|k: int| 0 <= k < prev.len() && prev[k] == y as usize;
                assert(cur[k] == y as usize);
            } else {
                assert(cur[cur.len() - 1] == y as usize);
            }
        }
    }
}

/// The ascending list of neighbours of node `x`.
pub fn adjacency_row(g: &UnGraph<Individual, u64>, x: usize) -> (row: Vec<usize>)
    requires
        graph_wf(*g),
        graph_simple(*g),
        x < graph_nodes(*g).len(),
    ensures
        row@ == spec_adj_row(graph_edges(*g), graph_nodes(*g).len() as int, x as int),
{
    let n = graph_node_count(g);
    let mut row: Vec<usize> = Vec::new();
    let mut y: usize = 0;
    while y < n
        invariant
            y <= n,
            n == graph_nodes(*g).len(),
            x < n,
            graph_wf(*g),
            graph_simple(*g),
            row@ == spec_row_upto(graph_edges(*g), x as int, y as int),
        decreases n - y,
    {
        if x != y {
            let w = graph_edge_weight(g, x, y);
            if w.is_some() {
                row.push(y);
            }
        } else {
            proof {
                // A well-formed graph has no self-loop to record.
                assert(!graph_edges(*g).dom().contains((x as int, x as int)));
            }
        }
        y += 1;
    }
    row
}

/// The degrees of all nodes, indexed by node identity.
pub fn vertex_degree(g: &UnGraph<Individual, u64>) -> (degrees: Vec<usize>)
    requires
        graph_wf(*g),
        graph_simple(*g),
    ensures
        degrees@.len() == graph_nodes(*g).len(),
        forall|x: int| 0 <= x < degrees@.len() ==>
            #[trigger] degrees@[x] == spec_degree(graph_edges(*g), graph_nodes(*g).len() as int, x),
{
    let n = graph_node_count(g);
    let mut degrees: Vec<usize> = Vec::new();
    let mut x: usize = 0;
    while x < n
        invariant
            x <= n,
            n == graph_nodes(*g).len(),
            graph_wf(*g),
            graph_simple(*g),
            degrees@.len() == x,
            forall|k: int| 0 <= k < x ==>
                #[trigger] degrees@[k] == spec_degree(graph_edges(*g), n as int, k),
        decreases n - x,
    {
        let row = adjacency_row(g, x);
        degrees.push(row.len());
        x += 1;
    }
    degrees
}

/// The number of nodes in the graph.
pub fn node_count(g: &UnGraph<Individual, u64>) -> (n: usize)
    ensures
        n == graph_nodes(*g).len(),
{
    graph_node_count(g)
}

/// The similarity weight of the edge between two nodes, or `None` when
/// they are not adjacent.
pub fn edge_similarity(g: &UnGraph<Individual, u64>, a: usize, b: usize) -> (w: Option<u64>)
    requires
        graph_simple(*g),
        a < graph_nodes(*g).len(),
        b < graph_nodes(*g).len(),
    ensures
        match w {
            Some(x) => graph_edges(*g).dom().contains((a as int, b as int))
                && graph_edges(*g)[(a as int, b as int)] == x,
            None => !graph_edges(*g).dom().contains((a as int, b as int)),
        },
{
    graph_edge_weight(g, a, b)
}

/// The feature vector a node carries.
pub fn node_individual(g: &UnGraph<Individual, u64>, x: usize) -> (payload: Individual)
    requires
        x < graph_nodes(*g).len(),
    ensures
        payload == graph_nodes(*g)[x as int],
{
    graph_payload(g, x)
}

} // verus!
