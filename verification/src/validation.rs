//! Structural integrity of the graph and silhouette-style validation
//! scores.
//!
//! Dissimilarity between two nodes is the edge weight when they are
//! adjacent and infinite otherwise; a mean over a community is therefore an
//! extended rational, carried as a triple `(finite, sum, count)`.  Scores
//! are fixed-point millionths in `[-SIM_ONE, SIM_ONE]`.

use vstd::prelude::*;
use vstd::arithmetic::div_mod::{lemma_fundamental_div_mod, lemma_fundamental_div_mod_converse};
use crate::graph::{Individual, pair_done, SIM_ONE};
use crate::store::{graph_nodes, graph_edges, graph_simple, graph_wf, graph_node_count, graph_node_identifiers, graph_edge_weight};
use crate::cluster::groups_view;
use petgraph::graph::UnGraph;

verus! {

/// No two entries of the identity list coincide and the list has the
/// announced length.
pub fn distinct_node_ids(ids: &Vec<usize>, expected: usize) -> (r: bool)
    ensures
        r <==> ((forall|a: int, b: int| 0 <= a < b < ids@.len() ==>
            (#[trigger] ids@[a]) != (#[trigger] ids@[b])) && ids@.len() == expected),
{
    let n = ids.len();
    let mut ok = n == expected;
    let mut i: usize = 0;
    while i < n
        invariant
            i <= n,
            n == ids@.len(),
            ok <==> ((forall|a: int, b: int| 0 <= a < b < n && pair_done(a, b, i as int, i as int + 1) ==>
                (#[trigger] ids@[a]) != (#[trigger] ids@[b])) && n == expected),
        decreases n - i,
    {
        let mut j: usize = i + 1;
        while j < n
            invariant
                i < n,
                i + 1 <= j <= n,
                n == ids@.len(),
                ok <==> ((forall|a: int, b: int| 0 <= a < b < n && pair_done(a, b, i as int, j as int) ==>
                    (#[trigger] ids@[a]) != (#[trigger] ids@[b])) && n == expected),
            decreases n - j,
        {
            if ids[i] == ids[j] {
                ok = false;
            }
            j += 1;
        }
        i += 1;
    }
    ok
}

/// The graph's node identities are pairwise distinct and as many as the
/// node count.  Node identities of an add-only graph are consecutive
/// indices, so this holds of every graph the builder produces.
pub fn test_graph_integrity(graph: &UnGraph<Individual, u64>) -> (r: bool)
    ensures
        r,
{
    let ids = graph_node_identifiers(graph);
    let n = graph_node_count(graph);
    distinct_node_ids(&ids, n)
}

/// Extended mean dissimilarity from node `x` to the listed nodes, skipping
/// `x` itself: whether every listed node is adjacent to `x`, the sum of
/// the adjacent weights, and how many nodes were counted.
pub open spec fn spec_dissim(e: Map<(int, int), u64>, x: int, ys: Seq<usize>) -> (bool, int, int)
    decreases ys.len(),
{
    if ys.len() == 0 {
        (true, 0, 0)
    } else {
        let p = spec_dissim(e, x, ys.drop_last());
        let y = ys[ys.len() - 1] as int;
        if y == x {
            p
        } else if e.dom().contains((x, y)) {
            (p.0, p.1 + e[(x, y)], p.2 + 1)
        } else {
            (false, p.1, p.2 + 1)
        }
    }
}

/// The within-community mean for `x`: a singleton community counts as
/// exactly zero dissimilarity.
pub open spec fn spec_a(e: Map<(int, int), u64>, x: int, c: Seq<usize>) -> (bool, int, int) {
    let d = spec_dissim(e, x, c);
    if d.2 == 0 {
        (true, 0, 1)
    } else {
        d
    }
}

/// Strict order on extended means; an infinite mean is larger than every
/// finite one.
pub open spec fn spec_mean_lt(m1: (bool, int, int), m2: (bool, int, int)) -> bool {
    if !m1.0 {
        false
    } else if !m2.0 {
        true
    } else {
        m1.1 * m2.2 < m2.1 * m1.2
    }
}

/// The best (smallest, first on ties) mean dissimilarity from `x` to any
/// community other than `ci`, among the first `upto` communities; the
/// leading flag says whether any such community exists.
pub open spec fn spec_b(
    e: Map<(int, int), u64>,
    x: int,
    clusters: Seq<Seq<usize>>,
    ci: int,
    upto: int,
) -> (bool, (bool, int, int))
    decreases upto,
{
    if upto <= 0 {
        (false, (false, 0, 0))
    } else {
        let p = spec_b(e, x, clusters, ci, upto - 1);
        if upto - 1 == ci {
            p
        } else {
            let m = spec_dissim(e, x, clusters[upto - 1]);
            if !p.0 {
                (true, m)
            } else if spec_mean_lt(m, p.1) {
                (true, m)
            } else {
                p
            }
        }
    }
}

/// The silhouette-style score, in millionths: `1 - a/b` when `a < b`,
/// `b/a - 1` when `a > b`, and exactly zero when the means coincide.  Two
/// infinite means coincide; a finite mean lies below an infinite one.
pub open spec fn spec_score(a: (bool, int, int), b: (bool, int, int)) -> int {
    if !a.0 && !b.0 {
        0
    } else if a.0 && !b.0 {
        SIM_ONE as int
    } else if !a.0 && b.0 {
        -(SIM_ONE as int)
    } else {
        let na = a.1 * b.2;
        let nb = b.1 * a.2;
        if na < nb {
            SIM_ONE - (SIM_ONE * na) / nb
        } else if na > nb {
            (SIM_ONE * nb) / na - SIM_ONE
        } else {
            0
        }
    }
}

/// The score of node `x` of community `ci` within the given partition.
pub open spec fn spec_score_of(
    e: Map<(int, int), u64>,
    clusters: Seq<Seq<usize>>,
    ci: int,
    x: int,
) -> int {
    spec_score(spec_a(e, x, clusters[ci]), spec_b(e, x, clusters, ci, clusters.len() as int).1)
}

/// The scores of every node, cluster by cluster, member by member.
pub open spec fn spec_all_scores(e: Map<(int, int), u64>, clusters: Seq<Seq<usize>>, upto: int) -> Seq<(usize, i64)>
    decreases upto,
{
    if upto <= 0 {
        Seq::empty()
    } else {
        spec_all_scores(e, clusters, upto - 1)
            + Seq::new(clusters[upto - 1].len(), |k: int|
                (clusters[upto - 1][k], spec_score_of(e, clusters, upto - 1, clusters[upto - 1][k] as int) as i64))
    }
}

/// Equal means score exactly zero: both infinite, or finite with equal
/// cross products.
pub proof fn lemma_score_equal_means(a: (bool, int, int), b: (bool, int, int))
    requires
        a.0 == b.0,
        a.0 ==> a.1 * b.2 == b.1 * a.2,
    ensures
        spec_score(a, b) == 0,
{
}

/// A node identical to all members of its own community (`a` exactly
/// zero) with a strictly positive separation `b` scores exactly one.
pub proof fn lemma_score_perfect(a: (bool, int, int), b: (bool, int, int))
    requires
        a.0,
        a.1 == 0,
        a.2 >= 1,
        b.0 ==> b.1 >= 1 && b.2 >= 1,
    ensures
        spec_score(a, b) == SIM_ONE,
{
    if b.0 {
        assert(a.1 * b.2 == 0) by (nonlinear_arith)
            requires a.1 == 0,
        ;
        assert(b.1 * a.2 >= 1) by (nonlinear_arith)
            requires b.1 >= 1, a.2 >= 1,
        ;
        assert((SIM_ONE * (a.1 * b.2)) == 0) by (nonlinear_arith)
            requires a.1 * b.2 == 0,
        ;
        lemma_fundamental_div_mod_converse(0, b.1 * a.2, 0, 0);
    }
}

/// Scores stay within `[-SIM_ONE, SIM_ONE]`.
pub proof fn lemma_score_range(a: (bool, int, int), b: (bool, int, int))
    requires
        a.0 ==> a.1 >= 0 && a.2 >= 0,
        b.0 ==> b.1 >= 0 && b.2 >= 0,
    ensures
        -(SIM_ONE as int) <= spec_score(a, b) <= SIM_ONE,
{
    let k = SIM_ONE as int;
    if a.0 && b.0 {
        let na = a.1 * b.2;
        let nb = b.1 * a.2;
        assert(a.1 * b.2 >= 0 && b.1 * a.2 >= 0) by (nonlinear_arith)
            requires a.1 >= 0, a.2 >= 0, b.1 >= 0, b.2 >= 0,
        ;
        if na < nb {
            lemma_quotient_below(k, na, nb);
        }
        if na > nb {
            lemma_quotient_below(k, nb, na);
        }
    }
}

/// Per-node silhouette-style scores over a community partition: for each
/// node, paired with its identity, the score contrasting its mean
/// dissimilarity within its community against the best mean dissimilarity
/// to any other community.
#[verifier::rlimit(100)]
pub fn calculate_silhouette_scores(
    graph: &UnGraph<Individual, u64>,
    clusters: &Vec<Vec<usize>>,
) -> (scores: Vec<(usize, i64)>)
    requires
        graph_wf(*graph),
        graph_simple(*graph),
        graph_nodes(*graph).len() <= 0xFFFF_FFFF,
        forall|ci: int| 0 <= ci < clusters@.len() ==> (#[trigger] clusters@[ci])@.len() >= 1,
        forall|ci: int| 0 <= ci < clusters@.len() ==>
            (#[trigger] clusters@[ci])@.len() <= graph_nodes(*graph).len(),
        forall|ci: int, k: int|
            0 <= ci < clusters@.len() && 0 <= k < clusters@[ci]@.len() ==>
                (#[trigger] clusters@[ci]@[k]) < graph_nodes(*graph).len(),
    ensures
        scores@ == spec_all_scores(graph_edges(*graph), groups_view(clusters@), clusters@.len() as int),
        forall|k: int| 0 <= k < scores@.len() ==>
            -(SIM_ONE as int) <= (#[trigger] scores@[k]).1 <= SIM_ONE,
{
    let ghost e = graph_edges(*graph);
    let ghost cl = groups_view(clusters@);
    let n = graph_node_count(graph);
    let nc = clusters.len();
    let mut scores: Vec<(usize, i64)> = Vec::new();
    let mut ci: usize = 0;
    while ci < nc
        invariant
            ci <= nc,
            nc == clusters@.len(),
            n == graph_nodes(*graph).len() <= 0xFFFF_FFFF,
            graph_wf(*graph),
            graph_simple(*graph),
            e == graph_edges(*graph),
            cl == groups_view(clusters@),
            forall|cj: int| 0 <= cj < clusters@.len() ==> (#[trigger] clusters@[cj])@.len() >= 1,
            forall|cj: int| 0 <= cj < clusters@.len() ==> (#[trigger] clusters@[cj])@.len() <= n,
            forall|cj: int, k: int|
                0 <= cj < clusters@.len() && 0 <= k < clusters@[cj]@.len() ==>
                    (#[trigger] clusters@[cj]@[k]) < n,
            scores@ == spec_all_scores(e, cl, ci as int),
            forall|k: int| 0 <= k < scores@.len() ==>
                -(SIM_ONE as int) <= (#[trigger] scores@[k]).1 <= SIM_ONE,
        decreases nc - ci,
    {
        let ghost base = scores@;
        let mut k: usize = 0;
        while k < clusters[ci].len()
            invariant
                ci < nc,
                k <= clusters@[ci as int]@.len(),
                nc == clusters@.len(),
                n == graph_nodes(*graph).len() <= 0xFFFF_FFFF,
                graph_wf(*graph),
                graph_simple(*graph),
                e == graph_edges(*graph),
                cl == groups_view(clusters@),
                forall|cj: int| 0 <= cj < clusters@.len() ==> (#[trigger] clusters@[cj])@.len() >= 1,
                forall|cj: int| 0 <= cj < clusters@.len() ==> (#[trigger] clusters@[cj])@.len() <= n,
                forall|cj: int, kk: int|
                    0 <= cj < clusters@.len() && 0 <= kk < clusters@[cj]@.len() ==>
                        (#[trigger] clusters@[cj]@[kk]) < n,
                scores@ == base + Seq::new(k as nat, |kk: int|
                    (cl[ci as int][kk], spec_score_of(e, cl, ci as int, cl[ci as int][kk] as int) as i64)),
                forall|kk: int| 0 <= kk < scores@.len() ==>
                    -(SIM_ONE as int) <= (#[trigger] scores@[kk]).1 <= SIM_ONE,
            decreases clusters@[ci as int]@.len() - k,
        {
            let x = clusters[ci][k];
            let (afin0, asum, acnt) = mean_dissim(graph, x, &clusters[ci]);
            let ghost araw = spec_dissim(e, x as int, cl[ci as int]);
            let afin = if acnt == 0 { true } else { afin0 };
            let asum = if acnt == 0 { 0u64 } else { asum };
            let acnt = if acnt == 0 { 1usize } else { acnt };
            proof {
                assert((afin, asum as int, acnt as int) == spec_a(e, x as int, cl[ci as int]));
            }
            let mut bhas = false;
            let mut bfin = false;
            let mut bsum: u64 = 0;
            let mut bcnt: usize = 0;
            let mut cj: usize = 0;
            while cj < nc
                invariant
                    cj <= nc,
                    ci < nc,
                    x < n,
                    nc == clusters@.len(),
                    n == graph_nodes(*graph).len() <= 0xFFFF_FFFF,
                    graph_wf(*graph),
                    graph_simple(*graph),
                    e == graph_edges(*graph),
                    cl == groups_view(clusters@),
                    forall|cz: int| 0 <= cz < clusters@.len() ==> (#[trigger] clusters@[cz])@.len() >= 1,
                    forall|cz: int| 0 <= cz < clusters@.len() ==> (#[trigger] clusters@[cz])@.len() <= n,
                    forall|cz: int, kk: int|
                        0 <= cz < clusters@.len() && 0 <= kk < clusters@[cz]@.len() ==>
                            (#[trigger] clusters@[cz]@[kk]) < n,
                    (bhas, (bfin, bsum as int, bcnt as int)) == spec_b(e, x as int, cl, ci as int, cj as int),
                    bsum <= 4_294_967_295_000_000,
                    bcnt <= n,
                decreases nc - cj,
            {
                if cj != ci {
                    let (mfin, msum, mcnt) = mean_dissim(graph, x, &clusters[cj]);
                    proof {
                        lemma_cross_fits(msum as int, bcnt as int);
                        lemma_cross_fits(bsum as int, mcnt as int);
                    }
                    let better: bool = if !mfin {
                        false
                    } else if !bfin {
                        true
                    } else {
                        (msum as u128) * (bcnt as u128) < (bsum as u128) * (mcnt as u128)
                    };
                    proof {
                        assert(better == spec_mean_lt((mfin, msum as int, mcnt as int), (bfin, bsum as int, bcnt as int)));
                    }
                    if !bhas || better {
                        bhas = true;
                        bfin = mfin;
                        bsum = msum;
                        bcnt = mcnt;
                    }
                }
                cj += 1;
            }
            let ghost bmean = spec_b(e, x as int, cl, ci as int, cl.len() as int).1;
            proof {
                assert((bfin, bsum as int, bcnt as int) == bmean);
                if afin {
                    assert(asum >= 0 && acnt >= 1);
                }
                if bfin {
                    lemma_dissim_bounds(e, x as int, cl[ci as int]);
                }
                lemma_score_range((afin, asum as int, acnt as int), bmean);
            }
            let s: i64 = if !afin && !bfin {
                0
            } else if afin && !bfin {
                SIM_ONE as i64
            } else if !afin && bfin {
                -(SIM_ONE as i64)
            } else {
                proof {
                    lemma_cross_fits(asum as int, bcnt as int);
                    lemma_cross_fits(bsum as int, acnt as int);
                }
                let na: u128 = (asum as u128) * (bcnt as u128);
                let nb: u128 = (bsum as u128) * (acnt as u128);
                if na < nb {
                    let q: u128 = ((SIM_ONE as u128) * na) / nb;
                    proof {
                        lemma_quotient_below(SIM_ONE as int, na as int, nb as int);
                    }
                    (SIM_ONE as i64) - (q as i64)
                } else if na > nb {
                    let q: u128 = ((SIM_ONE as u128) * nb) / na;
                    proof {
                        lemma_quotient_below(SIM_ONE as int, nb as int, na as int);
                    }
                    (q as i64) - (SIM_ONE as i64)
                } else {
                    0
                }
            };
            proof {
                assert(s as int == spec_score((afin, asum as int, acnt as int), bmean));
                assert(s as int == spec_score_of(e, cl, ci as int, x as int));
            }
            scores.push((x, s));
            proof {
                assert(scores@ =~= base + Seq::new((k + 1) as nat, |kk: int|
                    (cl[ci as int][kk], spec_score_of(e, cl, ci as int, cl[ci as int][kk] as int) as i64)));
            }
            k += 1;
        }
        proof {
            assert(spec_all_scores(e, cl, ci as int + 1) =~= base + Seq::new(cl[ci as int].len(), |kk: int|
                (cl[ci as int][kk], spec_score_of(e, cl, ci as int, cl[ci as int][kk] as int) as i64)));
        }
        ci += 1;
    }
    scores
}

/// Sum, count and finiteness of the dissimilarities from `x` to the listed
/// nodes other than `x` itself.
fn mean_dissim(graph: &UnGraph<Individual, u64>, x: usize, c: &Vec<usize>) -> (m: (bool, u64, usize))
    requires
        graph_wf(*graph),
        graph_simple(*graph),
        graph_nodes(*graph).len() <= 0xFFFF_FFFF,
        x < graph_nodes(*graph).len(),
        c@.len() <= graph_nodes(*graph).len(),
        forall|k: int| 0 <= k < c@.len() ==> (#[trigger] c@[k]) < graph_nodes(*graph).len(),
    ensures
        (m.0, m.1 as int, m.2 as int) == spec_dissim(graph_edges(*graph), x as int, c@),
        m.1 <= 4_294_967_295_000_000,
        m.2 <= c@.len(),
{
    let ghost e = graph_edges(*graph);
    let n = graph_node_count(graph);
    let mut fin = true;
    let mut sum: u64 = 0;
    let mut cnt: usize = 0;
    let mut t: usize = 0;
    while t < c.len()
        invariant
            t <= c@.len(),
            n == graph_nodes(*graph).len() <= 0xFFFF_FFFF,
            graph_wf(*graph),
            graph_simple(*graph),
            e == graph_edges(*graph),
            x < n,
            c@.len() <= n,
            forall|k: int| 0 <= k < c@.len() ==> (#[trigger] c@[k]) < n,
            (fin, sum as int, cnt as int) == spec_dissim(e, x as int, c@.subrange(0, t as int)),
            sum <= (SIM_ONE as u64) * (t as u64),
            cnt <= t,
        decreases c@.len() - t,
    {
        let y = c[t];
        proof {
            assert(c@.subrange(0, t as int + 1).drop_last() =~= c@.subrange(0, t as int));
            assert(c@.subrange(0, t as int + 1)[t as int] == c@[t as int]);
        }
        if y != x {
            match graph_edge_weight(graph, x, y) {
                Some(w) => {
                    proof {
                        assert(1 <= w <= SIM_ONE);
                        assert((SIM_ONE as u64) * (t as u64) + (SIM_ONE as u64)
                            == (SIM_ONE as u64) * ((t + 1) as u64)) by (nonlinear_arith)
                            requires t < 0xFFFF_FFFF_FFFF_FFFFu64,
                        ;
                    }
                    sum = sum + w;
                    cnt = cnt + 1;
                }
                None => {
                    fin = false;
                    cnt = cnt + 1;
                }
            }
        }
        proof {
            assert((SIM_ONE as u64) * (t as u64)
                <= (SIM_ONE as u64) * ((t + 1) as u64)) by (nonlinear_arith)
                requires t < 0xFFFF_FFFF_FFFF_FFFFu64,
            ;
        }
        t += 1;
    }
    proof {
        assert(c@.subrange(0, c@.len() as int) =~= c@);
        assert((SIM_ONE as u64) * (c@.len() as u64) <= 4_294_967_295_000_000)
            by (nonlinear_arith)
            requires c@.len() <= 0xFFFF_FFFFu64,
        ;
    }
    (fin, sum, cnt)
}

/// A finite mean over a well-formed graph sums positive weights: the sum
/// dominates the count.
proof fn lemma_dissim_bounds(e: Map<(int, int), u64>, x: int, ys: Seq<usize>)
    ensures
        spec_dissim(e, x, ys).2 >= 0,
        spec_dissim(e, x, ys).1 >= 0,
        (spec_dissim(e, x, ys).0 && (forall|a: int, b: int| #[trigger] e.dom().contains((a, b)) ==> e[(a, b)] >= 1))
            ==> spec_dissim(e, x, ys).1 >= spec_dissim(e, x, ys).2,
    decreases ys.len(),
{
    if ys.len() > 0 {
        lemma_dissim_bounds(e, x, ys.drop_last());
    }
}

/// A dissimilarity sum times a community size stays far under the
/// 128-bit limit.
proof fn lemma_cross_fits(s: int, c: int)
    requires
        0 <= s <= 4_294_967_295_000_000,
        0 <= c <= 0xFFFF_FFFF,
    ensures
        0 <= s * c <= 0x1_0000_0000_0000_0000_0000_0000,
        1_000_000 * (s * c) <= 0x1_0000_0000_0000_0000_0000_0000_0000_0000 - 1,
{
    assert(0 <= s * c <= 0x1_0000_0000_0000_0000_0000_0000) by (nonlinear_arith)
        requires 0 <= s <= 4_294_967_295_000_000, 0 <= c <= 0xFFFF_FFFF,
    ;
    assert(1_000_000 * (s * c) <= 0x1_0000_0000_0000_0000_0000_0000_0000_0000 - 1) by (nonlinear_arith)
        requires 0 <= s * c <= 0x1_0000_0000_0000_0000_0000_0000,
    ;
}

/// For `0 <= small < big`, the quotient `(k * small) / big` lies in
/// `[0, k - 1]`.
proof fn lemma_quotient_below(k: int, small: int, big: int)
    requires
        k >= 1,
        0 <= small < big,
    ensures
        0 <= (k * small) / big <= k - 1,
{
    assert(k * small >= 0) by (nonlinear_arith)
        requires small >= 0, k >= 1,
    ;
    vstd::arithmetic::div_mod::lemma_div_pos_is_pos(k * small, big);
    lemma_fundamental_div_mod(k * small, big);
    let q = (k * small) / big;
    let r = (k * small) % big;
    if q >= k {
        assert(big * q >= big * k) by (nonlinear_arith)
            requires q >= k, big > 0,
        ;
        assert(k * small < k * big) by (nonlinear_arith)
            requires small < big, k >= 1,
        ;
        assert(k * big == big * k) by (nonlinear_arith);
        assert(false);
    }
}

} // verus!
