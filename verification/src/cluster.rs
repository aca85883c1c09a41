//! Connected components, label-propagation communities, and degree-ranked
//! representatives.

use vstd::prelude::*;
use crate::graph::{
    Individual, spec_adj_row, spec_degree, adjacency_row, lemma_row_upto_props, node_individual,
    FEATURE_LIMIT,
};
use crate::store::{graph_nodes, graph_edges, graph_simple, graph_wf, graph_node_count};
use crate::connect::{
    connected, edges_symmetric, is_leader, leaders_below, lemma_connected_refl,
    lemma_connected_step, lemma_connected_sym, lemma_connected_trans, lemma_connected_stays_in,
    lemma_leader_exists,
};
use petgraph::graph::UnGraph;

verus! {

/// Every visited node whose neighbours may still be pending is on the
/// stack (or is the one node being expanded); all other visited nodes have
/// all their neighbours visited.
pub open spec fn bfs_closed(
    e: Map<(int, int), u64>,
    visited: Seq<bool>,
    stack: Seq<usize>,
    ex: int,
) -> bool {
    forall|p: int, q: int|
        0 <= p < visited.len() && visited[p] && #[trigger] e.dom().contains((p, q))
            && !stack.contains(p as usize) && p != ex ==> 0 <= q < visited.len() && visited[q]
}

/// Visited nodes with equal component ids are exactly the connected ones.
pub open spec fn comp_consistent(e: Map<(int, int), u64>, visited: Seq<bool>, comp: Seq<usize>) -> bool {
    forall|x: int, y: int|
        0 <= x < visited.len() && 0 <= y < visited.len() && visited[x] && visited[y] ==>
            ((#[trigger] comp[x] == #[trigger] comp[y]) <==> connected(e, x, y))
}

/// How many entries of a boolean sequence are set.
pub open spec fn count_true(s: Seq<bool>) -> int
    decreases s.len(),
{
    if s.len() == 0 {
        0
    } else {
        count_true(s.drop_last()) + if s[s.len() - 1] { 1int } else { 0int }
    }
}

proof fn lemma_count_true_le_len(s: Seq<bool>)
    ensures
        0 <= count_true(s) <= s.len(),
    decreases s.len(),
{
    if s.len() > 0 {
        lemma_count_true_le_len(s.drop_last());
    }
}

proof fn lemma_count_true_update(s: Seq<bool>, i: int)
    requires
        0 <= i < s.len(),
        !s[i],
    ensures
        count_true(s.update(i, true)) == count_true(s) + 1,
    decreases s.len(),
{
    let u = s.update(i, true);
    if i == s.len() - 1 {
        assert(u.drop_last() =~= s.drop_last());
    } else {
        assert(u.drop_last() =~= s.drop_last().update(i, true));
        lemma_count_true_update(s.drop_last(), i);
    }
}

/// Assigns every node a component id by traversal: two nodes receive the
/// same id exactly when a path of edges joins them, and the ids count up
/// from zero in the order the components are first met in node enumeration
/// order.  Together the two clauses fix every id: each component's first
/// node is a leader, and its id is the number of leaders before it.
#[verifier::rlimit(100)]
pub fn component_mapping(graph: &UnGraph<Individual, u64>) -> (component: Vec<usize>)
    requires
        graph_wf(*graph),
        graph_simple(*graph),
    ensures
        component@.len() == graph_nodes(*graph).len(),
        forall|a: int, b: int|
            0 <= a < component@.len() && 0 <= b < component@.len() ==>
                ((#[trigger] component@[a] == #[trigger] component@[b]) <==>
                    connected(graph_edges(*graph), a, b)),
        forall|x: int| 0 <= x < component@.len() ==> #[trigger] component@[x] < component@.len(),
        forall|x: int|
            0 <= x < component@.len() && #[trigger] is_leader(graph_edges(*graph), x) ==>
                component@[x] == leaders_below(graph_edges(*graph), x),
{
    let ghost e = graph_edges(*graph);
    let n = graph_node_count(graph);
    let mut component: Vec<usize> = Vec::new();
    let mut visited: Vec<bool> = Vec::new();
    let mut t: usize = 0;
    while t < n
        invariant
            t <= n,
            component@.len() == t,
            visited@.len() == t,
            forall|k: int| 0 <= k < t ==> !(#[trigger] visited@[k]),
            forall|k: int| 0 <= k < t ==> (#[trigger] component@[k]) == 0,
        decreases n - t,
    {
        component.push(0);
        visited.push(false);
        t += 1;
    }
    let mut component_number: usize = 0;
    let mut seed: usize = 0;
    while seed < n
        invariant
            seed <= n,
            n == graph_nodes(*graph).len(),
            graph_wf(*graph),
            graph_simple(*graph),
            e == graph_edges(*graph),
            component@.len() == n,
            visited@.len() == n,
            component_number <= seed,
            component_number == leaders_below(e, seed as int),
            forall|k: int| 0 <= k < seed ==> #[trigger] visited@[k],
            forall|x: int| 0 <= x < n && #[trigger] visited@[x] ==> component@[x] < component_number,
            forall|x: int| seed <= x < n && #[trigger] visited@[x] ==> !is_leader(e, x),
            forall|x: int| 0 <= x < n && #[trigger] visited@[x] && is_leader(e, x) ==>
                component@[x] == leaders_below(e, x),
            bfs_closed(e, visited@, Seq::empty(), -1),
            comp_consistent(e, visited@, component@),
        decreases n - seed,
    {
        if !visited[seed] {
            let ghost vis0 = visited@;
            let ghost comp0 = component@;
            let c = component_number;
            proof {
                // No earlier node reaches this seed, else an earlier sweep
                // would have visited it: the seed leads a new component.
                assert forall|y: int| 0 <= y < seed implies !connected(e, y, seed as int) by {
                    if connected(e, y, seed as int) {
                        let s0 = Set::new(|v: int| 0 <= v < n && vis0[v]);
                        lemma_connected_stays_in(e, s0, y, seed as int);
                    }
                }
                assert(is_leader(e, seed as int));
            }
            let mut stack: Vec<usize> = Vec::new();
            visited[seed] = true;
            component[seed] = c;
            stack.push(seed);
            proof {
                lemma_connected_refl(e, seed as int);
                lemma_count_true_le_len(visited@);
                assert(stack@.len() == 1 && stack@[0] == seed);
            }
            while stack.len() > 0
                invariant
                    n == graph_nodes(*graph).len(),
                    graph_wf(*graph),
                    graph_simple(*graph),
                    e == graph_edges(*graph),
                    component@.len() == n,
                    visited@.len() == n,
                    vis0.len() == n,
                    comp0.len() == n,
                    seed < n,
                    !vis0[seed as int],
                    visited@[seed as int],
                    is_leader(e, seed as int),
                    c == leaders_below(e, seed as int),
                    forall|k: int| 0 <= k < seed ==> #[trigger] vis0[k],
                    forall|x: int| seed <= x < n && #[trigger] vis0[x] ==> !is_leader(e, x),
                    forall|x: int| 0 <= x < n && #[trigger] vis0[x] && is_leader(e, x) ==>
                        comp0[x] == leaders_below(e, x),
                    forall|idx: int| 0 <= idx < stack@.len() ==>
                        (#[trigger] stack@[idx]) < n && visited@[stack@[idx] as int]
                            && !vis0[stack@[idx] as int],
                    forall|x: int| 0 <= x < n && #[trigger] vis0[x] ==>
                        visited@[x] && component@[x] == comp0[x],
                    forall|x: int| 0 <= x < n && !(#[trigger] visited@[x]) ==>
                        !vis0[x] && component@[x] == comp0[x],
                    forall|x: int| 0 <= x < n && #[trigger] visited@[x] && !vis0[x] ==>
                        component@[x] == c && connected(e, seed as int, x),
                    bfs_closed(e, visited@, stack@, -1),
                decreases n - count_true(visited@), stack@.len(),
            {
                let ghost pre = stack@;
                let ghost cnt0 = count_true(visited@);
                proof {
                    lemma_count_true_le_len(visited@);
                }
                let x = stack.pop().unwrap();
                proof {
                    assert(pre[pre.len() - 1] == x);
                    assert(stack@ =~= pre.subrange(0, pre.len() - 1));
                    assert forall|p: usize| pre.contains(p) && p != x implies stack@.contains(p) by {
                        let idx = choose|idx: int| 0 <= idx < pre.len() && pre[idx] == p;
                        if idx < pre.len() - 1 {
                            assert(stack@[idx] == p);
                        }
                    }
                    assert forall|p: int, q: int|
                        0 <= p < visited@.len() && visited@[p] && #[trigger] e.dom().contains((p, q))
                            && !stack@.contains(p as usize) && p != x as int implies
                        0 <= q < visited@.len() && visited@[q] by {
                        assert(!pre.contains(p as usize));
                    }
                }
                let row = adjacency_row(graph, x);
                let ghost st0 = stack@.len() as int;
                let mut ti: usize = 0;
                while ti < row.len()
                    invariant
                        n == graph_nodes(*graph).len(),
                        graph_wf(*graph),
                        graph_simple(*graph),
                        e == graph_edges(*graph),
                        component@.len() == n,
                        visited@.len() == n,
                        vis0.len() == n,
                        comp0.len() == n,
                        seed < n,
                        x < n,
                        !vis0[seed as int],
                        visited@[seed as int],
                        visited@[x as int],
                        !vis0[x as int],
                        component@[x as int] == c,
                        connected(e, seed as int, x as int),
                        is_leader(e, seed as int),
                        c == leaders_below(e, seed as int),
                        forall|k: int| 0 <= k < seed ==> #[trigger] vis0[k],
                        forall|y: int| seed <= y < n && #[trigger] vis0[y] ==> !is_leader(e, y),
                        forall|y: int| 0 <= y < n && #[trigger] vis0[y] && is_leader(e, y) ==>
                            comp0[y] == leaders_below(e, y),
                        ti <= row@.len(),
                        row@ == spec_adj_row(e, n as int, x as int),
                        cnt0 <= count_true(visited@) <= n,
                        stack@.len() - st0 <= count_true(visited@) - cnt0,
                        forall|k: int| 0 <= k < ti ==> visited@[#[trigger] row@[k] as int],
                        forall|idx: int| 0 <= idx < stack@.len() ==>
                            (#[trigger] stack@[idx]) < n && visited@[stack@[idx] as int]
                                && !vis0[stack@[idx] as int],
                        forall|y: int| 0 <= y < n && #[trigger] vis0[y] ==>
                            visited@[y] && component@[y] == comp0[y],
                        forall|y: int| 0 <= y < n && !(#[trigger] visited@[y]) ==>
                            !vis0[y] && component@[y] == comp0[y],
                        forall|y: int| 0 <= y < n && #[trigger] visited@[y] && !vis0[y] ==>
                            component@[y] == c && connected(e, seed as int, y),
                        bfs_closed(e, visited@, stack@, x as int),
                    decreases row@.len() - ti,
                {
                    let y = row[ti];
                    proof {
                        lemma_row_upto_props(e, x as int, n as int);
                        assert(row@[ti as int] == spec_adj_row(e, n as int, x as int)[ti as int]);
                        assert(e.dom().contains((x as int, y as int)));
                    }
                    if !visited[y] {
                        proof {
                            lemma_count_true_update(visited@, y as int);
                            lemma_count_true_le_len(visited@.update(y as int, true));
                        }
                        visited[y] = true;
                        component[y] = c;
                        let ghost spre = stack@;
                        stack.push(y);
                        proof {
                            lemma_connected_step(e, seed as int, x as int, y as int);
                            assert(stack@[stack@.len() - 1] == y);
                            assert forall|p: usize| spre.contains(p) implies stack@.contains(p) by {
                                let idx = choose|idx: int| 0 <= idx < spre.len() && spre[idx] == p;
                                assert(stack@[idx] == p);
                            }
                        }
                    }
                    ti += 1;
                }
                proof {
                    // Every neighbour of `x` now sits in the visited set, so
                    // closure holds again without excepting `x`.
                    lemma_row_upto_props(e, x as int, n as int);
                    assert forall|p: int, q: int|
                        0 <= p < visited@.len() && visited@[p] && #[trigger] e.dom().contains((p, q))
                            && !stack@.contains(p as usize) && p != -1 implies
                        0 <= q < visited@.len() && visited@[q] by {
                        if p == x as int {
                            assert(spec_adj_row(e, n as int, x as int).contains(q as usize));
                            let k = choose|k: int|
                                0 <= k < row@.len() && row@[k] == q as usize;
                            assert(visited@[row@[k] as int]);
                        }
                    }
                }
            }
            proof {
                let ghost sall = Set::new(|v: int| 0 <= v < n && visited@[v]);
                let ghost s0 = Set::new(|v: int| 0 <= v < n && vis0[v]);
                assert(edges_symmetric(e));
                assert forall|xx: int, yy: int|
                    0 <= xx < visited@.len() && 0 <= yy < visited@.len() && visited@[xx]
                        && visited@[yy] implies
                    ((#[trigger] component@[xx] == #[trigger] component@[yy]) <==>
                        connected(e, xx, yy)) by {
                    if vis0[xx] && vis0[yy] {
                        assert(comp0[xx] == component@[xx] && comp0[yy] == component@[yy]);
                        assert((comp0[xx] == comp0[yy]) <==> connected(e, xx, yy));
                    } else if vis0[xx] && !vis0[yy] {
                        assert(component@[xx] == comp0[xx] < c);
                        assert(component@[yy] == c);
                        if connected(e, xx, yy) {
                            lemma_connected_stays_in(e, s0, xx, yy);
                        }
                    } else if !vis0[xx] && vis0[yy] {
                        assert(component@[yy] == comp0[yy] < c);
                        assert(component@[xx] == c);
                        if connected(e, xx, yy) {
                            lemma_connected_sym(e, xx, yy);
                            lemma_connected_stays_in(e, s0, yy, xx);
                        }
                    } else {
                        assert(component@[xx] == c && component@[yy] == c);
                        assert(connected(e, seed as int, xx));
                        assert(connected(e, seed as int, yy));
                        lemma_connected_sym(e, seed as int, xx);
                        lemma_connected_trans(e, xx, seed as int, yy);
                    }
                }
                // The seed's component is numbered by the leaders before
                // it; the nodes swept in from the seed lead nothing.
                assert(leaders_below(e, seed as int + 1) == c + 1);
                assert forall|x: int| seed as int + 1 <= x < n && #[trigger] visited@[x] implies
                    !is_leader(e, x) by {
                    if !vis0[x] {
                        assert(connected(e, seed as int, x));
                        if is_leader(e, x) {
                            assert(!connected(e, seed as int, x));
                        }
                    }
                }
                assert forall|x: int| 0 <= x < n && #[trigger] visited@[x] && is_leader(e, x) implies
                    component@[x] == leaders_below(e, x) by {
                    if vis0[x] {
                        assert(component@[x] == comp0[x]);
                    } else if x == seed as int {
                        assert(component@[x] == c);
                    } else {
                        assert(x > seed as int);
                        assert(connected(e, seed as int, x));
                        assert(!connected(e, seed as int, x));
                    }
                }
            }
            component_number = c + 1;
        } else {
            proof {
                assert(visited@[seed as int]);
                assert(!is_leader(e, seed as int));
                assert(leaders_below(e, seed as int + 1) == leaders_below(e, seed as int));
            }
        }
        seed += 1;
    }
    proof {
        assert forall|x: int| 0 <= x < n && #[trigger] is_leader(e, x) implies
            component@[x] == leaders_below(e, x) by {
            assert(visited@[x]);
        }
    }
    component
}

/// The two clauses of `component_mapping`'s contract leave no freedom:
/// any two id vectors that both pair equal ids with connectivity and
/// number each leader by the leaders before it are the same vector.
pub proof fn lemma_component_ids_deterministic(
    e: Map<(int, int), u64>,
    c1: Seq<usize>,
    c2: Seq<usize>,
    n: int,
)
    requires
        c1.len() == n,
        c2.len() == n,
        forall|a: int, b: int|
            0 <= a < n && 0 <= b < n ==>
                ((#[trigger] c1[a] == #[trigger] c1[b]) <==> connected(e, a, b)),
        forall|a: int, b: int|
            0 <= a < n && 0 <= b < n ==>
                ((#[trigger] c2[a] == #[trigger] c2[b]) <==> connected(e, a, b)),
        forall|x: int| 0 <= x < n && #[trigger] is_leader(e, x) ==> c1[x] == leaders_below(e, x),
        forall|x: int| 0 <= x < n && #[trigger] is_leader(e, x) ==> c2[x] == leaders_below(e, x),
    ensures
        c1 == c2,
{
    assert forall|x: int| 0 <= x < n implies c1[x] == c2[x] by {
        lemma_leader_exists(e, x);
        let l = choose|l: int| 0 <= l <= x && #[trigger] is_leader(e, l) && connected(e, l, x);
        assert(c1[l] == c1[x] && c2[l] == c2[x]);
        assert(c1[l] == leaders_below(e, l) && c2[l] == leaders_below(e, l));
    }
    assert(c1 =~= c2);
}

/// The last position of a label in the list, or -1 when absent.
pub open spec fn spec_find_last(s: Seq<usize>, l: usize) -> int
    decreases s.len(),
{
    if s.len() == 0 {
        -1
    } else if s[s.len() - 1] == l {
        s.len() - 1
    } else {
        spec_find_last(s.drop_last(), l)
    }
}

proof fn lemma_find_last_props(s: Seq<usize>, l: usize)
    ensures
        spec_find_last(s, l) >= 0 ==> spec_find_last(s, l) < s.len() && s[spec_find_last(s, l)] == l,
        spec_find_last(s, l) < 0 ==> forall|k: int| 0 <= k < s.len() ==> s[k] != l,
    decreases s.len(),
{
    if s.len() > 0 && s[s.len() - 1] != l {
        lemma_find_last_props(s.drop_last(), l);
        if spec_find_last(s, l) < 0 {
            assert forall|k: int| 0 <= k < s.len() implies s[k] != l by {
                if k < s.len() - 1 {
                    assert(s.drop_last()[k] == s[k]);
                }
            }
        }
    }
}

proof fn lemma_find_last_unique(s: Seq<usize>, l: usize, i: int)
    requires
        forall|k1: int, k2: int| 0 <= k1 < k2 < s.len() ==> (#[trigger] s[k1]) != (#[trigger] s[k2]),
        0 <= i < s.len(),
        s[i] == l,
    ensures
        spec_find_last(s, l) == i,
    decreases s.len(),
{
    if s[s.len() - 1] == l {
        assert(i == s.len() - 1);
    } else {
        assert(i < s.len() - 1);
        assert(s.drop_last()[i] == s[i]);
        assert forall|k1: int, k2: int| 0 <= k1 < k2 < s.drop_last().len() implies
            (#[trigger] s.drop_last()[k1]) != (#[trigger] s.drop_last()[k2]) by {
            assert(s.drop_last()[k1] == s[k1] && s.drop_last()[k2] == s[k2]);
        }
        lemma_find_last_unique(s.drop_last(), l, i);
    }
}

/// Groups the first `x` nodes by their label, in order of first
/// occurrence: the list of groups, and the label of each group.
pub open spec fn spec_group_state(labels: Seq<usize>, x: int) -> (Seq<Seq<usize>>, Seq<usize>)
    decreases x,
{
    if x <= 0 {
        (Seq::empty(), Seq::empty())
    } else {
        let prev = spec_group_state(labels, x - 1);
        let gs = prev.0;
        let reps = prev.1;
        let l = labels[x - 1];
        let gi = spec_find_last(reps, l);
        if gi < 0 {
            (gs.push(seq![(x - 1) as usize]), reps.push(l))
        } else {
            (gs.update(gi, gs[gi].push((x - 1) as usize)), reps)
        }
    }
}

/// The nodes `0 .. labels.len()`, grouped by label in order of first
/// occurrence; within a group the nodes stay in ascending order.
pub open spec fn spec_group(labels: Seq<usize>) -> Seq<Seq<usize>> {
    spec_group_state(labels, labels.len() as int).0
}

/// The mathematical view of a list of node groups.
pub open spec fn groups_view(groups: Seq<Vec<usize>>) -> Seq<Seq<usize>> {
    groups.map_values(|v: Vec<usize>| v@)
}

/// Node `x` appears somewhere among the groups.
pub open spec fn group_covers(groups: Seq<Seq<usize>>, x: int) -> bool {
    exists|gi: int, k: int|
        0 <= gi < groups.len() && 0 <= k < groups[gi].len() && (#[trigger] groups[gi][k]) == x
}

/// The grouping clauses that make a list of groups a partition of the
/// nodes `0 .. n`.
pub open spec fn is_partition(groups: Seq<Seq<usize>>, n: int) -> bool {
    &&& forall|gi: int| 0 <= gi < groups.len() ==> (#[trigger] groups[gi]).len() >= 1
    &&& forall|gi: int, k: int|
            0 <= gi < groups.len() && 0 <= k < groups[gi].len() ==> (#[trigger] groups[gi][k]) < n
    &&& forall|x: int| 0 <= x < n ==> #[trigger] group_covers(groups, x)
    &&& forall|gi1: int, k1: int, gi2: int, k2: int|
            0 <= gi1 < groups.len() && 0 <= k1 < groups[gi1].len()
            && 0 <= gi2 < groups.len() && 0 <= k2 < groups[gi2].len()
            && (gi1 != gi2 || k1 != k2) ==>
                (#[trigger] groups[gi1][k1]) != (#[trigger] groups[gi2][k2])
}

/// Groups node identities by label, in order of first occurrence.  The
/// result partitions the nodes: total cover, no overlap, no empty group.
pub fn group_nodes(labels: &Vec<usize>) -> (groups: Vec<Vec<usize>>)
    ensures
        groups_view(groups@) == spec_group(labels@),
        is_partition(groups_view(groups@), labels@.len() as int),
        forall|gi: int, k: int|
            0 <= gi < groups@.len() && 0 <= k < groups@[gi]@.len() ==>
                labels@[#[trigger] groups@[gi]@[k] as int] == labels@[groups@[gi]@[0] as int],
        forall|gi1: int, gi2: int|
            0 <= gi1 < gi2 < groups@.len() ==>
                labels@[#[trigger] groups@[gi1]@[0] as int] != labels@[#[trigger] groups@[gi2]@[0] as int],
        forall|gi: int, k1: int, k2: int|
            0 <= gi < groups@.len() && 0 <= k1 < k2 < groups@[gi]@.len() ==>
                (#[trigger] groups@[gi]@[k1]) < (#[trigger] groups@[gi]@[k2]),
        forall|gi1: int, gi2: int|
            0 <= gi1 < gi2 < groups@.len() ==>
                (#[trigger] groups@[gi1]@[0]) < (#[trigger] groups@[gi2]@[0]),
{
    let n = labels.len();
    let mut groups: Vec<Vec<usize>> = Vec::new();
    let mut reps: Vec<usize> = Vec::new();
    let mut x: usize = 0;
    while x < n
        invariant
            x <= n,
            n == labels@.len(),
            reps@.len() == groups@.len(),
            groups_view(groups@) == spec_group_state(labels@, x as int).0,
            reps@ == spec_group_state(labels@, x as int).1,
            forall|gi: int| 0 <= gi < groups@.len() ==> (#[trigger] groups@[gi]@).len() >= 1,
            forall|gi: int, k: int|
                0 <= gi < groups@.len() && 0 <= k < groups@[gi]@.len() ==>
                    (#[trigger] groups@[gi]@[k]) < x,
            forall|gi: int, k1: int, k2: int|
                0 <= gi < groups@.len() && 0 <= k1 < k2 < groups@[gi]@.len() ==>
                    (#[trigger] groups@[gi]@[k1]) < (#[trigger] groups@[gi]@[k2]),
            forall|gi: int, k: int|
                0 <= gi < groups@.len() && 0 <= k < groups@[gi]@.len() ==>
                    labels@[#[trigger] groups@[gi]@[k] as int] == reps@[gi],
            forall|gi1: int, gi2: int|
                0 <= gi1 < gi2 < reps@.len() ==> (#[trigger] reps@[gi1]) != (#[trigger] reps@[gi2]),
            forall|gi1: int, gi2: int|
                0 <= gi1 < gi2 < groups@.len() ==>
                    (#[trigger] groups@[gi1]@[0]) < (#[trigger] groups@[gi2]@[0]),
            forall|y: int| 0 <= y < x ==>
                #[trigger] group_covers(groups_view(groups@), y),
        decreases n - x,
    {
        let l = labels[x];
        let mut gi: usize = 0;
        while gi < reps.len() && reps[gi] != l
            invariant
                gi <= reps@.len(),
                forall|k: int| 0 <= k < gi ==> (#[trigger] reps@[k]) != l,
            decreases reps@.len() - gi,
        {
            gi += 1;
        }
        let ghost gs0 = groups_view(groups@);
        if gi < reps.len() {
            proof {
                assert(reps@[gi as int] == l);
                assert forall|k1: int, k2: int| 0 <= k1 < k2 < reps@.len() implies
                    (#[trigger] reps@[k1]) != (#[trigger] reps@[k2]) by {}
                lemma_find_last_unique(reps@, l, gi as int);
            }
            groups[gi].push(x);
            proof {
                assert(groups_view(groups@) =~=
                    gs0.update(gi as int, gs0[gi as int].push(x)));
            }
        } else {
            proof {
                lemma_find_last_props(reps@, l);
                if spec_find_last(reps@, l) >= 0 {
                    assert(reps@[spec_find_last(reps@, l)] == l);
                }
            }
            let mut fresh: Vec<usize> = Vec::new();
            fresh.push(x);
            groups.push(fresh);
            reps.push(l);
            proof {
                assert(groups_view(groups@) =~=
                    gs0.push(seq![x]));
            }
        }
        proof {
            let gsv = groups_view(groups@);
            assert forall|y: int| 0 <= y < x + 1 implies #[trigger] group_covers(gsv, y) by {
                if y == x as int {
                    if gi < reps@.len() {
                        assert(gsv[gi as int][gsv[gi as int].len() - 1] == x);
                    } else {
                        assert(gsv[gsv.len() - 1][0] == x);
                    }
                } else {
                    assert(group_covers(gs0, y));
                    let (gj, k) = choose|gj: int, k: int|
                        0 <= gj < gs0.len() && 0 <= k < gs0[gj].len() && (#[trigger] gs0[gj][k]) == y;
                    assert(gsv[gj][k] == y);
                }
            }
        }
        x += 1;
    }
    proof {
        let gsv = groups_view(groups@);
        assert forall|gi1: int, k1: int, gi2: int, k2: int|
            0 <= gi1 < gsv.len() && 0 <= k1 < gsv[gi1].len()
            && 0 <= gi2 < gsv.len() && 0 <= k2 < gsv[gi2].len()
            && (gi1 != gi2 || k1 != k2) implies
            (#[trigger] gsv[gi1][k1]) != (#[trigger] gsv[gi2][k2]) by {
            if gi1 == gi2 {
                if k1 < k2 {
                    assert(groups@[gi1]@[k1] < groups@[gi1]@[k2]);
                } else {
                    assert(groups@[gi1]@[k2] < groups@[gi1]@[k1]);
                }
            } else {
                if gsv[gi1][k1] == gsv[gi2][k2] {
                    assert(labels@[groups@[gi1]@[k1] as int] == reps@[gi1]);
                    assert(labels@[groups@[gi2]@[k2] as int] == reps@[gi2]);
                }
            }
        }
    }
    groups
}

/// How many of the first `t` neighbours in `row` carry label `l`.
pub open spec fn spec_count(labels: Seq<usize>, row: Seq<usize>, l: usize, t: int) -> int
    decreases t,
{
    if t <= 0 {
        0
    } else {
        spec_count(labels, row, l, t - 1) + if labels[row[t - 1] as int] == l {
            1int
        } else {
            0int
        }
    }
}

/// The winning neighbour label after scanning the first `t` neighbours:
/// highest tally first, smallest label on a tie.
pub open spec fn spec_best(labels: Seq<usize>, row: Seq<usize>, t: int) -> (usize, int)
    decreases t,
{
    if t <= 0 {
        (0usize, 0int)
    } else {
        let prev = spec_best(labels, row, t - 1);
        let cand = labels[row[t - 1] as int];
        let cnt = spec_count(labels, row, cand, row.len() as int);
        if cnt > prev.1 || (cnt == prev.1 && cand < prev.0) {
            (cand, cnt)
        } else {
            prev
        }
    }
}

/// The label a node takes in one synchronous sweep: the majority label of
/// its neighbours, ties to the smallest label, its own label if isolated.
pub open spec fn spec_new_label(e: Map<(int, int), u64>, n: int, labels: Seq<usize>, x: int) -> usize {
    let row = spec_adj_row(e, n, x);
    if row.len() == 0 {
        labels[x]
    } else {
        spec_best(labels, row, row.len() as int).0
    }
}

/// One full synchronous sweep: every node updates from the previous
/// labelling.
pub open spec fn spec_sweep(e: Map<(int, int), u64>, n: int, labels: Seq<usize>) -> Seq<usize> {
    Seq::new(n as nat, |x: int| spec_new_label(e, n, labels, x))
}

/// Sweeps to a fixed point, giving up after `fuel` sweeps.
pub open spec fn spec_iterate(e: Map<(int, int), u64>, n: int, labels: Seq<usize>, fuel: nat) -> Seq<usize>
    decreases fuel,
{
    if fuel == 0 {
        labels
    } else {
        let l2 = spec_sweep(e, n, labels);
        if l2 == labels {
            labels
        } else {
            spec_iterate(e, n, l2, (fuel - 1) as nat)
        }
    }
}

/// Every node starts out labelled with its own identity.
pub open spec fn spec_initial_labels(n: int) -> Seq<usize> {
    Seq::new(n as nat, |i: int| i as usize)
}

/// The converged labelling: label propagation from the identity labelling,
/// capped at one sweep per node.
pub open spec fn spec_final_labels(e: Map<(int, int), u64>, n: int) -> Seq<usize> {
    spec_iterate(e, n, spec_initial_labels(n), n as nat)
}

/// The community partition: converged labels, grouped by first occurrence.
pub open spec fn spec_communities(e: Map<(int, int), u64>, n: int) -> Seq<Seq<usize>> {
    spec_group(spec_final_labels(e, n))
}

/// Identical graphs yield the identical community partition: the result
/// is a function of the edge map and the node count alone.
pub proof fn lemma_communities_deterministic(
    e1: Map<(int, int), u64>,
    n1: int,
    e2: Map<(int, int), u64>,
    n2: int,
)
    requires
        e1 == e2,
        n1 == n2,
    ensures
        spec_communities(e1, n1) == spec_communities(e2, n2),
{
}

/// Synchronous label propagation.  Every node begins with its own label;
/// each sweep reassigns every node the most frequent label among its
/// neighbours, ties resolved to the numerically smallest label; the sweeps
/// stop at the first fixed point, or defensively after one sweep per node.
/// Nodes are then grouped by final label into the returned partition.
pub fn detect_communities(graph: &UnGraph<Individual, u64>) -> (communities: Vec<Vec<usize>>)
    requires
        graph_wf(*graph),
        graph_simple(*graph),
    ensures
        groups_view(communities@) == spec_communities(graph_edges(*graph), graph_nodes(*graph).len() as int),
        is_partition(groups_view(communities@), graph_nodes(*graph).len() as int),
{
    let ghost e = graph_edges(*graph);
    let n = graph_node_count(graph);
    let mut adj: Vec<Vec<usize>> = Vec::new();
    let mut x: usize = 0;
    while x < n
        invariant
            x <= n,
            n == graph_nodes(*graph).len(),
            graph_wf(*graph),
            graph_simple(*graph),
            e == graph_edges(*graph),
            adj@.len() == x,
            forall|k: int| 0 <= k < x ==> (#[trigger] adj@[k])@ == spec_adj_row(e, n as int, k),
        decreases n - x,
    {
        let row = adjacency_row(graph, x);
        adj.push(row);
        x += 1;
    }
    let mut node_labels: Vec<usize> = Vec::new();
    x = 0;
    while x < n
        invariant
            x <= n,
            node_labels@.len() == x,
            forall|k: int| 0 <= k < x ==> (#[trigger] node_labels@[k]) == k,
        decreases n - x,
    {
        node_labels.push(x);
        x += 1;
    }
    proof {
        assert(node_labels@ =~= spec_initial_labels(n as int));
    }
    let mut iter: usize = 0;
    let mut done = false;
    while iter < n && !done
        invariant
            iter <= n,
            n == graph_nodes(*graph).len(),
            graph_wf(*graph),
            graph_simple(*graph),
            e == graph_edges(*graph),
            adj@.len() == n,
            forall|k: int| 0 <= k < n ==> (#[trigger] adj@[k])@ == spec_adj_row(e, n as int, k),
            node_labels@.len() == n,
            forall|k: int| 0 <= k < n ==> (#[trigger] node_labels@[k]) < n,
            done ==> node_labels@ == spec_final_labels(e, n as int),
            !done ==> spec_iterate(e, n as int, node_labels@, (n - iter) as nat)
                == spec_final_labels(e, n as int),
        decreases n - iter, (if done { 0int } else { 1int }),
    {
        let ghost labs = node_labels@;
        let mut new_labels: Vec<usize> = Vec::new();
        let mut changed = false;
        let mut y: usize = 0;
        while y < n
            invariant
                y <= n,
                n == graph_nodes(*graph).len(),
                graph_wf(*graph),
                graph_simple(*graph),
                e == graph_edges(*graph),
                adj@.len() == n,
                forall|k: int| 0 <= k < n ==> (#[trigger] adj@[k])@ == spec_adj_row(e, n as int, k),
                node_labels@ == labs,
                labs.len() == n,
                forall|k: int| 0 <= k < n ==> (#[trigger] labs[k]) < n,
                new_labels@.len() == y,
                forall|k: int| 0 <= k < y ==>
                    (#[trigger] new_labels@[k]) == spec_new_label(e, n as int, labs, k),
                forall|k: int| 0 <= k < y ==> (#[trigger] new_labels@[k]) < n,
                changed <==> exists|k: int| 0 <= k < y && (#[trigger] new_labels@[k]) != labs[k],
            decreases n - y,
        {
            let row = &adj[y];
            let mut bl: usize = 0;
            let mut bc: usize = 0;
            let mut t: usize = 0;
            while t < row.len()
                invariant
                    t <= row@.len(),
                    n == graph_nodes(*graph).len(),
                    e == graph_edges(*graph),
                    y < n,
                    row@ == spec_adj_row(e, n as int, y as int),
                    labs.len() == n,
                    forall|k: int| 0 <= k < n ==> (#[trigger] labs[k]) < n,
                    node_labels@ == labs,
                    bl == spec_best(labs, row@, t as int).0,
                    bc == spec_best(labs, row@, t as int).1,
                    bc <= row@.len(),
                    bl < n || (bl == 0 && bc == 0),
                decreases row@.len() - t,
            {
                proof {
                    lemma_row_upto_props(e, y as int, n as int);
                    assert(row@[t as int] == spec_adj_row(e, n as int, y as int)[t as int]);
                }
                let cand = node_labels[row[t]];
                let mut cnt: usize = 0;
                let mut t2: usize = 0;
                while t2 < row.len()
                    invariant
                        t2 <= row@.len(),
                        e == graph_edges(*graph),
                        n == graph_nodes(*graph).len(),
                        y < n,
                        row@ == spec_adj_row(e, n as int, y as int),
                        labs.len() == n,
                        node_labels@ == labs,
                        cnt == spec_count(labs, row@, cand, t2 as int),
                        cnt <= t2,
                    decreases row@.len() - t2,
                {
                    proof {
                        lemma_row_upto_props(e, y as int, n as int);
                        assert(row@[t2 as int] == spec_adj_row(e, n as int, y as int)[t2 as int]);
                    }
                    if node_labels[row[t2]] == cand {
                        cnt += 1;
                    }
                    t2 += 1;
                }
                if cnt > bc || (cnt == bc && cand < bl) {
                    bl = cand;
                    bc = cnt;
                }
                t += 1;
            }
            let nl = if row.len() == 0 {
                node_labels[y]
            } else {
                bl
            };
            proof {
                assert(nl == spec_new_label(e, n as int, labs, y as int));
                if row@.len() > 0 {
                    // A scanned row is never all-misses: the first candidate
                    // tallies itself, so the winner carries a real label.
                    lemma_row_upto_props(e, y as int, n as int);
                    assert(bl < n) by {
                        if !(bl < n) {
                            assert(bc == 0);
                            assert(spec_count(labs, row@, labs[row@[0] as int], row@.len() as int) >= 1) by {
                                lemma_count_at_least_one(labs, row@, labs[row@[0] as int], 0);
                            }
                            assert(spec_best(labs, row@, 1).1 >= 1);
                            lemma_best_monotone(labs, row@, 1, row@.len() as int);
                        }
                    }
                }
            }
            if nl != node_labels[y] {
                changed = true;
            }
            let ghost pn = new_labels@;
            new_labels.push(nl);
            proof {
                if nl != labs[y as int] {
                    assert((#[trigger] new_labels@[y as int]) != labs[y as int]);
                } else if changed {
                    let k = choose|k: int| 0 <= k < y && (#[trigger] pn[k]) != labs[k];
                    assert((#[trigger] new_labels@[k]) != labs[k]);
                } else {
                    assert forall|k: int| 0 <= k < y + 1 implies
                        (#[trigger] new_labels@[k]) == labs[k] by {
                        if k < y {
                            assert(new_labels@[k] == pn[k]);
                        }
                    }
                }
            }
            y += 1;
        }
        proof {
            assert(new_labels@ =~= spec_sweep(e, n as int, labs));
        }
        if !changed {
            proof {
                assert forall|k: int| 0 <= k < n implies new_labels@[k] == labs[k] by {}
                assert(new_labels@ =~= labs);
                assert(spec_sweep(e, n as int, labs) == labs);
                assert(spec_iterate(e, n as int, labs, (n - iter) as nat) == labs);
            }
            done = true;
        } else {
            proof {
                let k = choose|k: int| 0 <= k < n && (#[trigger] new_labels@[k]) != labs[k];
                assert(spec_sweep(e, n as int, labs)[k] != labs[k]);
                assert(spec_sweep(e, n as int, labs) != labs);
                assert(iter < n);
                assert(spec_iterate(e, n as int, labs, (n - iter) as nat)
                    == spec_iterate(e, n as int, spec_sweep(e, n as int, labs), (n - iter - 1) as nat));
            }
            node_labels = new_labels;
            iter += 1;
        }
    }
    proof {
        if !done {
            assert(spec_iterate(e, n as int, node_labels@, 0) == node_labels@);
        }
        assert(node_labels@ == spec_final_labels(e, n as int));
    }
    group_nodes(&node_labels)
}

proof fn lemma_count_at_least_one(labels: Seq<usize>, row: Seq<usize>, l: usize, w: int)
    requires
        0 <= w < row.len(),
        labels[row[w] as int] == l,
    ensures
        spec_count(labels, row, l, row.len() as int) >= 1,
{
    lemma_count_from(labels, row, l, w, row.len() as int);
}

proof fn lemma_count_nonneg(labels: Seq<usize>, row: Seq<usize>, l: usize, t: int)
    ensures
        spec_count(labels, row, l, t) >= 0,
    decreases t,
{
    if t > 0 {
        lemma_count_nonneg(labels, row, l, t - 1);
    }
}

proof fn lemma_count_from(labels: Seq<usize>, row: Seq<usize>, l: usize, w: int, t: int)
    requires
        0 <= w < t,
        labels[row[w] as int] == l,
    ensures
        spec_count(labels, row, l, t) >= 1,
    decreases t,
{
    if w < t - 1 {
        lemma_count_from(labels, row, l, w, t - 1);
    } else {
        lemma_count_nonneg(labels, row, l, t - 1);
    }
}

proof fn lemma_best_monotone(labels: Seq<usize>, row: Seq<usize>, t1: int, t2: int)
    requires
        0 <= t1 <= t2,
    ensures
        spec_best(labels, row, t2).1 >= spec_best(labels, row, t1).1,
    decreases t2 - t1,
{
    if t1 < t2 {
        lemma_best_monotone(labels, row, t1, t2 - 1);
    }
}

/// Groups the nodes of each connected component together: nodes share a
/// group exactly when a path of edges joins them.  Within a group the
/// nodes stay in ascending order, and the groups come in the order the
/// components are first met in node enumeration order, so the whole
/// result is fixed.
pub fn cluster_analysis(graph: &UnGraph<Individual, u64>) -> (clusters: Vec<Vec<usize>>)
    requires
        graph_wf(*graph),
        graph_simple(*graph),
    ensures
        is_partition(groups_view(clusters@), graph_nodes(*graph).len() as int),
        forall|gi: int, k1: int, k2: int|
            0 <= gi < clusters@.len() && 0 <= k1 < clusters@[gi]@.len()
                && 0 <= k2 < clusters@[gi]@.len() ==>
                connected(graph_edges(*graph), #[trigger] clusters@[gi]@[k1] as int,
                    #[trigger] clusters@[gi]@[k2] as int),
        forall|gi1: int, k1: int, gi2: int, k2: int|
            0 <= gi1 < clusters@.len() && 0 <= k1 < clusters@[gi1]@.len()
                && 0 <= gi2 < clusters@.len() && 0 <= k2 < clusters@[gi2]@.len() && gi1 != gi2 ==>
                !connected(graph_edges(*graph), #[trigger] clusters@[gi1]@[k1] as int,
                    #[trigger] clusters@[gi2]@[k2] as int),
        forall|gi: int, k1: int, k2: int|
            0 <= gi < clusters@.len() && 0 <= k1 < k2 < clusters@[gi]@.len() ==>
                (#[trigger] clusters@[gi]@[k1]) < (#[trigger] clusters@[gi]@[k2]),
        forall|gi1: int, gi2: int|
            0 <= gi1 < gi2 < clusters@.len() ==>
                (#[trigger] clusters@[gi1]@[0]) < (#[trigger] clusters@[gi2]@[0]),
{
    let ghost e = graph_edges(*graph);
    let ghost n = graph_nodes(*graph).len() as int;
    let component_map = component_mapping(graph);
    let clusters = group_nodes(&component_map);
    proof {
        let gsv = groups_view(clusters@);
        assert forall|gi: int, k1: int, k2: int|
            0 <= gi < clusters@.len() && 0 <= k1 < clusters@[gi]@.len()
                && 0 <= k2 < clusters@[gi]@.len() implies
            connected(e, #[trigger] clusters@[gi]@[k1] as int, #[trigger] clusters@[gi]@[k2] as int) by {
            assert(component_map@[clusters@[gi]@[k1] as int]
                == component_map@[clusters@[gi]@[0] as int]);
            assert(component_map@[clusters@[gi]@[k2] as int]
                == component_map@[clusters@[gi]@[0] as int]);
            assert(gsv[gi][k1] < n && gsv[gi][k2] < n);
        }
        assert forall|gi1: int, k1: int, gi2: int, k2: int|
            0 <= gi1 < clusters@.len() && 0 <= k1 < clusters@[gi1]@.len()
                && 0 <= gi2 < clusters@.len() && 0 <= k2 < clusters@[gi2]@.len() && gi1 != gi2 implies
            !connected(e, #[trigger] clusters@[gi1]@[k1] as int,
                #[trigger] clusters@[gi2]@[k2] as int) by {
            assert(gsv[gi1][k1] < n && gsv[gi2][k2] < n);
            if connected(e, clusters@[gi1]@[k1] as int, clusters@[gi2]@[k2] as int) {
                assert(component_map@[clusters@[gi1]@[k1] as int]
                    == component_map@[clusters@[gi2]@[k2] as int]);
                assert(component_map@[clusters@[gi1]@[k1] as int]
                    == component_map@[clusters@[gi1]@[0] as int]);
                assert(component_map@[clusters@[gi2]@[k2] as int]
                    == component_map@[clusters@[gi2]@[0] as int]);
            }
        }
    }
    clusters
}

/// Inserts a `(node, degree)` pair into a descending run, after every pair
/// of equal or larger degree: a stable descending insertion.
pub open spec fn spec_insert_desc(s: Seq<(usize, usize)>, p: (usize, usize)) -> Seq<(usize, usize)>
    decreases s.len(),
{
    if s.len() == 0 {
        seq![p]
    } else if s[0].1 >= p.1 {
        seq![s[0]] + spec_insert_desc(s.drop_first(), p)
    } else {
        seq![p] + s
    }
}

/// Stable insertion sort by descending degree.
pub open spec fn spec_sort_desc(s: Seq<(usize, usize)>) -> Seq<(usize, usize)>
    decreases s.len(),
{
    if s.len() == 0 {
        Seq::empty()
    } else {
        spec_insert_desc(spec_sort_desc(s.drop_last()), s[s.len() - 1])
    }
}

/// The length of the longest prefix whose degrees are all at least `d`.
pub open spec fn spec_prefix_ge(s: Seq<(usize, usize)>, d: usize) -> int
    decreases s.len(),
{
    if s.len() == 0 {
        0
    } else if s[0].1 >= d {
        1 + spec_prefix_ge(s.drop_first(), d)
    } else {
        0
    }
}

proof fn lemma_insert_desc_shape(s: Seq<(usize, usize)>, p: (usize, usize))
    ensures
        spec_insert_desc(s, p) =~= s.insert(spec_prefix_ge(s, p.1), p),
        0 <= spec_prefix_ge(s, p.1) <= s.len(),
    decreases s.len(),
{
    if s.len() > 0 && s[0].1 >= p.1 {
        lemma_insert_desc_shape(s.drop_first(), p);
        let pos = spec_prefix_ge(s.drop_first(), p.1);
        assert(spec_insert_desc(s, p) =~= s.insert(1 + pos, p)) by {
            assert(seq![s[0]] + s.drop_first().insert(pos, p) =~= s.insert(1 + pos, p));
        }
    }
}

proof fn lemma_prefix_ge_char(s: Seq<(usize, usize)>, d: usize, pos: int)
    requires
        0 <= pos <= s.len(),
        forall|k: int| 0 <= k < pos ==> (#[trigger] s[k]).1 >= d,
        pos == s.len() || s[pos].1 < d,
    ensures
        spec_prefix_ge(s, d) == pos,
    decreases s.len(),
{
    if pos == 0 {
        if s.len() > 0 {
            assert(s[0].1 < d);
        }
    } else {
        assert(s[0].1 >= d);
        assert forall|k: int| 0 <= k < pos - 1 implies (#[trigger] s.drop_first()[k]).1 >= d by {
            assert(s.drop_first()[k] == s[k + 1]);
        }
        if pos - 1 < s.drop_first().len() {
            assert(s.drop_first()[pos - 1] == s[pos]);
        }
        lemma_prefix_ge_char(s.drop_first(), d, pos - 1);
    }
}

/// The `(node, degree)` pairs of a community's members, in member order.
pub open spec fn spec_pairs(e: Map<(int, int), u64>, n: int, c: Seq<usize>) -> Seq<(usize, usize)> {
    Seq::new(c.len(), |i: int| (c[i], spec_degree(e, n, c[i] as int) as usize))
}

/// The representatives of one community: its members sorted by descending
/// degree (ties in member order), the first `k` of them.
pub open spec fn spec_reps_of(e: Map<(int, int), u64>, n: int, c: Seq<usize>, k: int) -> Seq<usize> {
    let sorted = spec_sort_desc(spec_pairs(e, n, c));
    let take = if k <= sorted.len() { k } else { sorted.len() as int };
    sorted.subrange(0, take).map_values(|p: (usize, usize)| p.0)
}

/// The representatives of the first `upto` communities, concatenated.
pub open spec fn spec_select_all(
    e: Map<(int, int), u64>,
    n: int,
    cl: Seq<Seq<usize>>,
    k: int,
    upto: int,
) -> Seq<usize>
    decreases upto,
{
    if upto <= 0 {
        Seq::empty()
    } else {
        spec_select_all(e, n, cl, k, upto - 1) + spec_reps_of(e, n, cl[upto - 1], k)
    }
}

/// For each community, the `k` members of largest degree, in descending
/// degree order with ties kept in member order; all selections
/// concatenated in community order.
pub fn select_representatives(
    graph: &UnGraph<Individual, u64>,
    communities: &Vec<Vec<usize>>,
    k: usize,
) -> (representatives: Vec<usize>)
    requires
        graph_wf(*graph),
        graph_simple(*graph),
        forall|ci: int, t: int|
            0 <= ci < communities@.len() && 0 <= t < communities@[ci]@.len() ==>
                (#[trigger] communities@[ci]@[t]) < graph_nodes(*graph).len(),
    ensures
        representatives@ == spec_select_all(
            graph_edges(*graph),
            graph_nodes(*graph).len() as int,
            groups_view(communities@),
            k as int,
            communities@.len() as int,
        ),
{
    let ghost e = graph_edges(*graph);
    let ghost n_spec = graph_nodes(*graph).len() as int;
    let ghost cl = groups_view(communities@);
    let nc = communities.len();
    let mut representatives: Vec<usize> = Vec::new();
    let mut ci: usize = 0;
    while ci < nc
        invariant
            ci <= nc,
            nc == communities@.len(),
            graph_wf(*graph),
            graph_simple(*graph),
            e == graph_edges(*graph),
            n_spec == graph_nodes(*graph).len(),
            cl == groups_view(communities@),
            forall|cz: int, t: int|
                0 <= cz < communities@.len() && 0 <= t < communities@[cz]@.len() ==>
                    (#[trigger] communities@[cz]@[t]) < graph_nodes(*graph).len(),
            representatives@ == spec_select_all(e, n_spec, cl, k as int, ci as int),
        decreases nc - ci,
    {
        let mut sorted: Vec<(usize, usize)> = Vec::new();
        let mut t: usize = 0;
        while t < communities[ci].len()
            invariant
                ci < nc,
                t <= communities@[ci as int]@.len(),
                nc == communities@.len(),
                graph_wf(*graph),
                graph_simple(*graph),
                e == graph_edges(*graph),
                n_spec == graph_nodes(*graph).len(),
                cl == groups_view(communities@),
                forall|cz: int, tz: int|
                    0 <= cz < communities@.len() && 0 <= tz < communities@[cz]@.len() ==>
                        (#[trigger] communities@[cz]@[tz]) < graph_nodes(*graph).len(),
                sorted@ == spec_sort_desc(spec_pairs(e, n_spec, cl[ci as int]).subrange(0, t as int)),
            decreases communities@[ci as int]@.len() - t,
        {
            let node = communities[ci][t];
            let row = adjacency_row(graph, node);
            let degree = row.len();
            let p = (node, degree);
            proof {
                assert(spec_pairs(e, n_spec, cl[ci as int]).subrange(0, t + 1).drop_last()
                    =~= spec_pairs(e, n_spec, cl[ci as int]).subrange(0, t as int));
                assert(spec_pairs(e, n_spec, cl[ci as int]).subrange(0, t + 1)[t as int] == p);
            }
            let mut pos: usize = 0;
            while pos < sorted.len() && sorted[pos].1 >= degree
                invariant
                    pos <= sorted@.len(),
                    forall|kk: int| 0 <= kk < pos ==> (#[trigger] sorted@[kk]).1 >= degree,
                decreases sorted@.len() - pos,
            {
                pos += 1;
            }
            proof {
                lemma_prefix_ge_char(sorted@, degree, pos as int);
                lemma_insert_desc_shape(sorted@, p);
            }
            sorted.insert(pos, p);
            t += 1;
        }
        proof {
            assert(spec_pairs(e, n_spec, cl[ci as int])
                .subrange(0, communities@[ci as int]@.len() as int)
                =~= spec_pairs(e, n_spec, cl[ci as int]));
        }
        let ghost base = representatives@;
        let take = if k <= sorted.len() { k } else { sorted.len() };
        let mut t2: usize = 0;
        while t2 < take
            invariant
                t2 <= take,
                take <= sorted@.len(),
                take == (if k <= sorted@.len() { k as int } else { sorted@.len() as int }),
                representatives@ == base + sorted@.subrange(0, t2 as int)
                    .map_values(|p: (usize, usize)| p.0),
            decreases take - t2,
        {
            let ghost before = representatives@;
            representatives.push(sorted[t2].0);
            proof {
                assert(representatives@ =~= base + sorted@.subrange(0, t2 + 1)
                    .map_values(|p: (usize, usize)| p.0));
            }
            t2 += 1;
        }
        proof {
            assert(representatives@ =~= spec_select_all(e, n_spec, cl, k as int, ci as int + 1));
        }
        ci += 1;
    }
    representatives
}

/// One measurement of a feature vector, selected by dimension index.
pub open spec fn spec_field(i: Individual, which: int) -> int {
    if which == 0 { i.bmi as int }
    else if which == 1 { i.waist_circumference as int }
    else if which == 2 { i.bp_systolic as int }
    else if which == 3 { i.bp_diastolic as int }
    else if which == 4 { i.blood_glucose_fasting as int }
    else if which == 5 { i.total_cholesterol as int }
    else if which == 6 { i.triglyceride as int }
    else if which == 7 { i.hdl as int }
    else if which == 8 { i.ldl as int }
    else { i.hba1c as int }
}

/// The sum over a community of one measurement, shifted into the
/// nonnegative range by `FEATURE_LIMIT` per member.
pub open spec fn spec_shift_sum(nodes: Seq<Individual>, c: Seq<usize>, which: int) -> int
    decreases c.len(),
{
    if c.len() == 0 {
        0
    } else {
        spec_shift_sum(nodes, c.drop_last(), which)
            + spec_field(nodes[c[c.len() - 1] as int], which) + FEATURE_LIMIT
    }
}

/// The floor mean of one shifted measurement, shifted back.
pub open spec fn spec_mean_field(nodes: Seq<Individual>, c: Seq<usize>, which: int) -> int {
    spec_shift_sum(nodes, c, which) / (c.len() as int) - FEATURE_LIMIT
}

/// The member-wise floor mean of a community's feature vectors.
pub open spec fn spec_average(nodes: Seq<Individual>, c: Seq<usize>) -> Individual {
    Individual {
        bmi: spec_mean_field(nodes, c, 0) as i64,
        waist_circumference: spec_mean_field(nodes, c, 1) as i64,
        bp_systolic: spec_mean_field(nodes, c, 2) as i64,
        bp_diastolic: spec_mean_field(nodes, c, 3) as i64,
        blood_glucose_fasting: spec_mean_field(nodes, c, 4) as i64,
        total_cholesterol: spec_mean_field(nodes, c, 5) as i64,
        triglyceride: spec_mean_field(nodes, c, 6) as i64,
        hdl: spec_mean_field(nodes, c, 7) as i64,
        ldl: spec_mean_field(nodes, c, 8) as i64,
        hba1c: spec_mean_field(nodes, c, 9) as i64,
    }
}

/// The evaluation rows of one community: one row per representative that
/// belongs to it, in representative order, carrying the community's mean
/// vector.
pub open spec fn spec_eval_comm(
    nodes: Seq<Individual>,
    c: Seq<usize>,
    reps: Seq<usize>,
    ci: int,
    upto: int,
) -> Seq<(usize, usize, Individual)>
    decreases upto,
{
    if upto <= 0 {
        Seq::empty()
    } else {
        let p = spec_eval_comm(nodes, c, reps, ci, upto - 1);
        if c.contains(reps[upto - 1]) {
            p + seq![(ci as usize, reps[upto - 1], spec_average(nodes, c))]
        } else {
            p
        }
    }
}

/// The evaluation rows of the first `upto` communities, concatenated.
pub open spec fn spec_eval_all(
    nodes: Seq<Individual>,
    cl: Seq<Seq<usize>>,
    reps: Seq<usize>,
    upto: int,
) -> Seq<(usize, usize, Individual)>
    decreases upto,
{
    if upto <= 0 {
        Seq::empty()
    } else {
        spec_eval_all(nodes, cl, reps, upto - 1)
            + spec_eval_comm(nodes, cl[upto - 1], reps, upto - 1, reps.len() as int)
    }
}

/// A sum of at most `200_000_000` per member has a floor mean within that
/// same range.
proof fn lemma_mean_in_range(s: int, cnt: int)
    requires
        cnt >= 1,
        0 <= s <= 200_000_000 * cnt,
    ensures
        0 <= s / cnt <= 200_000_000,
{
    vstd::arithmetic::div_mod::lemma_div_pos_is_pos(s, cnt);
    vstd::arithmetic::div_mod::lemma_div_is_ordered(s, 200_000_000 * cnt, cnt);
    vstd::arithmetic::div_mod::lemma_div_multiples_vanish(200_000_000, cnt);
}

/// Whether a node identity occurs in a community.
fn contains_node(c: &Vec<usize>, y: usize) -> (r: bool)
    ensures
        r <==> c@.contains(y),
{
    let mut t: usize = 0;
    let mut found = false;
    while t < c.len()
        invariant
            t <= c@.len(),
            found <==> exists|kk: int| 0 <= kk < t && (#[trigger] c@[kk]) == y,
        decreases c@.len() - t,
    {
        if c[t] == y {
            found = true;
        }
        t += 1;
    }
    found
}

/// The member-wise floor mean of a community's feature vectors, computed
/// over the shifted nonnegative fixed-point range.
fn community_average(graph: &UnGraph<Individual, u64>, c: &Vec<usize>) -> (avg: Individual)
    requires
        graph_wf(*graph),
        graph_simple(*graph),
        c@.len() >= 1,
        forall|t: int| 0 <= t < c@.len() ==> (#[trigger] c@[t]) < graph_nodes(*graph).len(),
    ensures
        avg == spec_average(graph_nodes(*graph), c@),
{
    let ghost nodes = graph_nodes(*graph);
    let mut s0: u128 = 0;
    let mut s1: u128 = 0;
    let mut s2: u128 = 0;
    let mut s3: u128 = 0;
    let mut s4: u128 = 0;
    let mut s5: u128 = 0;
    let mut s6: u128 = 0;
    let mut s7: u128 = 0;
    let mut s8: u128 = 0;
    let mut s9: u128 = 0;
    let mut t: usize = 0;
    while t < c.len()
        invariant
            t <= c@.len(),
            graph_wf(*graph),
            graph_simple(*graph),
            nodes == graph_nodes(*graph),
            forall|tz: int| 0 <= tz < c@.len() ==> (#[trigger] c@[tz]) < graph_nodes(*graph).len(),
            s0 == spec_shift_sum(nodes, c@.subrange(0, t as int), 0),
            s1 == spec_shift_sum(nodes, c@.subrange(0, t as int), 1),
            s2 == spec_shift_sum(nodes, c@.subrange(0, t as int), 2),
            s3 == spec_shift_sum(nodes, c@.subrange(0, t as int), 3),
            s4 == spec_shift_sum(nodes, c@.subrange(0, t as int), 4),
            s5 == spec_shift_sum(nodes, c@.subrange(0, t as int), 5),
            s6 == spec_shift_sum(nodes, c@.subrange(0, t as int), 6),
            s7 == spec_shift_sum(nodes, c@.subrange(0, t as int), 7),
            s8 == spec_shift_sum(nodes, c@.subrange(0, t as int), 8),
            s9 == spec_shift_sum(nodes, c@.subrange(0, t as int), 9),
            s0 <= 200_000_000 * (t as u128),
            s1 <= 200_000_000 * (t as u128),
            s2 <= 200_000_000 * (t as u128),
            s3 <= 200_000_000 * (t as u128),
            s4 <= 200_000_000 * (t as u128),
            s5 <= 200_000_000 * (t as u128),
            s6 <= 200_000_000 * (t as u128),
            s7 <= 200_000_000 * (t as u128),
            s8 <= 200_000_000 * (t as u128),
            s9 <= 200_000_000 * (t as u128),
        decreases c@.len() - t,
    {
        let node = c[t];
        let ind = node_individual(graph, node);
        proof {
            assert(nodes[node as int].wf());
            assert(c@.subrange(0, t as int + 1).drop_last() =~= c@.subrange(0, t as int));
            assert(c@.subrange(0, t as int + 1)[t as int] == c@[t as int]);
        }
        s0 = s0 + ((ind.bmi + FEATURE_LIMIT) as u128);
        s1 = s1 + ((ind.waist_circumference + FEATURE_LIMIT) as u128);
        s2 = s2 + ((ind.bp_systolic + FEATURE_LIMIT) as u128);
        s3 = s3 + ((ind.bp_diastolic + FEATURE_LIMIT) as u128);
        s4 = s4 + ((ind.blood_glucose_fasting + FEATURE_LIMIT) as u128);
        s5 = s5 + ((ind.total_cholesterol + FEATURE_LIMIT) as u128);
        s6 = s6 + ((ind.triglyceride + FEATURE_LIMIT) as u128);
        s7 = s7 + ((ind.hdl + FEATURE_LIMIT) as u128);
        s8 = s8 + ((ind.ldl + FEATURE_LIMIT) as u128);
        s9 = s9 + ((ind.hba1c + FEATURE_LIMIT) as u128);
        t += 1;
    }
    proof {
        assert(c@.subrange(0, c@.len() as int) =~= c@);
        lemma_mean_in_range(s0 as int, c@.len() as int);
        lemma_mean_in_range(s1 as int, c@.len() as int);
        lemma_mean_in_range(s2 as int, c@.len() as int);
        lemma_mean_in_range(s3 as int, c@.len() as int);
        lemma_mean_in_range(s4 as int, c@.len() as int);
        lemma_mean_in_range(s5 as int, c@.len() as int);
        lemma_mean_in_range(s6 as int, c@.len() as int);
        lemma_mean_in_range(s7 as int, c@.len() as int);
        lemma_mean_in_range(s8 as int, c@.len() as int);
        lemma_mean_in_range(s9 as int, c@.len() as int);
    }
    let cnt = c.len() as u128;
    Individual {
        bmi: ((s0 / cnt) as i64) - FEATURE_LIMIT,
        waist_circumference: ((s1 / cnt) as i64) - FEATURE_LIMIT,
        bp_systolic: ((s2 / cnt) as i64) - FEATURE_LIMIT,
        bp_diastolic: ((s3 / cnt) as i64) - FEATURE_LIMIT,
        blood_glucose_fasting: ((s4 / cnt) as i64) - FEATURE_LIMIT,
        total_cholesterol: ((s5 / cnt) as i64) - FEATURE_LIMIT,
        triglyceride: ((s6 / cnt) as i64) - FEATURE_LIMIT,
        hdl: ((s7 / cnt) as i64) - FEATURE_LIMIT,
        ldl: ((s8 / cnt) as i64) - FEATURE_LIMIT,
        hba1c: ((s9 / cnt) as i64) - FEATURE_LIMIT,
    }
}

/// For each community, pairs every representative that belongs to it with
/// the community's index and mean feature vector, in community and then
/// representative order.
pub fn evaluate_representatives(
    graph: &UnGraph<Individual, u64>,
    communities: &Vec<Vec<usize>>,
    representatives: &Vec<usize>,
) -> (rows: Vec<(usize, usize, Individual)>)
    requires
        graph_wf(*graph),
        graph_simple(*graph),
        forall|ci: int| 0 <= ci < communities@.len() ==> (#[trigger] communities@[ci])@.len() >= 1,
        forall|ci: int, t: int|
            0 <= ci < communities@.len() && 0 <= t < communities@[ci]@.len() ==>
                (#[trigger] communities@[ci]@[t]) < graph_nodes(*graph).len(),
    ensures
        rows@ == spec_eval_all(graph_nodes(*graph), groups_view(communities@), representatives@,
            communities@.len() as int),
{
    let ghost nodes = graph_nodes(*graph);
    let ghost cl = groups_view(communities@);
    let nc = communities.len();
    let nr = representatives.len();
    let mut rows: Vec<(usize, usize, Individual)> = Vec::new();
    let mut ci: usize = 0;
    while ci < nc
        invariant
            ci <= nc,
            nc == communities@.len(),
            nr == representatives@.len(),
            graph_wf(*graph),
            graph_simple(*graph),
            nodes == graph_nodes(*graph),
            cl == groups_view(communities@),
            forall|cz: int| 0 <= cz < communities@.len() ==> (#[trigger] communities@[cz])@.len() >= 1,
            forall|cz: int, t: int|
                0 <= cz < communities@.len() && 0 <= t < communities@[cz]@.len() ==>
                    (#[trigger] communities@[cz]@[t]) < graph_nodes(*graph).len(),
            rows@ == spec_eval_all(nodes, cl, representatives@, ci as int),
        decreases nc - ci,
    {
        let avg = community_average(graph, &communities[ci]);
        let ghost base = rows@;
        let mut t: usize = 0;
        while t < nr
            invariant
                t <= nr,
                ci < nc,
                nc == communities@.len(),
                nr == representatives@.len(),
                nodes == graph_nodes(*graph),
                cl == groups_view(communities@),
                avg == spec_average(nodes, cl[ci as int]),
                rows@ == base + spec_eval_comm(nodes, cl[ci as int], representatives@, ci as int, t as int),
            decreases nr - t,
        {
            let rep = representatives[t];
            if contains_node(&communities[ci], rep) {
                rows.push((ci, rep, avg));
                proof {
                    assert(rows@ =~= base
                        + spec_eval_comm(nodes, cl[ci as int], representatives@, ci as int, t as int + 1));
                }
            }
            t += 1;
        }
        ci += 1;
    }
    rows
}

} // verus!
