//! Trusted bindings to petgraph's `Graph`, the container that holds the
//! similarity graph.
//!
//! The graph value is opaque to the verifier.  Three uninterpreted names
//! model it: the sequence of node payloads in insertion order, the map from
//! directed index pairs to edge weights (an undirected edge appears under
//! both orientations), and a flag saying the graph carries no parallel
//! edges.  Every wrapper below states, over those names, what the called
//! petgraph method does according to its source.

use vstd::prelude::*;
use crate::graph::Individual;
use petgraph::graph::{NodeIndex, UnGraph};

verus! {

#[verifier::external_type_specification]
#[verifier::external_body]
#[verifier::reject_recursive_types(N)]
#[verifier::reject_recursive_types(E)]
#[verifier::reject_recursive_types(Ty)]
#[verifier::reject_recursive_types(Ix)]
pub struct ExGraph<N, E, Ty, Ix>(petgraph::graph::Graph<N, E, Ty, Ix>);

#[verifier::external_type_specification]
#[verifier::external_body]
pub struct ExUndirected(petgraph::Undirected);

/// The node payloads of the graph, in insertion order; node `i` of the
/// graph carries payload `i` of this sequence.
pub uninterp spec fn graph_nodes(g: UnGraph<Individual, u64>) -> Seq<Individual>;

/// The weighted adjacency of the graph: an undirected edge of weight `w`
/// between nodes `a` and `b` puts both `(a, b)` and `(b, a)` in the map,
/// each bound to `w`.
pub uninterp spec fn graph_edges(g: UnGraph<Individual, u64>) -> Map<(int, int), u64>;

/// The graph holds at most one edge per unordered node pair and no
/// self-loops, so the edge map above describes it completely.
pub uninterp spec fn graph_simple(g: UnGraph<Individual, u64>) -> bool;

/// Relies on `Graph::new_undirected`: the new graph has no nodes and no
/// edges.
#[verifier::external_body]
pub(crate) fn graph_new() -> (g: UnGraph<Individual, u64>)
    ensures
        graph_simple(g),
        graph_nodes(g).len() == 0,
        graph_edges(g).dom() == Set::<(int, int)>::empty(),
{
    UnGraph::new_undirected()
}

/// Relies on `Graph::add_node`: appends a node carrying the payload and
/// returns its index, which equals the number of nodes added before it.
/// Panics only at the index-type limit, which the precondition excludes.
#[verifier::external_body]
pub(crate) fn graph_add_node(g: &mut UnGraph<Individual, u64>, payload: Individual) -> (i: usize)
    requires
        graph_nodes(*old(g)).len() < 0xFFFF_FFFF,
    ensures
        i == graph_nodes(*old(g)).len(),
        graph_nodes(*final(g)) == graph_nodes(*old(g)).push(payload),
        graph_edges(*final(g)) == graph_edges(*old(g)),
        graph_simple(*final(g)) == graph_simple(*old(g)),
{
    g.add_node(payload).index()
}

/// Relies on `Graph::add_edge`: connects two existing nodes with a weighted
/// undirected edge.  The precondition keeps the pair fresh, distinct and in
/// range, and the edge count under the index-type limit, so no parallel
/// edge or self-loop arises and the call cannot panic.
#[verifier::external_body]
pub(crate) fn graph_add_edge(g: &mut UnGraph<Individual, u64>, a: usize, b: usize, w: u64)
    requires
        a < graph_nodes(*old(g)).len(),
        b < graph_nodes(*old(g)).len(),
        a != b,
        graph_simple(*old(g)),
        !graph_edges(*old(g)).dom().contains((a as int, b as int)),
        graph_edges(*old(g)).dom().finite(),
        graph_edges(*old(g)).dom().len() < 0xFFFF_FFFE,
    ensures
        graph_nodes(*final(g)) == graph_nodes(*old(g)),
        graph_edges(*final(g)) == graph_edges(*old(g))
            .insert((a as int, b as int), w)
            .insert((b as int, a as int), w),
        graph_simple(*final(g)),
{
    g.add_edge(NodeIndex::new(a), NodeIndex::new(b), w);
}

/// Relies on `Graph::node_count`: the number of nodes.
#[verifier::external_body]
pub(crate) fn graph_node_count(g: &UnGraph<Individual, u64>) -> (n: usize)
    ensures
        n == graph_nodes(*g).len(),
{
    g.node_count()
}

/// Relies on `Graph::find_edge` and `Graph::edge_weight`: on an undirected
/// graph without parallel edges, looks up the weight of the edge between
/// two nodes, in either direction, or `None` if they are not adjacent.
#[verifier::external_body]
pub(crate) fn graph_edge_weight(g: &UnGraph<Individual, u64>, a: usize, b: usize) -> (w: Option<u64>)
    requires
        a < graph_nodes(*g).len(),
        b < graph_nodes(*g).len(),
        graph_simple(*g),
    ensures
        match w {
            Some(x) => graph_edges(*g).dom().contains((a as int, b as int))
                && graph_edges(*g)[(a as int, b as int)] == x,
            None => !graph_edges(*g).dom().contains((a as int, b as int)),
        },
{
    g.find_edge(NodeIndex::new(a), NodeIndex::new(b))
        .and_then(|e| g.edge_weight(e))
        .copied()
}

/// Relies on `Graph::node_weight`: the payload of an existing node.
#[verifier::external_body]
pub(crate) fn graph_payload(g: &UnGraph<Individual, u64>, a: usize) -> (payload: Individual)
    requires
        a < graph_nodes(*g).len(),
    ensures
        payload == graph_nodes(*g)[a as int],
{
    *g.node_weight(NodeIndex::new(a)).unwrap()
}

/// Relies on `Graph::node_indices`: with nodes only ever added, the node
/// identities are exactly `0, 1, .., node_count - 1`, in that order.
#[verifier::external_body]
pub(crate) fn graph_node_identifiers(g: &UnGraph<Individual, u64>) -> (ids: Vec<usize>)
    ensures
        ids@.len() == graph_nodes(*g).len(),
        forall|i: int| 0 <= i < ids@.len() ==> ids@[i] == i,
{
    g.node_indices().map(|ix| ix.index()).collect()
}

/// A well-formed similarity graph: edges join distinct nodes in range, both
/// orientations agree, and every weight is a positive similarity of at most
/// `SIM_ONE`.
pub open spec fn graph_wf(g: UnGraph<Individual, u64>) -> bool {
    let n = graph_nodes(g).len() as int;
    let e = graph_edges(g);
    &&& e.dom().finite()
    &&& forall|a: int, b: int| #[trigger] e.dom().contains((a, b)) ==>
            0 <= a < n && 0 <= b < n && a != b
            && e.dom().contains((b, a))
            && e[(b, a)] == e[(a, b)]
            && 1 <= e[(a, b)] <= crate::graph::SIM_ONE
    &&& forall|i: int| 0 <= i < n ==> #[trigger] graph_nodes(g)[i].wf()
}

} // verus!
