//! Paths and connectivity over the weighted adjacency map.

use vstd::prelude::*;

verus! {

/// A walk through the edge map: at least the start node, consecutive
/// entries adjacent, ending at `b`.
pub open spec fn valid_path(e: Map<(int, int), u64>, p: Seq<int>, a: int, b: int) -> bool {
    &&& p.len() >= 1
    &&& p[0] == a
    &&& p[p.len() - 1] == b
    &&& forall|k: int| 0 <= k < p.len() - 1 ==> e.dom().contains((#[trigger] p[k], p[k + 1]))
}

/// Two nodes joined by some path of edges.  Every node is connected to
/// itself by the one-node path.
pub open spec fn connected(e: Map<(int, int), u64>, a: int, b: int) -> bool {
    exists|p: Seq<int>| valid_path(e, p, a, b)
}

/// Every orientation of an edge has its mirror in the map.
pub open spec fn edges_symmetric(e: Map<(int, int), u64>) -> bool {
    forall|a: int, b: int| #[trigger] e.dom().contains((a, b)) ==> e.dom().contains((b, a))
}

pub proof fn lemma_connected_refl(e: Map<(int, int), u64>, a: int)
    ensures
        connected(e, a, a),
{
    assert(valid_path(e, seq![a], a, a));
}

/// Extending a path by one adjacent node keeps it connected.
pub proof fn lemma_connected_step(e: Map<(int, int), u64>, a: int, b: int, c: int)
    requires
        connected(e, a, b),
        e.dom().contains((b, c)),
    ensures
        connected(e, a, c),
{
    let p = choose|p: Seq<int>| valid_path(e, p, a, b);
    let q = p.push(c);
    assert forall|k: int| 0 <= k < q.len() - 1 implies #[trigger] e.dom().contains((q[k], q[k + 1])) by {
        if k < p.len() - 1 {
            assert(e.dom().contains((p[k], p[k + 1])));
        }
    }
    assert(valid_path(e, q, a, c));
}

/// Connectivity is symmetric when every edge is.
pub proof fn lemma_connected_sym(e: Map<(int, int), u64>, a: int, b: int)
    requires
        connected(e, a, b),
        edges_symmetric(e),
    ensures
        connected(e, b, a),
{
    let p = choose|p: Seq<int>| valid_path(e, p, a, b);
    let l = p.len() as int;
    let q = Seq::new(p.len(), |k: int| p[l - 1 - k]);
    assert forall|k: int| 0 <= k < q.len() - 1 implies #[trigger] e.dom().contains((q[k], q[k + 1])) by {
        assert(e.dom().contains((p[l - 2 - k], p[l - 1 - k])));
    }
    assert(valid_path(e, q, b, a));
}

/// Connectivity is transitive: concatenate the two paths.
pub proof fn lemma_connected_trans(e: Map<(int, int), u64>, a: int, b: int, c: int)
    requires
        connected(e, a, b),
        connected(e, b, c),
    ensures
        connected(e, a, c),
{
    let p1 = choose|p: Seq<int>| valid_path(e, p, a, b);
    let p2 = choose|p: Seq<int>| valid_path(e, p, b, c);
    let q = p1 + p2.subrange(1, p2.len() as int);
    assert(q[0] == a);
    assert(q[q.len() - 1] == c);
    assert forall|k: int| 0 <= k < q.len() - 1 implies #[trigger] e.dom().contains((q[k], q[k + 1])) by {
        if k < p1.len() - 1 {
            assert(e.dom().contains((p1[k], p1[k + 1])));
        } else if k == p1.len() - 1 {
            assert(q[k] == b);
            assert(q[k + 1] == p2[1]);
            assert(e.dom().contains((p2[0], p2[1])));
        } else {
            let j = k - p1.len();
            assert(q[k] == p2[j + 1]);
            assert(q[k + 1] == p2[j + 2]);
            assert(e.dom().contains((p2[j + 1], p2[j + 2])));
        }
    }
    assert(valid_path(e, q, a, c));
}

/// A path starting inside a set that is closed under adjacency ends inside
/// it.
pub proof fn lemma_path_stays_in(e: Map<(int, int), u64>, s: Set<int>, p: Seq<int>, a: int, b: int)
    requires
        valid_path(e, p, a, b),
        s.contains(a),
        forall|x: int, y: int| s.contains(x) && #[trigger] e.dom().contains((x, y)) ==> s.contains(y),
    ensures
        s.contains(b),
    decreases p.len(),
{
    if p.len() == 1 {
        assert(b == a);
    } else {
        assert(e.dom().contains((p[0], p[1])));
        let p2 = p.subrange(1, p.len() as int);
        assert(valid_path(e, p2, p[1], b)) by {
            assert forall|k: int| 0 <= k < p2.len() - 1 implies #[trigger] e.dom().contains((p2[k], p2[k + 1])) by {
                assert(e.dom().contains((p[k + 1], p[k + 2])));
            }
        }
        lemma_path_stays_in(e, s, p2, p[1], b);
    }
}

/// A node that no earlier node reaches: the first node of its connected
/// component in enumeration order.
pub open spec fn is_leader(e: Map<(int, int), u64>, x: int) -> bool {
    forall|y: int| 0 <= y < x ==> !connected(e, y, x)
}

/// How many leaders precede position `k`: the component counter after the
/// first `k` nodes have been seen in enumeration order.
pub open spec fn leaders_below(e: Map<(int, int), u64>, k: int) -> int
    decreases k,
{
    if k <= 0 {
        0
    } else {
        leaders_below(e, k - 1) + if is_leader(e, k - 1) {
            1int
        } else {
            0int
        }
    }
}

/// Every node is reached from the leader of its component.
pub proof fn lemma_leader_exists(e: Map<(int, int), u64>, x: int)
    requires
        x >= 0,
    ensures
        exists|l: int| 0 <= l <= x && #[trigger] is_leader(e, l) && connected(e, l, x),
    decreases x,
{
    if is_leader(e, x) {
        lemma_connected_refl(e, x);
        assert(is_leader(e, x) && connected(e, x, x));
    } else {
        let y = choose|y: int| 0 <= y < x && connected(e, y, x);
        lemma_leader_exists(e, y);
        let l = choose|l: int| 0 <= l <= y && #[trigger] is_leader(e, l) && connected(e, l, y);
        lemma_connected_trans(e, l, y, x);
        assert(is_leader(e, l) && connected(e, l, x));
    }
}

/// Connectivity cannot leave a set that is closed under adjacency.
pub proof fn lemma_connected_stays_in(e: Map<(int, int), u64>, s: Set<int>, a: int, b: int)
    requires
        connected(e, a, b),
        s.contains(a),
        forall|x: int, y: int| s.contains(x) && #[trigger] e.dom().contains((x, y)) ==> s.contains(y),
    ensures
        s.contains(b),
{
    let p = choose|p: Seq<int>| valid_path(e, p, a, b);
    lemma_path_stays_in(e, s, p, a, b);
}

} // verus!
