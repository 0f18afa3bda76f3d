//! The graph of the longest-path backend does not depend on the order in
//! which the nodes are reported, but for the numbering of its vertices.
//!
//! The order of the top-level targets matters: of two targets that make the
//! same node visible, the first one gives the node its gating analysis.

use crate::graph::{
    build_graph, dependency_edges, gating_analysis, keys_of, open_walk, probes, reaches, resolved,
    Probe,
};
use crate::longest_path::lemma_probes_in_range;
use crate::key::NodeKey;
use crate::model::{distinct_records, NodeRecord, VisibilityRecord};
use crate::tracker_laws::same_nodes;
use vstd::prelude::*;

verus! {

/// The vertex that a vertex of the nodes `a` has among the nodes `b`: that
/// of the same key.
pub open spec fn moved(a: Seq<NodeRecord>, b: Seq<NodeRecord>, vertex: int) -> int {
    keys_of(b).index_of(keys_of(a)[vertex])
}

/// The vertices that vertices of the nodes `a` have among the nodes `b`.
pub open spec fn moved_all(a: Seq<NodeRecord>, b: Seq<NodeRecord>, vertices: Seq<int>) -> Seq<int> {
    vertices.map_values(|v: int| moved(a, b, v))
}

/// The probes that probes of the nodes `a` are among the nodes `b`.
pub open spec fn moved_probes(a: Seq<NodeRecord>, b: Seq<NodeRecord>, found: Seq<Probe>) -> Seq<
    Probe,
> {
    found.map_values(|probe: Probe| (moved(a, b, probe.0), moved(a, b, probe.1)))
}

/// The vertex of a key among the records is the place of the one record that
/// has the key.
proof fn lemma_vertex_of_key(log: Seq<NodeRecord>, i: int)
    requires
        distinct_records(log),
        0 <= i < log.len(),
    ensures
        keys_of(log).contains(log[i].key),
        keys_of(log).index_of(log[i].key) == i,
{
    let keys = keys_of(log);
    assert(keys[i] == log[i].key);
    let j = keys.index_of(log[i].key);
    assert(0 <= j < keys.len() && keys[j] == log[i].key);
    if j < i {
        assert(log[j].key != log[i].key);
    } else if i < j {
        assert(log[i].key != log[j].key);
    }
}

/// A vertex moves to the vertex of the same node, and from there back to
/// itself.
proof fn lemma_moved(a: Seq<NodeRecord>, b: Seq<NodeRecord>, v: int)
    requires
        same_nodes(a, b),
        distinct_records(a),
        distinct_records(b),
        0 <= v < a.len(),
    ensures
        0 <= moved(a, b, v) < b.len(),
        b[moved(a, b, v)] == a[v],
        moved(b, a, moved(a, b, v)) == v,
{
    assert(b.contains(a[v]));
    let j = choose|j: int| 0 <= j < b.len() && b[j] == a[v];
    lemma_vertex_of_key(b, j);
    lemma_vertex_of_key(a, v);
    assert(keys_of(a)[v] == a[v].key);
    assert(keys_of(b)[j] == a[v].key);
}

/// A key has a vertex among the one nodes just when it has one among the
/// others, and then the one vertex moves to the other.
proof fn lemma_moved_key(a: Seq<NodeRecord>, b: Seq<NodeRecord>, key: NodeKey)
    requires
        same_nodes(a, b),
        distinct_records(a),
        distinct_records(b),
    ensures
        keys_of(a).contains(key) <==> keys_of(b).contains(key),
        keys_of(a).contains(key) ==> keys_of(b).index_of(key) == moved(
            a,
            b,
            keys_of(a).index_of(key),
        ),
{
    if keys_of(a).contains(key) {
        let v = keys_of(a).index_of(key);
        assert(0 <= v < a.len() && keys_of(a)[v] == key);
        lemma_moved(a, b, v);
        assert(keys_of(b)[moved(a, b, v)] == key);
    }
    if keys_of(b).contains(key) {
        let w = keys_of(b).index_of(key);
        assert(0 <= w < b.len() && keys_of(b)[w] == key);
        lemma_moved(b, a, w);
        assert(keys_of(a)[moved(b, a, w)] == key);
    }
}

/// Keys resolve among the other nodes to the moved vertices.
proof fn lemma_moved_resolved(a: Seq<NodeRecord>, b: Seq<NodeRecord>, named: Seq<NodeKey>)
    requires
        same_nodes(a, b),
        distinct_records(a),
        distinct_records(b),
    ensures
        resolved(keys_of(b), named) == moved_all(a, b, resolved(keys_of(a), named)),
    decreases named.len(),
{
    if named.len() > 0 {
        lemma_moved_resolved(a, b, named.drop_last());
        lemma_moved_key(a, b, named.last());
    }
    assert(resolved(keys_of(b), named) =~= moved_all(a, b, resolved(keys_of(a), named)));
}

/// The edges of the dependencies of a node are, among the other nodes, the
/// edges of the same node to the moved vertices.
proof fn lemma_moved_dependencies(a: Seq<NodeRecord>, b: Seq<NodeRecord>, v: int)
    requires
        same_nodes(a, b),
        distinct_records(a),
        distinct_records(b),
        0 <= v < a.len(),
    ensures
        dependency_edges(b)[moved(a, b, v)] == moved_all(a, b, dependency_edges(a)[v]),
{
    lemma_moved(a, b, v);
    lemma_moved_resolved(a, b, a[v].deps);
}

/// The probes of the top-level targets among the other nodes are the moved
/// probes.
proof fn lemma_moved_probes(
    a: Seq<NodeRecord>,
    b: Seq<NodeRecord>,
    targets: Seq<VisibilityRecord>,
)
    requires
        same_nodes(a, b),
        distinct_records(a),
        distinct_records(b),
    ensures
        probes(keys_of(b), targets) == moved_probes(a, b, probes(keys_of(a), targets)),
    decreases targets.len(),
{
    if targets.len() > 0 {
        let target = targets.last();
        lemma_moved_probes(a, b, targets.drop_last());
        lemma_moved_key(a, b, target.node);
        lemma_moved_resolved(a, b, target.makes_visible);
    }
    assert(probes(keys_of(b), targets) =~= moved_probes(a, b, probes(keys_of(a), targets)));
}

/// A walk that meets no analysis is, moved, such a walk among the other
/// nodes.
proof fn lemma_moved_walk(a: Seq<NodeRecord>, b: Seq<NodeRecord>, walk: Seq<int>)
    requires
        same_nodes(a, b),
        distinct_records(a),
        distinct_records(b),
        open_walk(keys_of(a), dependency_edges(a), walk),
    ensures
        open_walk(keys_of(b), dependency_edges(b), moved_all(a, b, walk)),
{
    let other = moved_all(a, b, walk);
    assert forall|i: int| 0 <= i < other.len() implies 0 <= #[trigger] other[i] < keys_of(b).len()
        && !(keys_of(b)[other[i]] is Analysis) by {
        assert(0 <= walk[i] < keys_of(a).len() && !(keys_of(a)[walk[i]] is Analysis));
        lemma_moved(a, b, walk[i]);
    }
    assert forall|i: int, j: int| 0 <= i && j == i + 1 && j < other.len() implies dependency_edges(
        b,
    )[#[trigger] other[i]].contains(#[trigger] other[j]) by {
        assert(0 <= walk[i] < keys_of(a).len());
        assert(dependency_edges(a)[walk[i]].contains(walk[j]));
        lemma_moved_dependencies(a, b, walk[i]);
        let ends = dependency_edges(a)[walk[i]];
        let k = choose|k: int| 0 <= k < ends.len() && ends[k] == walk[j];
        assert(moved_all(a, b, ends)[k] == other[j]);
    }
}

/// What a node reaches, it reaches among the other nodes.
proof fn lemma_moved_reaches(a: Seq<NodeRecord>, b: Seq<NodeRecord>, root: int, vertex: int)
    requires
        same_nodes(a, b),
        distinct_records(a),
        distinct_records(b),
        reaches(keys_of(a), dependency_edges(a), root, vertex),
    ensures
        reaches(keys_of(b), dependency_edges(b), moved(a, b, root), moved(a, b, vertex)),
{
    let walk = choose|walk: Seq<int>| #[trigger]
        open_walk(keys_of(a), dependency_edges(a), walk) && walk.first() == root && walk.last()
            == vertex;
    lemma_moved_walk(a, b, walk);
    let other = moved_all(a, b, walk);
    assert(other.first() == moved(a, b, root));
    assert(other.last() == moved(a, b, vertex));
}

/// The gating analysis of a node is, among the other nodes, the moved
/// gating analysis of the same node.
proof fn lemma_moved_gating(
    a: Seq<NodeRecord>,
    b: Seq<NodeRecord>,
    found: Seq<Probe>,
    v: int,
)
    requires
        same_nodes(a, b),
        distinct_records(a),
        distinct_records(b),
        0 <= v < a.len(),
        forall|k: int| 0 <= k < found.len() ==> 0 <= (#[trigger] found[k]).1 < a.len(),
    ensures
        gating_analysis(keys_of(b), dependency_edges(b), moved_probes(a, b, found), moved(a, b, v))
            == match gating_analysis(keys_of(a), dependency_edges(a), found, v) {
            Some(analysis) => Some(moved(a, b, analysis)),
            None => None,
        },
    decreases found.len(),
{
    if found.len() > 0 {
        let fewer = found.drop_last();
        let last = found.last();
        assert forall|k: int| 0 <= k < fewer.len() implies 0 <= (#[trigger] fewer[k]).1 < a.len() by {
            assert(fewer[k] == found[k]);
        }
        lemma_moved_gating(a, b, fewer, v);
        assert(moved_probes(a, b, found).drop_last() == moved_probes(a, b, fewer));
        assert(moved_probes(a, b, found).last() == (moved(a, b, last.0), moved(a, b, last.1)));
        assert(0 <= found[found.len() - 1].1 < a.len());
        lemma_moved(a, b, v);
        lemma_moved(a, b, last.1);
        if reaches(keys_of(a), dependency_edges(a), last.1, v) {
            lemma_moved_reaches(a, b, last.1, v);
        }
        if reaches(keys_of(b), dependency_edges(b), moved(a, b, last.1), moved(a, b, v)) {
            lemma_moved_reaches(b, a, moved(a, b, last.1), moved(a, b, v));
        }
    }
}

/// The graph of the same nodes in another order is the same graph, but for
/// the numbering of its vertices: the same node has the same edges, to the
/// same nodes.
pub proof fn lemma_graph_order_independent(
    a: Seq<NodeRecord>,
    b: Seq<NodeRecord>,
    targets: Seq<VisibilityRecord>,
    v: int,
)
    requires
        same_nodes(a, b),
        distinct_records(a),
        distinct_records(b),
        0 <= v < a.len(),
    ensures
        0 <= moved(a, b, v) < b.len(),
        b[moved(a, b, v)] == a[v],
        build_graph(b, targets)[moved(a, b, v)] == moved_all(a, b, build_graph(a, targets)[v]),
{
    let found = probes(keys_of(a), targets);
    lemma_moved(a, b, v);
    lemma_moved_dependencies(a, b, v);
    lemma_moved_probes(a, b, targets);
    lemma_probes_in_range(keys_of(a), targets);
    lemma_moved_gating(a, b, found, v);
    assert(build_graph(b, targets)[moved(a, b, v)] =~= moved_all(a, b, build_graph(a, targets)[v]));
}

} // verus!
