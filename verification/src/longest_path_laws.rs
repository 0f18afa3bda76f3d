//! What holds of the longest-path backend whatever the longest-path
//! computation answers, and what the edges of its graph mean.

use crate::backend::BuildInfo;
use crate::data::NodeData;
use crate::duration::{Duration, NANOS_PER_MICRO};
use crate::graph::{
    as_vertices, build_graph, dependency_edges, edge_count, gating_analysis, keys_of, probes,
    resolved,
};
use crate::key::NodeKey;
use crate::longest_path::{
    assembled, consistent, lemma_build_graph_closed, micros, path_cost, potential, potentials_path,
    CriticalPathPotentials, PreparedGraph,
};
use crate::model::{edge_total, NodeRecord, VisibilityRecord};
use vstd::prelude::*;

verus! {

/// The durations of the nodes of a reported path in whole microseconds,
/// added up.
pub open spec fn reported_micros(path: Seq<(NodeKey, NodeData, Option<Duration>)>) -> nat
    decreases path.len(),
{
    if path.len() == 0 {
        0
    } else {
        reported_micros(path.drop_last()) + micros(path.last().1)
    }
}

/// The node has a potential, and it is no more than the duration of the
/// node.
pub open spec fn potential_within_duration(node: (NodeKey, NodeData, Option<Duration>)) -> bool {
    match node.2 {
        Some(saved) => saved@ <= node.1.duration.cost(),
        None => false,
    }
}

/// The first nodes of the path that an answer names take the durations of
/// the first vertices of its path.
proof fn lemma_reported_micros(prepared: PreparedGraph, answer: CriticalPathPotentials, n: int)
    requires
        prepared.wf(),
        consistent(prepared.graph@, prepared.durations@, answer),
        0 <= n <= answer.critical_path@.len(),
    ensures
        reported_micros(potentials_path(prepared, answer).take(n)) == path_cost(
            prepared.durations@,
            as_vertices(answer.critical_path@).take(n),
        ),
    decreases n,
{
    let reported = potentials_path(prepared, answer);
    let path = as_vertices(answer.critical_path@);
    if n > 0 {
        lemma_reported_micros(prepared, answer, n - 1);
        assert(reported.take(n).drop_last() == reported.take(n - 1));
        assert(path.take(n).drop_last() == path.take(n - 1));
        assert(0 <= path[n - 1] < prepared.graph@.len());
        assert(reported.take(n).last() == reported[n - 1]);
        assert(path.take(n).last() == path[n - 1]);
        assert(prepared.durations@[path[n - 1]] == micros(prepared.data@[path[n - 1]]));
    }
}

/// What the longest-path backend reports is consistent with its graph,
/// whatever the longest-path computation answered.  The critical path is a
/// path of the graph that meets no vertex twice, each vertex depending on
/// the one before it by an edge of a dependency or of visibility; the
/// durations along it add up to the cost that the computation named; and
/// the potential of each node is no more than its duration.
pub proof fn lemma_assembled_path(
    prepared: PreparedGraph,
    answer: CriticalPathPotentials,
    info: BuildInfo,
)
    requires
        prepared.wf(),
        assembled(prepared, Some(answer), Ok(info)),
    ensures
        consistent(prepared.graph@, prepared.durations@, answer),
        info.critical_path@.len() == answer.critical_path@.len(),
        forall|k: int|
            0 <= k < info.critical_path@.len() ==> {
                let v = #[trigger] answer.critical_path@[k] as int;
                &&& 0 <= v < prepared.keys@.len()
                &&& info.critical_path@[k].0 == prepared.keys@[v]
                &&& info.critical_path@[k].1 == prepared.data@[v]
            },
        forall|j: int, k: int|
            0 <= j && k == j + 1 && k < answer.critical_path@.len() ==> prepared.graph@[(
            #[trigger] answer.critical_path@[k]) as int].contains(
                (#[trigger] answer.critical_path@[j]) as int,
            ),
        forall|j: int, k: int|
            0 <= j < k < answer.critical_path@.len() ==> (#[trigger] answer.critical_path@[j]) != (
            #[trigger] answer.critical_path@[k]),
        reported_micros(info.critical_path@) == answer.critical_path_cost,
        forall|k: int|
            0 <= k < info.critical_path@.len() ==> potential_within_duration(
                #[trigger] info.critical_path@[k],
            ),
{
    let path = as_vertices(answer.critical_path@);
    let edges = prepared.graph@;
    let reported = potentials_path(prepared, answer);
    assert(consistent(edges, prepared.durations@, answer));
    assert forall|k: int| 0 <= k < info.critical_path@.len() implies {
        let v = #[trigger] answer.critical_path@[k] as int;
        &&& 0 <= v < prepared.keys@.len()
        &&& info.critical_path@[k].0 == prepared.keys@[v]
        &&& info.critical_path@[k].1 == prepared.data@[v]
    } by {
        assert(0 <= path[k] < edges.len());
    }
    assert forall|j: int, k: int|
        0 <= j && k == j + 1 && k < answer.critical_path@.len() implies prepared.graph@[(
    #[trigger] answer.critical_path@[k]) as int].contains(
        (#[trigger] answer.critical_path@[j]) as int,
    ) by {
        assert(edges[path[k]].contains(path[j]));
    }
    assert forall|j: int, k: int| 0 <= j < k < answer.critical_path@.len() implies (
    #[trigger] answer.critical_path@[j]) != (#[trigger] answer.critical_path@[k]) by {
        assert(path[j] != path[k]);
    }
    lemma_reported_micros(prepared, answer, answer.critical_path@.len() as int);
    assert(reported.take(reported.len() as int) == reported);
    assert(path.take(path.len() as int) == path);
    assert forall|k: int| 0 <= k < info.critical_path@.len() implies potential_within_duration(
        #[trigger] info.critical_path@[k],
    ) by {
        let v = path[k];
        let can_save = potential(answer.critical_path_cost, answer.replacement_durations@[k]);
        let whole = prepared.data@[v].duration.cost();
        assert(0 <= v < edges.len());
        assert(can_save <= prepared.durations@[v]);
        assert(prepared.durations@[v] == micros(prepared.data@[v]));
        assert(can_save * 1000 <= whole) by (nonlinear_arith)
            requires
                can_save <= whole / 1000,
        ;
        assert(reported[k].2 == Some(Duration::of_nanos(can_save * NANOS_PER_MICRO as nat)));
    }
}

/// Every key of the named has a vertex, so each resolves to one.
proof fn lemma_resolved_all(keys: Seq<NodeKey>, named: Seq<NodeKey>)
    requires
        forall|j: int| 0 <= j < named.len() ==> keys.contains(#[trigger] named[j]),
    ensures
        resolved(keys, named).len() == named.len(),
    decreases named.len(),
{
    if named.len() > 0 {
        let init = named.drop_last();
        assert forall|j: int| 0 <= j < init.len() implies keys.contains(#[trigger] init[j]) by {
            assert(init[j] == named[j]);
        }
        lemma_resolved_all(keys, init);
        assert(keys.contains(named[named.len() - 1]));
    }
}

/// A graph whose vertices have as many edges as the records have
/// dependencies has as many edges as the records name.
proof fn lemma_edge_count_by_lengths(edges: Seq<Seq<int>>, log: Seq<NodeRecord>)
    requires
        edges.len() == log.len(),
        forall|v: int| 0 <= v < edges.len() ==> (#[trigger] edges[v]).len() == log[v].deps.len(),
    ensures
        edge_count(edges) == edge_total(log),
    decreases edges.len(),
{
    if edges.len() > 0 {
        let fewer = edges.drop_last();
        let init = log.drop_last();
        assert forall|v: int| 0 <= v < fewer.len() implies (#[trigger] fewer[v]).len()
            == init[v].deps.len() by {
            assert(fewer[v] == edges[v]);
        }
        lemma_edge_count_by_lengths(fewer, init);
        assert(edges[edges.len() - 1].len() == log[log.len() - 1].deps.len());
    }
}

/// Without top-level targets, and where every dependency was reported at
/// some time, the graph has one edge for each pair of a node and a
/// dependency that was reported.
pub proof fn lemma_edges_without_targets(log: Seq<NodeRecord>)
    requires
        forall|i: int, j: int|
            0 <= i < log.len() && 0 <= j < log[i].deps.len() ==> keys_of(log).contains(
                #[trigger] log[i].deps[j],
            ),
    ensures
        edge_count(build_graph(log, Seq::empty())) == edge_total(log),
{
    let keys = keys_of(log);
    let base = dependency_edges(log);
    let graph = build_graph(log, Seq::empty());
    assert(probes(keys, Seq::<VisibilityRecord>::empty()) == Seq::<(int, int)>::empty());
    assert forall|v: int| 0 <= v < graph.len() implies (#[trigger] graph[v]).len()
        == log[v].deps.len() by {
        assert(graph[v] == base[v]);
        assert forall|j: int| 0 <= j < log[v].deps.len() implies keys.contains(
            #[trigger] log[v].deps[j],
        ) by {}
        lemma_resolved_all(keys, log[v].deps);
    }
    lemma_edge_count_by_lengths(graph, log);
}

/// Every vertex that keys resolve to is the vertex of one of the keys.
proof fn lemma_resolved_is_named(keys: Seq<NodeKey>, named: Seq<NodeKey>, vertex: int)
    requires
        resolved(keys, named).contains(vertex),
    ensures
        0 <= vertex < keys.len(),
        named.contains(keys[vertex]),
    decreases named.len(),
{
    if named.len() > 0 {
        let init = named.drop_last();
        let before = resolved(keys, init);
        let all = resolved(keys, named);
        let k = choose|k: int| 0 <= k < all.len() && all[k] == vertex;
        if k < before.len() {
            assert(before[k] == vertex);
            lemma_resolved_is_named(keys, init, vertex);
            let j = choose|j: int| 0 <= j < init.len() && init[j] == keys[vertex];
            assert(named[j] == keys[vertex]);
        } else {
            assert(named[named.len() - 1] == keys[vertex]);
        }
    }
}

/// What an edge of the graph means.  Where the graph has an edge from one
/// node to another, the first was reported with the second among its
/// dependencies, or the second is the gating analysis of the first.
pub proof fn lemma_edge_meaning(
    log: Seq<NodeRecord>,
    targets: Seq<VisibilityRecord>,
    from: int,
    to: int,
)
    requires
        0 <= from < log.len(),
        build_graph(log, targets)[from].contains(to),
    ensures
        0 <= to < log.len(),
        log[from].deps.contains(log[to].key) || gating_analysis(
            keys_of(log),
            dependency_edges(log),
            probes(keys_of(log), targets),
            from,
        ) == Some(to),
{
    let keys = keys_of(log);
    let base = dependency_edges(log);
    let all = probes(keys, targets);
    let ends = build_graph(log, targets)[from];
    lemma_build_graph_closed(log, targets);
    let k = choose|k: int| 0 <= k < ends.len() && ends[k] == to;
    assert(0 <= ends[k] < log.len());
    if k < base[from].len() {
        assert(base[from][k] == to);
        assert(base[from].contains(to));
        lemma_resolved_is_named(keys, log[from].deps, to);
    }
}

} // verus!
