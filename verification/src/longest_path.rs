//! The longest-path backend: the graph is kept as it is reported, and the
//! critical path is asked of a longest-path computation when the build has
//! finished.
//!
//! The computation is not part of this library: whoever makes the backend
//! hands it a solver.  The backend prepares the graph for the solver, and
//! accepts of its answer only what is consistent with the graph.

use crate::backend::{node_record, unique_keys, BuildInfo, BuildListenerBackend, BuildListenerError};
use crate::data::{NodeData, RegisteredAction};
use crate::duration::{Duration, NodeDuration, NANOS_PER_MICRO};
use crate::graph::{
    add_visibility_edges, as_vertices, build_graph, closed_graph, count_edges, dependency_edges,
    edge_count, find_vertex, first_analysis, keys_of, lemma_gating_is_probed, probes, resolve,
    resolved, targets_of, Graph, VisibilityEdge,
};
use crate::indexed_keys::IndexedKeys;
use crate::key::{NodeKey, SpanId};
use crate::model::{distinct_records, NodeRecord, VisibilityRecord};
use std::sync::Arc;
use vstd::prelude::*;

verus! {

/// What a longest-path computation answers.
#[derive(Debug)]
pub struct CriticalPathPotentials {
    /// The vertices of the critical path, from its root to its terminal
    /// vertex.
    pub critical_path: Vec<usize>,
    /// The cost of the critical path: the durations of its vertices, added
    /// up.
    pub critical_path_cost: u64,
    /// For each vertex of the critical path, in the same order, the cost of
    /// the longest path of the graph had the vertex taken no time.
    pub replacement_durations: Vec<u64>,
}

/// A longest-path computation on a graph whose vertices have durations.
pub trait CriticalPathSolver {
    /// The critical path of the graph with its cost and, for each of its
    /// vertices, the cost of the longest path without the duration of that
    /// vertex; or `None` where the computation finds the graph inconsistent.
    fn compute_critical_path_potentials(&self, graph: &Graph, durations: &Vec<u64>) -> Option<
        CriticalPathPotentials,
    >;
}

/// The payloads of the records, in order.
pub open spec fn data_of(log: Seq<NodeRecord>) -> Seq<NodeData> {
    log.map_values(|record: NodeRecord| record.data)
}

/// The duration of a node in whole microseconds.
pub open spec fn micros(data: NodeData) -> nat {
    data.duration.cost() / (NANOS_PER_MICRO as nat)
}

/// The duration of every node fits in 64 bits of microseconds.
pub open spec fn durations_fit(data: Seq<NodeData>) -> bool {
    forall|v: int| 0 <= v < data.len() ==> micros(#[trigger] data[v]) <= u64::MAX
}

/// The durations of the vertices of a path, added up.
pub open spec fn path_cost(durations: Seq<u64>, path: Seq<int>) -> nat
    decreases path.len(),
{
    if path.len() == 0 {
        0
    } else {
        path_cost(durations, path.drop_last()) + durations[path.last()] as nat
    }
}

/// By how much the critical path is shorter with the replacement: their
/// difference, and no less than zero.
pub open spec fn potential(cost: u64, replacement: u64) -> nat {
    if cost >= replacement {
        (cost - replacement) as nat
    } else {
        0
    }
}

/// The answer is consistent with the graph: its path is a path of the graph
/// that meets no vertex twice, each vertex depending on the one before; its
/// cost is the cost of that path; and no vertex has a potential beyond its
/// duration.
pub open spec fn consistent(
    edges: Seq<Seq<int>>,
    durations: Seq<u64>,
    answer: CriticalPathPotentials,
) -> bool {
    let path = as_vertices(answer.critical_path@);
    &&& answer.replacement_durations@.len() == path.len()
    &&& forall|i: int| 0 <= i < path.len() ==> 0 <= #[trigger] path[i] < edges.len()
    &&& path.no_duplicates()
    &&& forall|i: int, j: int|
        0 <= i && j == i + 1 && j < path.len() ==> edges[#[trigger] path[j]].contains(
            #[trigger] path[i],
        )
    &&& path_cost(durations, path) == answer.critical_path_cost
    &&& forall|i: int|
        0 <= i < path.len() ==> potential(
            answer.critical_path_cost,
            #[trigger] answer.replacement_durations@[i],
        ) <= durations[path[i]]
}

/// A graph that is ready for the longest-path computation.
#[derive(Debug)]
pub struct PreparedGraph {
    /// The edges of the dependencies and of visibility.
    pub graph: Graph,
    /// The duration of each vertex in microseconds.
    pub durations: Vec<u64>,
    /// The key of each vertex.
    pub keys: Vec<NodeKey>,
    /// The payload of each vertex.
    pub data: Vec<NodeData>,
    /// The number of edges of the graph.
    pub num_edges: u64,
}

/// The critical path that an answer names, as a backend reports it: key and
/// payload of each vertex, with its potential as a duration.
pub open spec fn potentials_path(prepared: PreparedGraph, answer: CriticalPathPotentials) -> Seq<
    (NodeKey, NodeData, Option<Duration>),
> {
    Seq::new(
        answer.critical_path@.len(),
        |i: int|
            (
                prepared.keys@[answer.critical_path@[i] as int],
                prepared.data@[answer.critical_path@[i] as int],
                Some(
                    Duration::of_nanos(
                        potential(answer.critical_path_cost, answer.replacement_durations@[i])
                            * NANOS_PER_MICRO as nat,
                    ),
                ),
            ),
    )
}

/// What `assemble` returns for an answer: the critical path that a
/// consistent answer names, with the counts of the graph; and a failure of
/// the computation for no answer and for an inconsistent one.
pub open spec fn assembled(
    prepared: PreparedGraph,
    answer: Option<CriticalPathPotentials>,
    outcome: Result<BuildInfo, BuildListenerError>,
) -> bool {
    match answer {
        Some(found) if consistent(prepared.graph@, prepared.durations@, found) => {
            &&& outcome matches Ok(info)
            &&& info.critical_path@ == potentials_path(prepared, found)
            &&& info.num_nodes == prepared.keys@.len()
            &&& info.num_edges == prepared.num_edges
        },
        _ => outcome == Err::<BuildInfo, BuildListenerError>(BuildListenerError::ComputationFailure),
    }
}

/// The prepared graph is that of the records and the top-level targets.
pub open spec fn prepared_from(
    prepared: PreparedGraph,
    log: Seq<NodeRecord>,
    targets: Seq<VisibilityRecord>,
) -> bool {
    &&& prepared.wf()
    &&& prepared.keys@ == keys_of(log)
    &&& prepared.data@ == data_of(log)
    &&& prepared.graph@ == build_graph(log, targets)
}

/// What preparing the graph of the records and the top-level targets comes
/// to: a contract violation where a node was reported twice or the edges
/// cannot be counted in 64 bits, else an overflow where a duration does not
/// fit in 64 bits of microseconds, else the prepared graph.
pub open spec fn prepares(
    log: Seq<NodeRecord>,
    targets: Seq<VisibilityRecord>,
    outcome: Result<PreparedGraph, BuildListenerError>,
) -> bool {
    if !distinct_records(log) || edge_count(build_graph(log, targets)) > u64::MAX {
        outcome == Err::<PreparedGraph, BuildListenerError>(BuildListenerError::ContractViolation)
    } else if !durations_fit(data_of(log)) {
        outcome == Err::<PreparedGraph, BuildListenerError>(BuildListenerError::Overflow)
    } else {
        outcome matches Ok(prepared) && prepared_from(prepared, log, targets)
    }
}

impl PreparedGraph {
    /// The graph is valid: every vertex has a key, a payload, a duration and
    /// a list of edges, the duration is that of the payload, the edges end
    /// in vertices, and the number of edges is theirs.
    pub open spec fn wf(&self) -> bool {
        &&& self.graph@.len() == self.keys@.len()
        &&& self.data@.len() == self.keys@.len()
        &&& self.durations@.len() == self.keys@.len()
        &&& closed_graph(self.graph@)
        &&& self.num_edges == edge_count(self.graph@)
        &&& forall|v: int|
            0 <= v < self.data@.len() ==> (#[trigger] self.durations@[v]) == micros(self.data@[v])
    }

    /// Whether the answer is consistent with the graph.
    pub fn is_consistent(&self, answer: &CriticalPathPotentials) -> (ok: bool)
        requires
            self.wf(),
        ensures
            ok == consistent(self.graph@, self.durations@, *answer),
    {
        let ghost path = as_vertices(answer.critical_path@);
        let ghost edges = self.graph@;
        let n = self.keys.len();
        let m = answer.critical_path.len();
        if answer.replacement_durations.len() != m {
            return false;
        }
        let mut seen: Vec<bool> = Vec::new();
        let mut v: usize = 0;
        while v < n
            invariant
                v <= n,
                seen@.len() == v,
                forall|u: int| 0 <= u < v ==> !(#[trigger] seen@[u]),
            decreases n - v,
        {
            seen.push(false);
            v += 1;
        }
        let mut cost: u64 = 0;
        let mut i: usize = 0;
        assert(path.take(0) == Seq::<int>::empty());
        while i < m
            invariant
                i <= m,
                m == answer.critical_path@.len(),
                m == answer.replacement_durations@.len(),
                n == self.keys@.len(),
                self.wf(),
                path == as_vertices(answer.critical_path@),
                edges == self.graph@,
                seen@.len() == n,
                forall|u: int|
                    0 <= u < n ==> ((#[trigger] seen@[u]) <==> path.take(i as int).contains(u)),
                forall|k: int| 0 <= k < i ==> 0 <= #[trigger] path[k] < n,
                path.take(i as int).no_duplicates(),
                forall|j: int, k: int|
                    0 <= j && k == j + 1 && k < i ==> edges[#[trigger] path[k]].contains(
                        #[trigger] path[j],
                    ),
                cost == path_cost(self.durations@, path.take(i as int)),
                forall|k: int|
                    0 <= k < i ==> potential(
                        answer.critical_path_cost,
                        #[trigger] answer.replacement_durations@[k],
                    ) <= self.durations@[path[k]],
            decreases m - i,
        {
            let ghost done = path.take(i as int);
            let ghost next = path.take(i + 1);
            assert(next.drop_last() == done);
            assert(next.last() == path[i as int]);
            let vertex = answer.critical_path[i];
            if vertex >= n {
                assert(!(0 <= path[i as int] < edges.len()));
                return false;
            }
            if seen[vertex] {
                proof {
                    let k = choose|k: int| 0 <= k < done.len() && done[k] == vertex as int;
                    assert(path[k] == path[i as int] && k != i);
                }
                return false;
            }
            if i > 0 {
                let before = answer.critical_path[i - 1];
                if !has_edge(&self.graph, vertex, before) {
                    assert(!edges[path[i as int]].contains(path[i - 1]));
                    return false;
                }
            }
            match cost.checked_add(self.durations[vertex]) {
                Some(sum) => {
                    cost = sum;
                },
                None => {
                    proof {
                        lemma_path_cost_grows(self.durations@, path, i + 1);
                    }
                    return false;
                },
            }
            if answer.critical_path_cost.saturating_sub(answer.replacement_durations[i])
                > self.durations[vertex] {
                return false;
            }
            seen.set(vertex, true);
            proof {
                assert forall|u: int| 0 <= u < n implies ((#[trigger] seen@[u]) <==> next.contains(
                    u,
                )) by {
                    if done.contains(u) {
                        let k = choose|k: int| 0 <= k < done.len() && done[k] == u;
                        assert(next[k] == u);
                    }
                    if u == vertex {
                        assert(next[i as int] == u);
                    }
                    if next.contains(u) && u != vertex {
                        let k = choose|k: int| 0 <= k < next.len() && next[k] == u;
                        assert(done[k] == u);
                    }
                }
                assert forall|a: int, b: int| 0 <= a < b < next.len() implies next[a] != next[b] by {
                    if b < done.len() {
                        assert(done[a] != done[b]);
                    } else {
                        if next[a] == next[b] {
                            assert(done[a] == vertex);
                            assert(done.contains(vertex as int));
                        }
                    }
                }
            }
            i += 1;
        }
        assert(path.take(m as int) == path);
        cost == answer.critical_path_cost
    }

    /// The outcome of the build for an answer of the longest-path
    /// computation.
    pub fn assemble(self, answer: Option<CriticalPathPotentials>) -> (outcome: Result<
        BuildInfo,
        BuildListenerError,
    >)
        requires
            self.wf(),
        ensures
            assembled(self, answer, outcome),
    {
        let found = match answer {
            Some(found) => found,
            None => {
                return Err(BuildListenerError::ComputationFailure);
            },
        };
        if !self.is_consistent(&found) {
            return Err(BuildListenerError::ComputationFailure);
        }
        let ghost expected = potentials_path(self, found);
        let mut critical_path: Vec<(NodeKey, NodeData, Option<Duration>)> = Vec::new();
        let mut i: usize = 0;
        while i < found.critical_path.len()
            invariant
                i <= found.critical_path@.len(),
                consistent(self.graph@, self.durations@, found),
                self.wf(),
                expected == potentials_path(self, found),
                critical_path@.len() == i,
                forall|k: int| 0 <= k < i ==> #[trigger] critical_path@[k] == expected[k],
            decreases found.critical_path@.len() - i,
        {
            let vertex = found.critical_path[i];
            assert(0 <= as_vertices(found.critical_path@)[i as int] < self.graph@.len());
            let saved = found.critical_path_cost.saturating_sub(found.replacement_durations[i]);
            critical_path.push(
                (self.keys[vertex], self.data[vertex].dupe(), Some(Duration::from_micros(saved))),
            );
            i += 1;
        }
        assert(critical_path@ == expected);
        Ok(
            BuildInfo {
                critical_path,
                num_nodes: self.keys.len() as u64,
                num_edges: self.num_edges,
            },
        )
    }
}

/// Whether the graph has an edge from one vertex to another.
fn has_edge(graph: &Graph, from: usize, to: usize) -> (found: bool)
    requires
        from < graph@.len(),
    ensures
        found == graph@[from as int].contains(to as int),
{
    let ends = &graph.edges[from];
    let ghost list = graph@[from as int];
    assert(list == as_vertices(ends@));
    let mut j: usize = 0;
    while j < ends.len()
        invariant
            j <= ends.len(),
            from < graph@.len(),
            list == graph@[from as int],
            list == as_vertices(ends@),
            forall|k: int| 0 <= k < j ==> list[k] != to,
        decreases ends.len() - j,
    {
        if ends[j] == to {
            assert(list[j as int] == to);
            return true;
        }
        j += 1;
    }
    false
}

/// The first vertices of a path cost no more than the whole path.
pub proof fn lemma_path_cost_grows(durations: Seq<u64>, path: Seq<int>, n: int)
    requires
        0 <= n <= path.len(),
    ensures
        path_cost(durations, path.take(n)) <= path_cost(durations, path),
    decreases path.len() - n,
{
    if n < path.len() {
        lemma_path_cost_grows(durations, path, n + 1);
        assert(path.take(n + 1).drop_last() == path.take(n));
    } else {
        assert(path.take(n) == path);
    }
}

/// The records have distinct keys just when their keys hold none twice.
pub proof fn lemma_distinct_keys(log: Seq<NodeRecord>)
    ensures
        distinct_records(log) <==> keys_of(log).no_duplicates(),
{
    let keys = keys_of(log);
    if distinct_records(log) {
        assert forall|i: int, j: int| 0 <= i < keys.len() && 0 <= j < keys.len() && i != j implies keys[i]
            != keys[j] by {
            if i < j {
                assert(log[i].key != log[j].key);
            } else {
                assert(log[j].key != log[i].key);
            }
        }
    }
    if keys.no_duplicates() {
        assert forall|i: int, j: int| 0 <= i < j < log.len() implies (#[trigger] log[i]).key != (
        #[trigger] log[j]).key by {
            assert(keys[i] != keys[j]);
        }
    }
}

/// The vertices that keys resolve to are vertices.
pub proof fn lemma_resolved_in_range(keys: Seq<NodeKey>, named: Seq<NodeKey>)
    ensures
        forall|j: int|
            0 <= j < resolved(keys, named).len() ==> 0 <= #[trigger] resolved(keys, named)[j]
                < keys.len(),
    decreases named.len(),
{
    if named.len() > 0 {
        lemma_resolved_in_range(keys, named.drop_last());
        let before = resolved(keys, named.drop_last());
        let all = resolved(keys, named);
        assert forall|j: int| 0 <= j < all.len() implies 0 <= #[trigger] all[j] < keys.len() by {
            if j < before.len() {
                assert(all[j] == before[j]);
            }
        }
    }
}

/// The analysis and the root of every probe are vertices.
pub proof fn lemma_probes_in_range(keys: Seq<NodeKey>, targets: Seq<VisibilityRecord>)
    ensures
        forall|k: int|
            0 <= k < probes(keys, targets).len() ==> {
                &&& 0 <= (#[trigger] probes(keys, targets)[k]).0 < keys.len()
                &&& 0 <= probes(keys, targets)[k].1 < keys.len()
            },
    decreases targets.len(),
{
    if targets.len() > 0 {
        lemma_probes_in_range(keys, targets.drop_last());
        let before = probes(keys, targets.drop_last());
        let all = probes(keys, targets);
        let target = targets.last();
        lemma_resolved_in_range(keys, target.makes_visible);
        assert forall|k: int| 0 <= k < all.len() implies {
            &&& 0 <= (#[trigger] all[k]).0 < keys.len()
            &&& 0 <= all[k].1 < keys.len()
        } by {
            if k < before.len() {
                assert(all[k] == before[k]);
            } else {
                let roots = resolved(keys, target.makes_visible);
                assert(all[k] == (keys.index_of(target.node), roots[k - before.len()]));
            }
        }
    }
}

/// The graph of the records and the top-level targets has an edge list for
/// each record, and its edges end in vertices.
pub proof fn lemma_build_graph_closed(log: Seq<NodeRecord>, targets: Seq<VisibilityRecord>)
    ensures
        build_graph(log, targets).len() == log.len(),
        closed_graph(build_graph(log, targets)),
{
    let keys = keys_of(log);
    let base = dependency_edges(log);
    let all = probes(keys, targets);
    let graph = build_graph(log, targets);
    lemma_probes_in_range(keys, targets);
    assert forall|v: int, j: int|
        0 <= v < graph.len() && 0 <= j < graph[v].len() implies 0 <= #[trigger] graph[v][j]
        < graph.len() by {
        lemma_resolved_in_range(keys, log[v].deps);
        if j < base[v].len() {
            assert(graph[v][j] == base[v][j]);
        } else {
            lemma_gating_is_probed(keys, base, all, v);
        }
    }
}

/// Prepares the graph of the nodes and the top-level targets for the
/// longest-path computation.
fn prepare_graph(
    keys: IndexedKeys<NodeKey>,
    data: Vec<NodeData>,
    deps: Vec<Vec<NodeKey>>,
    top_level: Vec<VisibilityEdge>,
    Ghost(log): Ghost<Seq<NodeRecord>>,
) -> (outcome: Result<PreparedGraph, BuildListenerError>)
    requires
        distinct_records(log),
        keys.wf(),
        keys@ == keys_of(log),
        data@ == data_of(log),
        deps@.len() == log.len(),
        forall|v: int| 0 <= v < log.len() ==> (#[trigger] deps@[v])@ == log[v].deps,
    ensures
        prepares(log, targets_of(top_level@), outcome),
{
    let ghost targets = targets_of(top_level@);
    proof {
        lemma_distinct_keys(log);
        lemma_build_graph_closed(log, targets);
    }
    let mut edges: Vec<Vec<usize>> = Vec::new();
    let mut v: usize = 0;
    while v < deps.len()
        invariant
            v <= deps.len(),
            deps@.len() == log.len(),
            keys@ == keys_of(log),
            keys.wf(),
            forall|u: int| 0 <= u < log.len() ==> (#[trigger] deps@[u])@ == log[u].deps,
            edges@.len() == v,
            forall|u: int|
                0 <= u < v ==> as_vertices((#[trigger] edges@[u])@) == resolved(keys@, log[u].deps),
        decreases deps.len() - v,
    {
        let ends = resolve(&keys, &deps[v]);
        edges.push(ends);
        v += 1;
    }
    let base = Graph { edges };
    assert(base@ == dependency_edges(log)) by {
        assert forall|u: int| 0 <= u < log.len() implies #[trigger] base@[u] == dependency_edges(
            log,
        )[u] by {
            let e = base.edges@[u];
        }
    }
    assert(closed_graph(base@)) by {
        assert forall|u: int, j: int|
            0 <= u < base@.len() && 0 <= j < base@[u].len() implies 0 <= #[trigger] base@[u][j]
            < base@.len() by {
            lemma_resolved_in_range(keys@, log[u].deps);
        }
    }
    let slots = first_analysis(&keys, &base, &top_level);
    let graph = add_visibility_edges(&base, &slots);
    assert(graph@ == build_graph(log, targets)) by {
        assert forall|u: int| 0 <= u < log.len() implies #[trigger] graph@[u] == build_graph(
            log,
            targets,
        )[u] by {
            let slot = slots@[u];
        }
    }
    let num_edges = match count_edges(&graph) {
        Some(count) => count,
        None => {
            return Err(BuildListenerError::ContractViolation);
        },
    };
    let mut durations: Vec<u64> = Vec::new();
    let mut i: usize = 0;
    while i < data.len()
        invariant
            i <= data.len(),
            data@ == data_of(log),
            distinct_records(log),
            targets == targets_of(top_level@),
            edge_count(build_graph(log, targets)) <= u64::MAX,
            durations@.len() == i,
            forall|u: int| 0 <= u < i ==> (#[trigger] durations@[u]) == micros(data@[u]),
        decreases data.len() - i,
    {
        let whole = data[i].duration.critical_path_duration().as_micros();
        if whole > u64::MAX as u128 {
            assert(micros(data@[i as int]) > u64::MAX);
            assert(!durations_fit(data_of(log)));
            return Err(BuildListenerError::Overflow);
        }
        durations.push(whole as u64);
        i += 1;
    }
    assert(durations_fit(data@)) by {
        assert forall|u: int| 0 <= u < data@.len() implies micros(#[trigger] data@[u]) <= u64::MAX by {
            let d = durations@[u];
        }
    }
    Ok(PreparedGraph { graph, durations, keys: keys.into_keys(), data, num_edges })
}

/// What `finish` of the longest-path backend may return: what preparing the
/// graph fails with, or else what `assemble` returns for some answer of the
/// longest-path computation.
pub open spec fn longest_path_outcome(
    log: Seq<NodeRecord>,
    targets: Seq<VisibilityRecord>,
    outcome: Result<BuildInfo, BuildListenerError>,
) -> bool {
    if !distinct_records(log) || edge_count(build_graph(log, targets)) > u64::MAX {
        outcome == Err::<BuildInfo, BuildListenerError>(BuildListenerError::ContractViolation)
    } else if !durations_fit(data_of(log)) {
        outcome == Err::<BuildInfo, BuildListenerError>(BuildListenerError::Overflow)
    } else {
        exists|prepared: PreparedGraph, answer: Option<CriticalPathPotentials>|
            prepared_from(prepared, log, targets) && #[trigger] assembled(prepared, answer, outcome)
    }
}

/// The backend that keeps the graph and asks a longest-path computation for
/// the critical path and the potential of each of its nodes.
///
/// Once a node has been reported twice, the backend keeps nothing more, and
/// `finish` fails.
pub struct LongestPathGraphBackend<S> {
    solver: S,
    keys: IndexedKeys<NodeKey>,
    data: Vec<NodeData>,
    deps: Vec<Vec<NodeKey>>,
    failed: Option<BuildListenerError>,
    top_level_analysis: Vec<VisibilityEdge>,
    log: Ghost<Seq<NodeRecord>>,
}

impl<S: CriticalPathSolver> LongestPathGraphBackend<S> {
    /// A backend that has been told of nothing, in front of `solver`.
    pub fn new(solver: S) -> (backend: Self)
        ensures
            backend.wf(),
            backend.recorded().len() == 0,
            backend.visibility().len() == 0,
    {
        let backend = LongestPathGraphBackend {
            solver,
            keys: IndexedKeys::new(),
            data: Vec::new(),
            deps: Vec::new(),
            failed: None,
            top_level_analysis: Vec::new(),
            log: Ghost(Seq::empty()),
        };
        assert(backend.keys@ == keys_of(backend.log@));
        assert(backend.data@ == data_of(backend.log@));
        backend
    }

    /// Ends the accumulation and prepares the graph for a longest-path
    /// computation that is run elsewhere.
    pub fn prepare(self) -> (outcome: Result<PreparedGraph, BuildListenerError>)
        requires
            self.wf(),
        ensures
            prepares(self.recorded(), self.visibility(), outcome),
    {
        let LongestPathGraphBackend { solver, keys, data, deps, failed, top_level_analysis, log } =
            self;
        match failed {
            Some(error) => Err(error),
            None => prepare_graph(keys, data, deps, top_level_analysis, log),
        }
    }
}

impl<S: CriticalPathSolver> BuildListenerBackend for LongestPathGraphBackend<S> {
    closed spec fn wf(&self) -> bool {
        match self.failed {
            Some(error) => error == BuildListenerError::ContractViolation && !distinct_records(
                self.log@,
            ),
            None => {
                &&& distinct_records(self.log@)
                &&& self.keys.wf()
                &&& self.keys@ == keys_of(self.log@)
                &&& self.data@ == data_of(self.log@)
                &&& self.deps@.len() == self.log@.len()
                &&& forall|v: int|
                    0 <= v < self.log@.len() ==> (#[trigger] self.deps@[v])@ == self.log@[v].deps
            },
        }
    }

    closed spec fn recorded(&self) -> Seq<NodeRecord> {
        self.log@
    }

    closed spec fn visibility(&self) -> Seq<VisibilityRecord> {
        targets_of(self.top_level_analysis@)
    }

    open spec fn accepts(recorded: Seq<NodeRecord>, duration: NodeDuration, deps: Seq<NodeKey>) -> bool {
        true
    }

    open spec fn finishes_with(
        recorded: Seq<NodeRecord>,
        visibility: Seq<VisibilityRecord>,
        outcome: Result<BuildInfo, BuildListenerError>,
    ) -> bool {
        longest_path_outcome(recorded, visibility, outcome)
    }

    fn accepts_node(&self, duration: &NodeDuration, dep_keys: &Vec<NodeKey>) -> (ok: bool) {
        true
    }

    fn process_node(
        &mut self,
        key: NodeKey,
        action: Option<Arc<RegisteredAction>>,
        duration: NodeDuration,
        dep_keys: Vec<NodeKey>,
        span_id: Option<SpanId>,
    ) {
        let ghost record = node_record(key, action, duration, dep_keys@, span_id);
        let ghost before = self.log@;
        let ghost after = before.push(record);
        proof {
            lemma_distinct_keys(before);
            lemma_distinct_keys(after);
            assert(keys_of(after) == keys_of(before).push(key));
            assert(data_of(after) == data_of(before).push(record.data));
        }
        if self.failed.is_none() {
            match find_vertex(&self.keys, key) {
                Some(first) => {
                    self.failed = Some(BuildListenerError::ContractViolation);
                    assert(keys_of(after)[first as int] == keys_of(after)[before.len() as int]);
                },
                None => {
                    let deps = unique_keys(&dep_keys);
                    self.keys.push(key);
                    self.data.push(NodeData { action, duration, span_id });
                    self.deps.push(deps);
                    assert forall|i: int, j: int|
                        0 <= i < keys_of(after).len() && 0 <= j < keys_of(after).len() && i
                            != j implies keys_of(after)[i] != keys_of(after)[j] by {
                        if i < before.len() && j < before.len() {
                            assert(keys_of(before)[i] != keys_of(before)[j]);
                        } else if i < before.len() {
                            assert(keys_of(before).contains(keys_of(before)[i]));
                        } else {
                            assert(keys_of(before).contains(keys_of(before)[j]));
                        }
                    }
                },
            }
        } else {
            assert(!distinct_records(after)) by {
                if distinct_records(after) {
                    assert forall|i: int, j: int| 0 <= i < j < before.len() implies (
                    #[trigger] before[i]).key != (#[trigger] before[j]).key by {
                        assert(after[i].key != after[j].key);
                    }
                }
            }
        }
        proof {
            self.log = Ghost(after);
        }
    }

    fn process_top_level_target(&mut self, analysis: NodeKey, artifacts: Vec<NodeKey>) {
        let ghost before = targets_of(self.top_level_analysis@);
        let edge = VisibilityEdge { node: analysis, makes_visible: artifacts };
        self.top_level_analysis.push(edge);
        assert(targets_of(self.top_level_analysis@) == before.push(edge@));
    }

    fn finish(self) -> (outcome: Result<BuildInfo, BuildListenerError>) {
        let ghost recorded = self.recorded();
        let ghost visibility = self.visibility();
        let LongestPathGraphBackend { solver, keys, data, deps, failed, top_level_analysis, log } =
            self;
        let prepared = match failed {
            Some(error) => {
                return Err(error);
            },
            None => match prepare_graph(keys, data, deps, top_level_analysis, log) {
                Ok(prepared) => prepared,
                Err(error) => {
                    return Err(error);
                },
            },
        };
        let answer = solver.compute_critical_path_potentials(&prepared.graph, &prepared.durations);
        let ghost prepared_graph = prepared;
        let ghost given = answer;
        let outcome = prepared.assemble(answer);
        assert(prepared_from(prepared_graph, recorded, visibility) && assembled(
            prepared_graph,
            given,
            outcome,
        ));
        outcome
    }
}

} // verus!
