use build_signals::backend::{BuildListenerBackend, BuildListenerError};
use build_signals::data::{Artifact, ArtifactGroup, ConfiguredTargetNode, NodeData, RegisteredAction};
use build_signals::duration::{Duration, NodeDuration};
use build_signals::graph::{
    add_visibility_edges, count_edges, find_vertex, first_analysis, resolve, Graph, VisibilityEdge,
};
use build_signals::indexed_keys::IndexedKeys;
use build_signals::key::{
    ActionKey, AnonTarget, BaseDeferredKey, ConfiguredTargetLabel, NodeKey,
    TransitiveSetProjectionKey,
};
use build_signals::longest_path::{
    CriticalPathPotentials, CriticalPathSolver, LongestPathGraphBackend, PreparedGraph,
};
use build_signals::receiver::BuildSignalReceiver;
use build_signals::report::Entry;
use build_signals::signal::{
    ActionExecutionSignal, AnalysisSignal, BuildSignal, TopLevelTargetSignal,
    TransitiveSetComputationSignal,
};
use std::sync::Arc;

/// A plain longest-path computation: the graph is walked from each vertex
/// along its edges, and a circle is an inconsistency.
struct PlainSolver;

fn longest_to(
    graph: &Graph,
    durations: &[u64],
    vertex: usize,
    state: &mut Vec<u8>,
    cost: &mut Vec<u64>,
    prev: &mut Vec<Option<usize>>,
) -> Option<u64> {
    match state[vertex] {
        2 => return Some(cost[vertex]),
        1 => return None,
        _ => {}
    }
    state[vertex] = 1;
    let mut best: Option<(usize, u64)> = None;
    for &dep in &graph.edges[vertex] {
        let through = longest_to(graph, durations, dep, state, cost, prev)?;
        if best.map_or(true, |(_, longest)| through > longest) {
            best = Some((dep, through));
        }
    }
    state[vertex] = 2;
    prev[vertex] = best.map(|(dep, _)| dep);
    cost[vertex] = durations[vertex] + best.map_or(0, |(_, longest)| longest);
    Some(cost[vertex])
}

fn longest_path(graph: &Graph, durations: &[u64]) -> Option<(Vec<usize>, u64)> {
    let n = graph.edges.len();
    let mut state = vec![0u8; n];
    let mut cost = vec![0u64; n];
    let mut prev = vec![None; n];
    let mut terminal: Option<usize> = None;
    for vertex in 0..n {
        let through = longest_to(graph, durations, vertex, &mut state, &mut cost, &mut prev)?;
        if terminal.map_or(true, |t| through > cost[t]) {
            terminal = Some(vertex);
        }
    }
    let mut path = Vec::new();
    let mut at = terminal;
    while let Some(vertex) = at {
        path.push(vertex);
        at = prev[vertex];
    }
    path.reverse();
    Some((path, terminal.map_or(0, |t| cost[t])))
}

impl CriticalPathSolver for PlainSolver {
    fn compute_critical_path_potentials(
        &self,
        graph: &Graph,
        durations: &Vec<u64>,
    ) -> Option<CriticalPathPotentials> {
        let (critical_path, critical_path_cost) = longest_path(graph, durations)?;
        let mut replacement_durations = Vec::new();
        for &vertex in &critical_path {
            let mut without = durations.clone();
            without[vertex] = 0;
            replacement_durations.push(longest_path(graph, &without)?.1);
        }
        Some(CriticalPathPotentials {
            critical_path,
            critical_path_cost,
            replacement_durations,
        })
    }
}

/// A computation that answers what it was made with, whatever the graph.
struct Canned(Option<(Vec<usize>, u64, Vec<u64>)>);

impl CriticalPathSolver for Canned {
    fn compute_critical_path_potentials(
        &self,
        _graph: &Graph,
        _durations: &Vec<u64>,
    ) -> Option<CriticalPathPotentials> {
        self.0
            .clone()
            .map(|(critical_path, critical_path_cost, replacement_durations)| {
                CriticalPathPotentials {
                    critical_path,
                    critical_path_cost,
                    replacement_durations,
                }
            })
    }
}

fn secs(secs: u64) -> NodeDuration {
    NodeDuration {
        user: Duration::from_secs(secs),
        total: Duration::from_secs(secs + 1),
    }
}

fn anon_key(id: u64) -> ActionKey {
    ActionKey {
        owner: BaseDeferredKey::AnonTarget(AnonTarget(7)),
        id,
    }
}

fn node(id: u64) -> NodeKey {
    NodeKey::ActionKey(anon_key(id))
}

fn output_of(key: ActionKey) -> ArtifactGroup {
    ArtifactGroup::Artifact(Artifact {
        action_key: Some(key),
    })
}

fn execution(key: ActionKey, inputs: Vec<ArtifactGroup>, seconds: u64) -> BuildSignal {
    BuildSignal::ActionExecution(ActionExecutionSignal {
        action: Arc::new(RegisteredAction {
            key,
            inputs,
            category: "link".to_owned(),
            identifier: None,
        }),
        duration: secs(seconds),
        span_id: None,
    })
}

fn tell<S: CriticalPathSolver>(
    backend: &mut LongestPathGraphBackend<S>,
    key: NodeKey,
    seconds: u64,
    deps: Vec<NodeKey>,
) {
    backend.process_node(key, None, secs(seconds), deps, None);
}

fn table(keys: &[NodeKey]) -> IndexedKeys<NodeKey> {
    let mut table = IndexedKeys::new();
    for key in keys {
        assert_eq!(table.find(key), None);
        table.push(*key);
    }
    table
}

const SECOND: u64 = 1_000_000;

#[test]
fn empty_graph_has_an_empty_path() {
    let info = LongestPathGraphBackend::new(PlainSolver).finish().unwrap();
    assert!(info.critical_path.is_empty());
    assert_eq!(info.num_nodes, 0);
    assert_eq!(info.num_edges, 0);

    let report = BuildSignalReceiver::new(LongestPathGraphBackend::new(PlainSolver))
        .run_and_log(vec![BuildSignal::BuildFinished])
        .unwrap();
    assert!(report.critical_path2.is_empty());
    assert_eq!(report.num_nodes, 0);
    assert_eq!(report.num_edges, 0);
}

#[test]
fn unit_path_carries_the_potential_that_the_computation_names() {
    let a = node(1);
    let mut backend = LongestPathGraphBackend::new(Canned(Some((
        vec![0],
        3 * SECOND,
        vec![3 * SECOND],
    ))));
    tell(&mut backend, a, 3, vec![]);
    let info = backend.finish().unwrap();
    assert_eq!(info.critical_path.len(), 1);
    assert_eq!(info.critical_path[0].0, a);
    assert_eq!(info.critical_path[0].1.duration.user, Duration::from_secs(3));
    assert_eq!(info.critical_path[0].2, Some(Duration::from_secs(0)));
    assert_eq!(info.num_nodes, 1);
    assert_eq!(info.num_edges, 0);
}

#[test]
fn potential_is_cost_less_replacement() {
    let mut backend = LongestPathGraphBackend::new(PlainSolver);
    tell(&mut backend, node(1), 5, vec![]);
    tell(&mut backend, node(2), 6, vec![node(1)]);
    tell(&mut backend, node(4), 9, vec![node(1)]);
    let info = backend.finish().unwrap();
    let keys: Vec<NodeKey> = info.critical_path.iter().map(|n| n.0).collect();
    assert_eq!(keys, vec![node(1), node(4)]);
    // Without the 5 s of the first node the longest path takes 9 s; without
    // the 9 s of the second, the other branch takes 11 s.
    assert_eq!(info.critical_path[0].2, Some(Duration::from_micros(5 * SECOND)));
    assert_eq!(info.critical_path[1].2, Some(Duration::from_micros(3 * SECOND)));
    assert_eq!(info.num_nodes, 3);
    assert_eq!(info.num_edges, 2);
}

#[test]
fn linear_chain_through_the_receiver() {
    let (a, b, c) = (anon_key(1), anon_key(2), anon_key(3));
    let report = BuildSignalReceiver::new(LongestPathGraphBackend::new(PlainSolver))
        .run_and_log(vec![
            execution(a, vec![], 5),
            execution(b, vec![output_of(a)], 6),
            execution(c, vec![output_of(b)], 7),
            BuildSignal::BuildFinished,
        ])
        .unwrap();
    let durations: Vec<Duration> = report.critical_path2.iter().map(|e| e.duration).collect();
    assert_eq!(
        durations,
        vec![
            Duration::from_secs(5),
            Duration::from_secs(6),
            Duration::from_secs(7)
        ]
    );
    assert_eq!(report.critical_path2[0].total_duration, Duration::from_secs(6));
    assert_eq!(
        report.critical_path2[2].potential_improvement_duration,
        Some(Duration::from_secs(7))
    );
    match &report.critical_path2[0].entry {
        Entry::ActionExecution { name, .. } => {
            assert_eq!(name.category, "link");
            assert_eq!(name.identifier, "");
        }
        Entry::Analysis { .. } => panic!("an action was reported"),
    }
    assert_eq!(report.num_nodes, 3);
    assert_eq!(report.num_edges, 2);
    assert!(!report.uses_total_duration);
}

#[test]
fn forward_reference_is_an_edge_and_an_unseen_key_is_none() {
    let mut backend = LongestPathGraphBackend::new(PlainSolver);
    // The second node is named before it is reported; the third never is.
    tell(&mut backend, node(1), 6, vec![node(2), node(3), node(2)]);
    tell(&mut backend, node(2), 5, vec![]);
    let prepared = backend.prepare().unwrap();
    assert_eq!(prepared.graph.edges, vec![vec![1], vec![]]);
    assert_eq!(prepared.durations, vec![6 * SECOND, 5 * SECOND]);
    assert_eq!(prepared.keys, vec![node(1), node(2)]);
    assert_eq!(prepared.num_edges, 1);
    let info = prepared
        .assemble(PlainSolver.compute_critical_path_potentials(
            &Graph {
                edges: vec![vec![1], vec![]],
            },
            &vec![6 * SECOND, 5 * SECOND],
        ))
        .unwrap();
    let keys: Vec<NodeKey> = info.critical_path.iter().map(|n| n.0).collect();
    assert_eq!(keys, vec![node(2), node(1)]);
}

#[test]
fn top_level_target_puts_the_analysis_before_what_it_reveals() {
    let label = ConfiguredTargetLabel(5);
    let x = anon_key(1);
    let signals = |with_target: bool| {
        let mut signals = vec![BuildSignal::Analysis(AnalysisSignal {
            label,
            node: ConfiguredTargetNode { deps: vec![] },
            duration: secs(2),
            span_id: None,
        })];
        if with_target {
            signals.push(BuildSignal::TopLevelTarget(TopLevelTargetSignal {
                label,
                artifacts: vec![output_of(x)],
            }));
        }
        signals.push(execution(x, vec![], 3));
        signals.push(BuildSignal::BuildFinished);
        signals
    };

    let without = BuildSignalReceiver::new(LongestPathGraphBackend::new(PlainSolver))
        .run_and_log(signals(false))
        .unwrap();
    let durations: Vec<Duration> = without.critical_path2.iter().map(|e| e.duration).collect();
    assert_eq!(durations, vec![Duration::from_secs(3)]);
    assert_eq!(without.num_edges, 0);

    let with = BuildSignalReceiver::new(LongestPathGraphBackend::new(PlainSolver))
        .run_and_log(signals(true))
        .unwrap();
    let durations: Vec<Duration> = with.critical_path2.iter().map(|e| e.duration).collect();
    assert_eq!(durations, vec![Duration::from_secs(2), Duration::from_secs(3)]);
    assert!(matches!(
        with.critical_path2[0].entry,
        Entry::Analysis { target } if target == label
    ));
    assert_eq!(with.num_nodes, 2);
    assert_eq!(with.num_edges, 1);
}

#[test]
fn gates_spread_along_edges_and_stop_at_analyses() {
    let t = NodeKey::Analysis(ConfiguredTargetLabel(1));
    let u = NodeKey::Analysis(ConfiguredTargetLabel(2));
    let set = NodeKey::TransitiveSetProjection(TransitiveSetProjectionKey {
        set: 3,
        projection: 0,
    });
    // 0: t, 1: u, 2: x -> set, u; 3: set -> y; 4: y; 5: z (not revealed)
    let keys = table(&[t, u, node(1), set, node(2), node(3)]);
    let graph = Graph {
        edges: vec![vec![], vec![], vec![3, 1], vec![4], vec![], vec![4]],
    };
    let top_level = vec![
        VisibilityEdge {
            node: NodeKey::Analysis(ConfiguredTargetLabel(9)),
            makes_visible: vec![node(3)],
        },
        VisibilityEdge {
            node: u,
            makes_visible: vec![node(7), set],
        },
        VisibilityEdge {
            node: t,
            makes_visible: vec![node(1), u],
        },
    ];
    let slots = first_analysis(&keys, &graph, &top_level);
    assert_eq!(slots, vec![None, None, Some(0), Some(1), Some(1), None]);
    let gated = add_visibility_edges(&graph, &slots);
    assert_eq!(
        gated.edges,
        vec![vec![], vec![], vec![3, 1, 0], vec![4, 1], vec![1], vec![4]]
    );
    assert_eq!(count_edges(&gated), Some(7));
    assert_eq!(find_vertex(&keys, set), Some(3));
    assert_eq!(find_vertex(&keys, node(7)), None);
    assert_eq!(resolve(&keys, &vec![node(7), node(2), t, node(2)]), vec![4, 0, 4]);
}

#[test]
fn transitive_set_projection_is_kept_out_of_the_report() {
    let a = anon_key(1);
    let c = anon_key(3);
    let set = TransitiveSetProjectionKey { set: 8, projection: 0 };
    let report = BuildSignalReceiver::new(LongestPathGraphBackend::new(PlainSolver))
        .run_and_log(vec![
            execution(a, vec![], 5),
            BuildSignal::TransitiveSetComputation(TransitiveSetComputationSignal {
                key: set,
                artifacts: vec![a],
                set_deps: vec![],
            }),
            execution(c, vec![ArtifactGroup::TransitiveSetProjection(set)], 7),
            BuildSignal::BuildFinished,
        ])
        .unwrap();
    assert_eq!(report.num_nodes, 3);
    assert_eq!(report.critical_path2.len(), 2);
    assert!(report
        .critical_path2
        .iter()
        .all(|entry| matches!(entry.entry, Entry::ActionExecution { .. })));
}

#[test]
fn node_reported_twice_is_a_contract_violation() {
    let mut backend = LongestPathGraphBackend::new(PlainSolver);
    tell(&mut backend, node(1), 5, vec![]);
    tell(&mut backend, node(1), 6, vec![]);
    tell(&mut backend, node(2), 7, vec![node(1)]);
    assert_eq!(
        backend.finish().unwrap_err(),
        BuildListenerError::ContractViolation
    );
}

#[test]
fn duration_beyond_64_bits_of_microseconds_is_an_overflow() {
    let long = NodeDuration {
        user: Duration::from_nanos((u64::MAX as u128 + 1) * 1000),
        total: Duration::from_nanos((u64::MAX as u128 + 1) * 1000),
    };
    let mut backend = LongestPathGraphBackend::new(PlainSolver);
    backend.process_node(node(1), None, long, vec![], None);
    assert_eq!(backend.finish().unwrap_err(), BuildListenerError::Overflow);

    let fits = NodeDuration {
        user: Duration::from_nanos((u64::MAX as u128) * 1000 + 999),
        total: Duration::from_secs(0),
    };
    let mut backend = LongestPathGraphBackend::new(Canned(Some((vec![0], u64::MAX, vec![0]))));
    backend.process_node(node(1), None, fits, vec![], None);
    let info = backend.finish().unwrap();
    assert_eq!(info.critical_path[0].2, Some(Duration::from_micros(u64::MAX)));

    let report = BuildSignalReceiver::new(LongestPathGraphBackend::new(PlainSolver))
        .run_and_log(vec![
            BuildSignal::ActionExecution(ActionExecutionSignal {
                action: Arc::new(RegisteredAction {
                    key: anon_key(1),
                    inputs: vec![],
                    category: "link".to_owned(),
                    identifier: None,
                }),
                duration: long,
                span_id: None,
            }),
            BuildSignal::BuildFinished,
        ]);
    assert_eq!(report.unwrap_err(), BuildListenerError::Overflow);
}

fn two_vertex_graph() -> PreparedGraph {
    let data = |seconds| NodeData {
        action: None,
        duration: secs(seconds),
        span_id: None,
    };
    PreparedGraph {
        graph: Graph {
            edges: vec![vec![], vec![0]],
        },
        durations: vec![2 * SECOND, 3 * SECOND],
        keys: vec![node(1), node(2)],
        data: vec![data(2), data(3)],
        num_edges: 1,
    }
}

fn answer(path: Vec<usize>, cost: u64, replacement: Vec<u64>) -> Option<CriticalPathPotentials> {
    Some(CriticalPathPotentials {
        critical_path: path,
        critical_path_cost: cost,
        replacement_durations: replacement,
    })
}

#[test]
fn consistent_answer_is_assembled() {
    let info = two_vertex_graph()
        .assemble(answer(vec![0, 1], 5 * SECOND, vec![3 * SECOND, 6 * SECOND]))
        .unwrap();
    assert_eq!(info.critical_path.len(), 2);
    assert_eq!(info.critical_path[0].0, node(1));
    assert_eq!(info.critical_path[1].0, node(2));
    assert_eq!(info.critical_path[0].2, Some(Duration::from_secs(2)));
    // A replacement beyond the cost leaves a potential of zero.
    assert_eq!(info.critical_path[1].2, Some(Duration::from_secs(0)));
    assert_eq!(info.num_nodes, 2);
    assert_eq!(info.num_edges, 1);
}

#[test]
fn no_answer_and_inconsistent_answers_are_computation_failures() {
    let failure = Err(BuildListenerError::ComputationFailure);
    let check = |given: Option<CriticalPathPotentials>| {
        assert_eq!(two_vertex_graph().assemble(given).map(|_| ()), failure);
    };
    check(None);
    // A vertex that the graph does not have.
    check(answer(vec![0, 2], 5 * SECOND, vec![0, 0]));
    // A vertex twice.
    check(answer(vec![0, 0], 4 * SECOND, vec![4 * SECOND, 4 * SECOND]));
    // No edge from the second vertex of the path to the first.
    check(answer(vec![1, 0], 5 * SECOND, vec![3 * SECOND, 3 * SECOND]));
    // A cost that is not that of the path.
    check(answer(vec![0, 1], 6 * SECOND, vec![4 * SECOND, 4 * SECOND]));
    // A potential beyond the duration of the vertex.
    check(answer(vec![0, 1], 5 * SECOND, vec![2 * SECOND, 3 * SECOND]));
    // Not one replacement for each vertex.
    check(answer(vec![0, 1], 5 * SECOND, vec![3 * SECOND]));
    assert!(two_vertex_graph().is_consistent(&answer(vec![1], 3 * SECOND, vec![0]).unwrap()));

    let mut backend = LongestPathGraphBackend::new(Canned(None));
    tell(&mut backend, node(1), 3, vec![]);
    assert_eq!(
        backend.finish().unwrap_err(),
        BuildListenerError::ComputationFailure
    );
}

#[test]
fn circle_in_the_graph_is_a_computation_failure() {
    let mut backend = LongestPathGraphBackend::new(PlainSolver);
    tell(&mut backend, node(1), 3, vec![node(2)]);
    tell(&mut backend, node(2), 3, vec![node(1)]);
    assert_eq!(
        backend.finish().unwrap_err(),
        BuildListenerError::ComputationFailure
    );
}

#[test]
fn graph_is_the_same_in_another_order_but_for_the_numbers() {
    let t = NodeKey::Analysis(ConfiguredTargetLabel(1));
    let nodes: Vec<(NodeKey, u64, Vec<NodeKey>)> = vec![
        (t, 2, vec![]),
        (node(1), 5, vec![]),
        (node(2), 6, vec![node(1), node(9)]),
        (node(3), 1, vec![node(2), node(1)]),
    ];
    let prepare = |order: &[usize]| {
        let mut backend = LongestPathGraphBackend::new(PlainSolver);
        for place in order {
            let (key, seconds, deps) = nodes[*place].clone();
            tell(&mut backend, key, seconds, deps);
        }
        backend.process_top_level_target(t, vec![node(3)]);
        backend.prepare().unwrap()
    };
    let first = prepare(&[0, 1, 2, 3]);
    let second = prepare(&[3, 2, 0, 1]);
    assert_eq!(
        first.graph.edges,
        vec![vec![], vec![0], vec![1, 0], vec![2, 1, 0]]
    );
    assert_eq!(first.num_edges, 6);
    assert_eq!(second.num_edges, 6);
    for (vertex, key) in first.keys.iter().enumerate() {
        let moved = second.keys.iter().position(|other| other == key).unwrap();
        let ends: Vec<NodeKey> = first.graph.edges[vertex]
            .iter()
            .map(|end| first.keys[*end])
            .collect();
        let moved_ends: Vec<NodeKey> = second.graph.edges[moved]
            .iter()
            .map(|end| second.keys[*end])
            .collect();
        assert_eq!(ends, moved_ends);
        assert_eq!(first.durations[vertex], second.durations[moved]);
    }
    let cost = |prepared: &PreparedGraph| {
        PlainSolver
            .compute_critical_path_potentials(&prepared.graph, &prepared.durations)
            .unwrap()
            .critical_path_cost
    };
    assert_eq!(cost(&first), 14 * SECOND);
    assert_eq!(cost(&second), 14 * SECOND);
}
