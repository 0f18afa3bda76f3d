use build_signals::backend::{BuildInfo, BuildListenerBackend, BuildListenerError};
use build_signals::config::longest_path_graph_enabled;
use build_signals::data::{Artifact, ArtifactGroup, ConfiguredTargetNode, RegisteredAction};
use build_signals::default_backend::DefaultBackend;
use build_signals::duration::{Duration, NodeDuration};
use build_signals::key::{
    ActionKey, AnonTarget, BaseDeferredKey, ConfiguredTargetLabel, NodeKey, SpanId,
    TransitiveSetProjectionKey,
};
use build_signals::receiver::BuildSignalReceiver;
use build_signals::report::{BuildGraphExecutionInfo, Entry};
use build_signals::signal::{
    ActionExecutionSignal, ActionRedirectionSignal, AnalysisSignal, BuildSignal,
    TopLevelTargetSignal, TransitiveSetComputationSignal,
};
use std::sync::Arc;

fn secs(secs: u64) -> NodeDuration {
    NodeDuration {
        user: Duration::from_secs(secs),
        total: Duration::from_secs(secs),
    }
}

fn anon_key(id: u64) -> ActionKey {
    ActionKey {
        owner: BaseDeferredKey::AnonTarget(AnonTarget(7)),
        id,
    }
}

fn owned_key(label: u64, id: u64) -> ActionKey {
    ActionKey {
        owner: BaseDeferredKey::TargetLabel(ConfiguredTargetLabel(label)),
        id,
    }
}

fn output_of(key: ActionKey) -> ArtifactGroup {
    ArtifactGroup::Artifact(Artifact {
        action_key: Some(key),
    })
}

fn action(key: ActionKey, inputs: Vec<ArtifactGroup>, identifier: Option<&str>) -> Arc<RegisteredAction> {
    Arc::new(RegisteredAction {
        key,
        inputs,
        category: "compile".to_owned(),
        identifier: identifier.map(|text| text.to_owned()),
    })
}

fn execution(key: ActionKey, inputs: Vec<ArtifactGroup>, seconds: u64) -> BuildSignal {
    BuildSignal::ActionExecution(ActionExecutionSignal {
        action: action(key, inputs, Some("unit")),
        duration: secs(seconds),
        span_id: None,
    })
}

fn run(signals: Vec<BuildSignal>) -> BuildGraphExecutionInfo {
    BuildSignalReceiver::new(DefaultBackend::new())
        .run_and_log(signals)
        .unwrap()
}

fn tell(backend: &mut DefaultBackend, key: NodeKey, seconds: u64, deps: Vec<NodeKey>) {
    let duration = secs(seconds);
    assert!(backend.accepts_node(&duration, &deps));
    backend.process_node(key, None, duration, deps, None);
}

fn keys(info: &BuildInfo) -> Vec<NodeKey> {
    info.critical_path.iter().map(|node| node.0).collect()
}

fn user_seconds(info: &BuildInfo) -> Vec<Duration> {
    info.critical_path
        .iter()
        .map(|node| node.1.duration.user)
        .collect()
}

#[test]
fn empty_stream_reports_an_empty_path() {
    let info = run(vec![BuildSignal::BuildFinished]);
    assert!(info.critical_path2.is_empty());
    assert_eq!(info.num_nodes, 0);
    assert_eq!(info.num_edges, 0);
    assert!(!info.uses_total_duration);

    let info = run(vec![]);
    assert!(info.critical_path2.is_empty());
    assert_eq!(info.num_nodes, 0);
    assert_eq!(info.num_edges, 0);
}

#[test]
fn empty_backend_finishes_with_an_empty_path() {
    let info = DefaultBackend::new().finish().unwrap();
    assert!(info.critical_path.is_empty());
    assert_eq!(info.num_nodes, 0);
    assert_eq!(info.num_edges, 0);
}

#[test]
fn unit_action_is_the_whole_path() {
    let a = anon_key(1);
    let info = run(vec![execution(a, vec![], 3), BuildSignal::BuildFinished]);
    assert_eq!(info.critical_path2.len(), 1);
    let entry = &info.critical_path2[0];
    assert_eq!(entry.duration, Duration::from_secs(3));
    assert_eq!(entry.user_duration, Duration::from_secs(3));
    assert_eq!(entry.total_duration, Duration::from_secs(3));
    assert_eq!(entry.potential_improvement_duration, None);
    match &entry.entry {
        Entry::ActionExecution { owner, name } => {
            assert_eq!(*owner, a.owner);
            assert_eq!(name.category, "compile");
            assert_eq!(name.identifier, "unit");
        }
        Entry::Analysis { .. } => panic!("an action was reported"),
    }
    assert_eq!(info.num_nodes, 1);
    assert_eq!(info.num_edges, 0);
}

#[test]
fn linear_chain_is_the_path() {
    let (a, b, c) = (anon_key(1), anon_key(2), anon_key(3));
    let info = run(vec![
        execution(a, vec![], 5),
        execution(b, vec![output_of(a)], 6),
        execution(c, vec![output_of(b)], 7),
        BuildSignal::BuildFinished,
    ]);
    let durations: Vec<Duration> = info.critical_path2.iter().map(|e| e.duration).collect();
    assert_eq!(
        durations,
        vec![
            Duration::from_secs(5),
            Duration::from_secs(6),
            Duration::from_secs(7)
        ]
    );
    assert_eq!(info.num_nodes, 3);
    assert_eq!(info.num_edges, 2);
}

#[test]
fn branch_with_loser_takes_the_longer_branch() {
    let (a, b, d) = (
        NodeKey::ActionKey(anon_key(1)),
        NodeKey::ActionKey(anon_key(2)),
        NodeKey::ActionKey(anon_key(4)),
    );
    let mut backend = DefaultBackend::new();
    tell(&mut backend, a, 5, vec![]);
    tell(&mut backend, b, 6, vec![a]);
    tell(&mut backend, d, 9, vec![a]);
    let info = backend.finish().unwrap();
    assert_eq!(keys(&info), vec![a, d]);
    assert_eq!(
        user_seconds(&info),
        vec![Duration::from_secs(5), Duration::from_secs(9)]
    );
    assert!(info.critical_path.iter().all(|node| node.2.is_none()));
    assert_eq!(info.num_nodes, 3);
    assert_eq!(info.num_edges, 2);
}

#[test]
fn redirection_keeps_the_chain() {
    let (a, k1, k2) = (anon_key(1), anon_key(10), anon_key(20));
    let signals = vec![
        execution(a, vec![], 2),
        execution(k2, vec![output_of(a)], 4),
        BuildSignal::ActionRedirection(ActionRedirectionSignal { key: k1, dest: k2 }),
    ];
    let mut receiver = BuildSignalReceiver::new(DefaultBackend::new());
    let mut backend = DefaultBackend::new();
    tell(&mut backend, NodeKey::ActionKey(a), 2, vec![]);
    tell(&mut backend, NodeKey::ActionKey(k2), 4, vec![NodeKey::ActionKey(a)]);
    tell(&mut backend, NodeKey::ActionKey(k1), 0, vec![NodeKey::ActionKey(k2)]);
    let found = backend.finish().unwrap();
    // Equal cumulative durations: the node that came first ends the path.
    assert_eq!(keys(&found), vec![NodeKey::ActionKey(a), NodeKey::ActionKey(k2)]);
    let total: u128 = found.critical_path.iter().map(|n| n.1.duration.user.as_nanos()).sum();
    assert_eq!(total, Duration::from_secs(6).as_nanos());

    for signal in signals {
        assert_eq!(receiver.handle(signal), Ok(false));
    }
    assert_eq!(receiver.handle(BuildSignal::BuildFinished), Ok(true));
    let info = receiver.finish().unwrap();
    assert_eq!(info.num_nodes, 3);
    assert_eq!(info.num_edges, 2);
    let total: u128 = info.critical_path2.iter().map(|e| e.duration.as_nanos()).sum();
    assert_eq!(total, Duration::from_secs(6).as_nanos());
}

#[test]
fn redirection_on_the_path_is_reported_without_a_duration() {
    let (a, k1, k2, z) = (anon_key(1), anon_key(10), anon_key(20), anon_key(30));
    // z depends on the redirected key, so the path runs through it.
    let info = run(vec![
        execution(a, vec![], 2),
        execution(k2, vec![output_of(a)], 4),
        BuildSignal::ActionRedirection(ActionRedirectionSignal { key: k1, dest: k2 }),
        execution(z, vec![output_of(k1)], 1),
        BuildSignal::BuildFinished,
    ]);
    let durations: Vec<Duration> = info.critical_path2.iter().map(|e| e.duration).collect();
    assert_eq!(
        durations,
        vec![
            Duration::from_secs(2),
            Duration::from_secs(4),
            Duration::from_secs(0),
            Duration::from_secs(1)
        ]
    );
    match &info.critical_path2[2].entry {
        Entry::ActionExecution { owner, name } => {
            assert_eq!(*owner, k1.owner);
            assert_eq!(name.category, "");
            assert_eq!(name.identifier, "");
        }
        Entry::Analysis { .. } => panic!("a redirection was reported"),
    }
    assert_eq!(info.num_nodes, 4);
    assert_eq!(info.num_edges, 3);
}

#[test]
fn duplicate_dependencies_count_once() {
    let (a, b) = (NodeKey::ActionKey(anon_key(1)), NodeKey::ActionKey(anon_key(2)));
    let unseen = NodeKey::ActionKey(anon_key(99));
    let mut backend = DefaultBackend::new();
    tell(&mut backend, a, 1, vec![]);
    tell(&mut backend, b, 1, vec![a, unseen, a, a, unseen]);
    let info = backend.finish().unwrap();
    assert_eq!(info.num_nodes, 2);
    assert_eq!(info.num_edges, 2);
    assert_eq!(keys(&info), vec![a, b]);
}

#[test]
fn unseen_dependency_adds_nothing_to_the_chain() {
    let (a, b) = (NodeKey::ActionKey(anon_key(1)), NodeKey::ActionKey(anon_key(2)));
    let mut backend = DefaultBackend::new();
    // b names a before a is reported.
    tell(&mut backend, b, 6, vec![a]);
    tell(&mut backend, a, 5, vec![]);
    let info = backend.finish().unwrap();
    assert_eq!(keys(&info), vec![b]);
    assert_eq!(info.num_edges, 1);
}

#[test]
fn ties_among_ancestors_go_to_the_first_named() {
    let (a, b, c) = (
        NodeKey::ActionKey(anon_key(1)),
        NodeKey::ActionKey(anon_key(2)),
        NodeKey::ActionKey(anon_key(3)),
    );
    let mut backend = DefaultBackend::new();
    tell(&mut backend, a, 4, vec![]);
    tell(&mut backend, b, 4, vec![]);
    tell(&mut backend, c, 1, vec![b, a]);
    let info = backend.finish().unwrap();
    assert_eq!(keys(&info), vec![b, c]);
}

#[test]
fn action_of_a_target_depends_on_its_analysis() {
    let label = ConfiguredTargetLabel(5);
    let x = owned_key(5, 1);
    let info = run(vec![
        BuildSignal::Analysis(AnalysisSignal {
            label,
            node: ConfiguredTargetNode { deps: vec![] },
            duration: secs(2),
            span_id: Some(SpanId(11)),
        }),
        execution(x, vec![], 3),
        BuildSignal::TopLevelTarget(TopLevelTargetSignal {
            label,
            artifacts: vec![output_of(x)],
        }),
        BuildSignal::BuildFinished,
    ]);
    assert_eq!(info.num_nodes, 2);
    assert_eq!(info.num_edges, 1);
    assert_eq!(info.critical_path2.len(), 2);
    assert_eq!(info.critical_path2[0].span_id, Some(SpanId(11)));
    assert!(matches!(
        info.critical_path2[0].entry,
        Entry::Analysis { target } if target == label
    ));
    assert_eq!(info.critical_path2[1].duration, Duration::from_secs(3));
}

#[test]
fn transitive_set_projection_is_on_the_path_and_not_in_the_report() {
    let a = anon_key(1);
    let c = anon_key(3);
    let set = TransitiveSetProjectionKey { set: 8, projection: 0 };
    let signals = vec![
        execution(a, vec![], 5),
        BuildSignal::TransitiveSetComputation(TransitiveSetComputationSignal {
            key: set,
            artifacts: vec![a],
            set_deps: vec![],
        }),
        execution(c, vec![ArtifactGroup::TransitiveSetProjection(set)], 7),
        BuildSignal::BuildFinished,
    ];
    let info = run(signals);
    assert_eq!(info.num_nodes, 3);
    assert_eq!(info.num_edges, 2);
    let durations: Vec<Duration> = info.critical_path2.iter().map(|e| e.duration).collect();
    assert_eq!(durations, vec![Duration::from_secs(5), Duration::from_secs(7)]);
}

#[test]
fn signals_behind_build_finished_are_dropped() {
    let a = anon_key(1);
    let info = run(vec![
        execution(a, vec![], 3),
        BuildSignal::BuildFinished,
        execution(anon_key(2), vec![output_of(a)], 9),
        BuildSignal::BuildFinished,
    ]);
    assert_eq!(info.num_nodes, 1);
    assert_eq!(info.critical_path2.len(), 1);
    assert_eq!(info.critical_path2[0].duration, Duration::from_secs(3));
}

#[test]
fn cumulative_duration_beyond_the_range_is_refused() {
    let a = NodeKey::ActionKey(anon_key(1));
    let b = NodeKey::ActionKey(anon_key(2));
    let huge = NodeDuration {
        user: Duration::from_nanos(u128::MAX),
        total: Duration::from_nanos(u128::MAX),
    };
    let mut backend = DefaultBackend::new();
    assert!(backend.accepts_node(&huge, &vec![]));
    backend.process_node(a, None, huge, vec![], None);
    assert!(!backend.accepts_node(&secs(1), &vec![a]));
    assert!(backend.accepts_node(&secs(1), &vec![b]));

    let mut receiver = BuildSignalReceiver::new(backend);
    let late = BuildSignal::ActionExecution(ActionExecutionSignal {
        action: action(anon_key(2), vec![output_of(anon_key(1))], None),
        duration: secs(1),
        span_id: None,
    });
    assert_eq!(receiver.handle(late), Err(BuildListenerError::LimitExceeded));
    let info = receiver.finish().unwrap();
    assert_eq!(info.num_nodes, 1);
}

#[test]
fn only_true_and_one_choose_the_longest_path_backend() {
    let enabled = |text: &str| longest_path_graph_enabled(Some(&text.to_owned()));
    assert!(enabled("true"));
    assert!(enabled("1"));
    assert!(!enabled("false"));
    assert!(!enabled("0"));
    assert!(!enabled("yes"));
    assert!(!enabled(""));
    assert!(!longest_path_graph_enabled(None));
}
