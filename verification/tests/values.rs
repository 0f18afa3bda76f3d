use build_signals::data::{Artifact, ArtifactGroup, NodeData, RegisteredAction};
use build_signals::duration::{Duration, NodeDuration, NANOS_PER_MICRO, NANOS_PER_SEC};
use build_signals::indexed_keys::IndexedKeys;
use build_signals::key::{
    ActionKey, AnonTarget, BaseDeferredKey, BxlKey, ConfiguredTargetLabel, NodeKey, SpanId,
    TransitiveSetProjectionKey,
};
use build_signals::signal::{
    ActionRedirectionSignal, BuildSignal, TopLevelTargetSignal, TransitiveSetComputationSignal,
};
use std::sync::Arc;

#[test]
fn durations_count_nanoseconds() {
    assert_eq!(NANOS_PER_SEC, 1_000_000_000);
    assert_eq!(NANOS_PER_MICRO, 1_000);
    assert_eq!(Duration::from_secs(3).as_nanos(), 3_000_000_000);
    assert_eq!(Duration::from_micros(7).as_nanos(), 7_000);
    assert_eq!(Duration::from_nanos(1_999).as_micros(), 1);
    assert_eq!(Duration::from_secs(2), Duration::from_micros(2_000_000));
    assert_eq!(
        Duration::from_secs(u64::MAX).as_micros(),
        u64::MAX as u128 * 1_000_000
    );
}

#[test]
fn sum_is_checked_and_difference_saturates() {
    let (two, five) = (Duration::from_secs(2), Duration::from_secs(5));
    assert_eq!(two.checked_add(five), Some(Duration::from_secs(7)));
    assert_eq!(five.saturating_sub(two), Duration::from_secs(3));
    assert_eq!(two.saturating_sub(five), Duration::from_secs(0));
    assert_eq!(two.saturating_sub(two), Duration::from_nanos(0));
    let most = Duration::from_nanos(u128::MAX);
    assert_eq!(most.checked_add(Duration::from_nanos(1)), None);
    assert_eq!(most.checked_add(Duration::from_nanos(0)), Some(most));
}

#[test]
fn critical_path_counts_the_user_duration() {
    let duration = NodeDuration {
        user: Duration::from_secs(3),
        total: Duration::from_secs(8),
    };
    assert_eq!(duration.critical_path_duration(), Duration::from_secs(3));
    let zero = NodeDuration::zero();
    assert_eq!(zero.user, Duration::from_secs(0));
    assert_eq!(zero.total, Duration::from_secs(0));
    assert_eq!(zero.critical_path_duration().as_nanos(), 0);
}

#[test]
fn keys_tell_their_parts() {
    let label = ConfiguredTargetLabel(4);
    let owned = ActionKey {
        owner: BaseDeferredKey::TargetLabel(label),
        id: 1,
    };
    assert_eq!(owned.owner(), BaseDeferredKey::TargetLabel(label));
    assert_eq!(owned.owner().unpack_target_label(), Some(label));
    assert_eq!(
        BaseDeferredKey::AnonTarget(AnonTarget(4)).unpack_target_label(),
        None
    );
    assert_eq!(BaseDeferredKey::BxlLabel(BxlKey(4)).unpack_target_label(), None);
    assert!(NodeKey::Analysis(label).is_analysis());
    assert!(!NodeKey::ActionKey(owned).is_analysis());
    assert!(!NodeKey::TransitiveSetProjection(TransitiveSetProjectionKey {
        set: 4,
        projection: 0
    })
    .is_analysis());
    // The same number under another kind is another node.
    assert_ne!(
        NodeKey::ActionKey(owned),
        NodeKey::ActionKey(ActionKey {
            owner: BaseDeferredKey::AnonTarget(AnonTarget(4)),
            id: 1
        })
    );
}

#[test]
fn payload_is_shared_not_copied() {
    let key = ActionKey {
        owner: BaseDeferredKey::BxlLabel(BxlKey(2)),
        id: 9,
    };
    let action = Arc::new(RegisteredAction {
        key,
        inputs: vec![ArtifactGroup::Artifact(Artifact { action_key: None })],
        category: "write".to_owned(),
        identifier: Some("out.txt".to_owned()),
    });
    assert_eq!(action.key(), key);
    assert_eq!(action.owner(), key.owner);
    assert_eq!(action.inputs().len(), 1);
    assert_eq!(
        Artifact {
            action_key: Some(key)
        }
        .action_key(),
        Some(key)
    );
    let data = NodeData {
        action: Some(action.clone()),
        duration: NodeDuration::zero(),
        span_id: Some(SpanId(5)),
    };
    let copy = data.dupe();
    assert!(Arc::ptr_eq(copy.action.as_ref().unwrap(), &action));
    assert_eq!(copy.span_id, Some(SpanId(5)));
    assert_eq!(copy.duration, NodeDuration::zero());
    let bare = NodeData {
        action: None,
        duration: NodeDuration::zero(),
        span_id: None,
    };
    assert!(bare.dupe().action.is_none());
}

#[test]
fn signals_wrap_into_build_signals() {
    let key = ActionKey {
        owner: BaseDeferredKey::BxlLabel(BxlKey(2)),
        id: 9,
    };
    let redirection = BuildSignal::from(ActionRedirectionSignal { key, dest: key });
    assert!(matches!(redirection, BuildSignal::ActionRedirection(_)));
    let set = TransitiveSetComputationSignal {
        key: TransitiveSetProjectionKey {
            set: 1,
            projection: 2,
        },
        artifacts: vec![key],
        set_deps: vec![],
    };
    let wrapped: BuildSignal = set.into();
    assert!(matches!(wrapped, BuildSignal::TransitiveSetComputation(_)));
    let top_level: BuildSignal = TopLevelTargetSignal {
        label: ConfiguredTargetLabel(1),
        artifacts: vec![],
    }
    .into();
    assert!(matches!(top_level, BuildSignal::TopLevelTarget(_)));
}

#[test]
fn keys_of_one_bucket_are_told_apart() {
    let analysis = NodeKey::Analysis(ConfiguredTargetLabel(6));
    let action = NodeKey::ActionKey(ActionKey {
        owner: BaseDeferredKey::AnonTarget(AnonTarget(7)),
        id: 1,
    });
    let other = NodeKey::ActionKey(ActionKey {
        owner: BaseDeferredKey::BxlLabel(BxlKey(7)),
        id: 1,
    });
    let projection = NodeKey::TransitiveSetProjection(TransitiveSetProjectionKey {
        set: 4,
        projection: 2,
    });
    let mut keys = IndexedKeys::new();
    assert_eq!(keys.len(), 0);
    assert_eq!(keys.find(&analysis), None);
    for key in [analysis, action, other, projection] {
        assert_eq!(keys.find(&key), None);
        keys.push(key);
    }
    assert_eq!(keys.len(), 4);
    assert_eq!(keys.find(&analysis), Some(0));
    assert_eq!(keys.find(&action), Some(1));
    assert_eq!(keys.find(&other), Some(2));
    assert_eq!(keys.find(&projection), Some(3));
    assert_eq!(*keys.get(2), other);
    assert_eq!(keys.find(&NodeKey::Analysis(ConfiguredTargetLabel(7))), None);
    assert_eq!(keys.into_keys(), vec![analysis, action, other, projection]);

    let mut numbers: IndexedKeys<i32> = IndexedKeys::new();
    for number in [3, -3, 0, i32::MIN] {
        numbers.push(number);
    }
    assert_eq!(numbers.find(&-3), Some(1));
    assert_eq!(numbers.find(&i32::MIN), Some(3));
    assert_eq!(numbers.find(&i32::MAX), None);
}
