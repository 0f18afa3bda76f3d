//! The signals that the producers of a build send.

use crate::backend::node_record;
use crate::data::{ArtifactGroup, ConfiguredTargetNode, RegisteredAction};
use crate::duration::NodeDuration;
use crate::key::{ActionKey, ConfiguredTargetLabel, NodeKey, SpanId, TransitiveSetProjectionKey};
use crate::model::{NodeRecord, VisibilityRecord};
use std::sync::Arc;
use vstd::prelude::*;
use vstd::std_specs::convert::FromSpecImpl;

verus! {

/// A registered action has run.
#[derive(Debug)]
pub struct ActionExecutionSignal {
    pub action: Arc<RegisteredAction>,
    pub duration: NodeDuration,
    pub span_id: Option<SpanId>,
}

/// The analysis of a configured target has finished.
#[derive(Debug)]
pub struct AnalysisSignal {
    pub label: ConfiguredTargetLabel,
    pub node: ConfiguredTargetNode,
    pub duration: NodeDuration,
    pub span_id: Option<SpanId>,
}

/// A projection of a transitive set has been computed.
#[derive(Debug)]
pub struct TransitiveSetComputationSignal {
    pub key: TransitiveSetProjectionKey,
    /// The actions whose artifacts the set holds directly.
    pub artifacts: Vec<ActionKey>,
    /// The projections that the set holds.
    pub set_deps: Vec<TransitiveSetProjectionKey>,
}

/// An action key of a dynamic output resolves to another action: the one
/// that is run in its place.  The redirection is a node of its own, so that
/// the chain through the two keys is unbroken.
#[derive(Debug)]
pub struct ActionRedirectionSignal {
    pub key: ActionKey,
    pub dest: ActionKey,
}

/// The analysis of a top-level target makes these artifacts visible.
#[derive(Debug)]
pub struct TopLevelTargetSignal {
    pub label: ConfiguredTargetLabel,
    pub artifacts: Vec<ArtifactGroup>,
}

/// What a producer can tell the listener.
#[derive(Debug)]
pub enum BuildSignal {
    ActionExecution(ActionExecutionSignal),
    TransitiveSetComputation(TransitiveSetComputationSignal),
    ActionRedirection(ActionRedirectionSignal),
    Analysis(AnalysisSignal),
    TopLevelTarget(TopLevelTargetSignal),
    /// The build is over: the listener reads no further.
    BuildFinished,
}

impl From<ActionExecutionSignal> for BuildSignal {
    fn from(signal: ActionExecutionSignal) -> (wrapped: BuildSignal) {
        BuildSignal::ActionExecution(signal)
    }
}

impl FromSpecImpl<ActionExecutionSignal> for BuildSignal {
    open spec fn obeys_from_spec() -> bool {
        true
    }

    open spec fn from_spec(signal: ActionExecutionSignal) -> BuildSignal {
        BuildSignal::ActionExecution(signal)
    }
}

impl From<TransitiveSetComputationSignal> for BuildSignal {
    fn from(signal: TransitiveSetComputationSignal) -> (wrapped: BuildSignal) {
        BuildSignal::TransitiveSetComputation(signal)
    }
}

impl FromSpecImpl<TransitiveSetComputationSignal> for BuildSignal {
    open spec fn obeys_from_spec() -> bool {
        true
    }

    open spec fn from_spec(signal: TransitiveSetComputationSignal) -> BuildSignal {
        BuildSignal::TransitiveSetComputation(signal)
    }
}

impl From<ActionRedirectionSignal> for BuildSignal {
    fn from(signal: ActionRedirectionSignal) -> (wrapped: BuildSignal) {
        BuildSignal::ActionRedirection(signal)
    }
}

impl FromSpecImpl<ActionRedirectionSignal> for BuildSignal {
    open spec fn obeys_from_spec() -> bool {
        true
    }

    open spec fn from_spec(signal: ActionRedirectionSignal) -> BuildSignal {
        BuildSignal::ActionRedirection(signal)
    }
}

impl From<AnalysisSignal> for BuildSignal {
    fn from(signal: AnalysisSignal) -> (wrapped: BuildSignal) {
        BuildSignal::Analysis(signal)
    }
}

impl FromSpecImpl<AnalysisSignal> for BuildSignal {
    open spec fn obeys_from_spec() -> bool {
        true
    }

    open spec fn from_spec(signal: AnalysisSignal) -> BuildSignal {
        BuildSignal::Analysis(signal)
    }
}

impl From<TopLevelTargetSignal> for BuildSignal {
    fn from(signal: TopLevelTargetSignal) -> (wrapped: BuildSignal) {
        BuildSignal::TopLevelTarget(signal)
    }
}

impl FromSpecImpl<TopLevelTargetSignal> for BuildSignal {
    open spec fn obeys_from_spec() -> bool {
        true
    }

    open spec fn from_spec(signal: TopLevelTargetSignal) -> BuildSignal {
        BuildSignal::TopLevelTarget(signal)
    }
}

/// The node that an input of an action stands for: the action that writes
/// the artifact, or the projection.  A source file stands for none.
pub open spec fn group_key(group: ArtifactGroup) -> Option<NodeKey> {
    match group {
        ArtifactGroup::Artifact(artifact) => match artifact.action_key {
            Some(key) => Some(NodeKey::ActionKey(key)),
            None => None,
        },
        ArtifactGroup::TransitiveSetProjection(key) => Some(NodeKey::TransitiveSetProjection(key)),
    }
}

/// The nodes that the inputs stand for, in the order of the inputs.
pub open spec fn group_keys(groups: Seq<ArtifactGroup>) -> Seq<NodeKey>
    decreases groups.len(),
{
    if groups.len() == 0 {
        Seq::empty()
    } else {
        let before = group_keys(groups.drop_last());
        match group_key(groups.last()) {
            Some(key) => before.push(key),
            None => before,
        }
    }
}

/// The dependencies of the execution of an action: the nodes of its inputs
/// and then, where a target label owns the action, the analysis of that
/// target.
pub open spec fn action_deps(action: RegisteredAction) -> Seq<NodeKey> {
    let inputs = group_keys(action.inputs@);
    match action.key.owner.target_label() {
        Some(label) => inputs.push(NodeKey::Analysis(label)),
        None => inputs,
    }
}

/// The dependencies of a transitive-set projection: the actions of its
/// artifacts, then the projections that it holds.
pub open spec fn set_deps(signal: TransitiveSetComputationSignal) -> Seq<NodeKey> {
    signal.artifacts@.map_values(|key: ActionKey| NodeKey::ActionKey(key))
        + signal.set_deps@.map_values(
        |key: TransitiveSetProjectionKey| NodeKey::TransitiveSetProjection(key),
    )
}

/// The dependencies of an analysis: the analyses of the direct dependencies
/// of the target.
pub open spec fn analysis_deps(node: ConfiguredTargetNode) -> Seq<NodeKey> {
    node.deps@.map_values(|label: ConfiguredTargetLabel| NodeKey::Analysis(label))
}

/// The node that a signal reports, if it reports one.
pub open spec fn signal_record(signal: BuildSignal) -> Option<NodeRecord> {
    match signal {
        BuildSignal::ActionExecution(execution) => Some(
            node_record(
                NodeKey::ActionKey(execution.action.key),
                Some(execution.action),
                execution.duration,
                action_deps(*execution.action),
                execution.span_id,
            ),
        ),
        BuildSignal::TransitiveSetComputation(set) => Some(
            node_record(
                NodeKey::TransitiveSetProjection(set.key),
                None,
                NodeDuration::zero_spec(),
                set_deps(set),
                None,
            ),
        ),
        BuildSignal::ActionRedirection(redirection) => Some(
            node_record(
                NodeKey::ActionKey(redirection.key),
                None,
                NodeDuration::zero_spec(),
                seq![NodeKey::ActionKey(redirection.dest)],
                None,
            ),
        ),
        BuildSignal::Analysis(analysis) => Some(
            node_record(
                NodeKey::Analysis(analysis.label),
                None,
                analysis.duration,
                analysis_deps(analysis.node),
                analysis.span_id,
            ),
        ),
        BuildSignal::TopLevelTarget(_) => None,
        BuildSignal::BuildFinished => None,
    }
}

/// The top-level target that a signal reports, if it reports one.
pub open spec fn signal_target(signal: BuildSignal) -> Option<VisibilityRecord> {
    match signal {
        BuildSignal::TopLevelTarget(top_level) => Some(
            VisibilityRecord {
                node: NodeKey::Analysis(top_level.label),
                makes_visible: group_keys(top_level.artifacts@),
            },
        ),
        _ => None,
    }
}

} // verus!
