//! What a node of the dependency graph carries.

use crate::duration::NodeDuration;
use crate::key::{ActionKey, BaseDeferredKey, ConfiguredTargetLabel, SpanId, TransitiveSetProjectionKey};
use std::sync::Arc;
use vstd::prelude::*;

verus! {

/// A file that the build reads or writes.
#[derive(Clone, Copy, Debug, PartialEq, Eq, Hash, Structural)]
pub struct Artifact {
    /// The action that writes the file; none for a source file.
    pub action_key: Option<ActionKey>,
}

impl Artifact {
    /// The action that writes the file; none for a source file.
    pub fn action_key(&self) -> (key: Option<ActionKey>)
        ensures
            key == self.action_key,
    {
        self.action_key
    }
}

/// One input of an action: a single artifact, or all artifacts of a
/// transitive-set projection.
#[derive(Clone, Copy, Debug, PartialEq, Eq, Hash, Structural)]
pub enum ArtifactGroup {
    Artifact(Artifact),
    TransitiveSetProjection(TransitiveSetProjectionKey),
}

/// An action as the build registered it.
#[derive(Debug)]
pub struct RegisteredAction {
    /// The identity of the action.
    pub key: ActionKey,
    /// The declared inputs.
    pub inputs: Vec<ArtifactGroup>,
    /// The kind of action, for display.
    pub category: String,
    /// What tells the action from others of its category and owner.
    pub identifier: Option<String>,
}

impl RegisteredAction {
    /// The identity of the action.
    pub fn key(&self) -> (key: ActionKey)
        ensures
            key == self.key,
    {
        self.key
    }

    /// What the action belongs to.
    pub fn owner(&self) -> (owner: BaseDeferredKey)
        ensures
            owner == self.key.owner,
    {
        self.key.owner
    }

    /// The declared inputs.
    pub fn inputs(&self) -> (inputs: &Vec<ArtifactGroup>)
        ensures
            *inputs == self.inputs,
    {
        &self.inputs
    }
}

/// A configured target as analysis sees it.
#[derive(Debug)]
pub struct ConfiguredTargetNode {
    /// The labels of the targets that this one depends on directly.
    pub deps: Vec<ConfiguredTargetLabel>,
}

/// The payload of a vertex.
#[derive(Debug)]
pub struct NodeData {
    /// The action that ran; present only for the execution of an action.
    pub action: Option<Arc<RegisteredAction>>,
    /// How long the node took.
    pub duration: NodeDuration,
    /// The span of the event stream that covers the node.
    pub span_id: Option<SpanId>,
}

/// `Arc::clone`: a second handle on the same registered action, so that what
/// it points to is what `action` points to.
#[verifier::external_body]
fn share_action(action: &Arc<RegisteredAction>) -> (shared: Arc<RegisteredAction>)
    ensures
        shared == *action,
{
    Arc::clone(action)
}

impl NodeData {
    /// A second payload that shares the action of this one.
    pub fn dupe(&self) -> (copy: NodeData)
        ensures
            copy == *self,
    {
        let action = match &self.action {
            Some(action) => Some(share_action(action)),
            None => None,
        };
        NodeData { action, duration: self.duration, span_id: self.span_id }
    }
}

} // verus!
