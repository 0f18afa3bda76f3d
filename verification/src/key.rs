//! Identities of the units of work that a build reports.

use crate::indexed_keys::Key;
use vstd::prelude::*;

verus! {

/// A configured target label, by its interned number.
#[derive(Clone, Copy, Debug, PartialEq, Eq, Hash, Structural)]
pub struct ConfiguredTargetLabel(pub u64);

/// An anonymous target, by its interned number.
#[derive(Clone, Copy, Debug, PartialEq, Eq, Hash, Structural)]
pub struct AnonTarget(pub u64);

/// An extension-language evaluation, by its interned number.
#[derive(Clone, Copy, Debug, PartialEq, Eq, Hash, Structural)]
pub struct BxlKey(pub u64);

/// What an action belongs to.
#[derive(Clone, Copy, Debug, PartialEq, Eq, Hash, Structural)]
pub enum BaseDeferredKey {
    TargetLabel(ConfiguredTargetLabel),
    AnonTarget(AnonTarget),
    BxlLabel(BxlKey),
}

impl BaseDeferredKey {
    /// The target label that owns the action, if a target label does.
    pub fn unpack_target_label(&self) -> (label: Option<ConfiguredTargetLabel>)
        ensures
            label == self.target_label(),
    {
        match self {
            BaseDeferredKey::TargetLabel(label) => Some(*label),
            BaseDeferredKey::AnonTarget(_) => None,
            BaseDeferredKey::BxlLabel(_) => None,
        }
    }

    /// The owning target label, if a target label owns the action.
    pub open spec fn target_label(&self) -> Option<ConfiguredTargetLabel> {
        match *self {
            BaseDeferredKey::TargetLabel(label) => Some(label),
            BaseDeferredKey::AnonTarget(_) => None,
            BaseDeferredKey::BxlLabel(_) => None,
        }
    }
}

/// The identity of one action: its owner and its number within the owner.
#[derive(Clone, Copy, Debug, PartialEq, Eq, Hash, Structural)]
pub struct ActionKey {
    pub owner: BaseDeferredKey,
    pub id: u64,
}

impl ActionKey {
    /// What the action belongs to.
    pub fn owner(&self) -> (owner: BaseDeferredKey)
        ensures
            owner == self.owner,
    {
        self.owner
    }
}

/// The identity of one projection of a transitive set.
#[derive(Clone, Copy, Debug, PartialEq, Eq, Hash, Structural)]
pub struct TransitiveSetProjectionKey {
    pub set: u64,
    pub projection: u32,
}

/// A span of the event stream, for cross-reference.
#[derive(Clone, Copy, Debug, PartialEq, Eq, Hash, Structural)]
pub struct SpanId(pub u64);

/// The identity of a vertex of the dependency graph.
#[derive(Clone, Copy, Debug, PartialEq, Eq, Hash, Structural)]
pub enum NodeKey {
    /// The execution of an action.
    ActionKey(ActionKey),
    /// The computation of a transitive-set projection.
    TransitiveSetProjection(TransitiveSetProjectionKey),
    /// The analysis of a configured target.
    Analysis(ConfiguredTargetLabel),
}

impl BaseDeferredKey {
    /// The number of the owner, whatever its kind.
    pub open spec fn number(&self) -> u64 {
        match *self {
            BaseDeferredKey::TargetLabel(label) => label.0,
            BaseDeferredKey::AnonTarget(target) => target.0,
            BaseDeferredKey::BxlLabel(key) => key.0,
        }
    }
}

impl Key for NodeKey {
    open spec fn code_spec(&self) -> u64 {
        match *self {
            NodeKey::ActionKey(key) => key.id ^ key.owner.number(),
            NodeKey::TransitiveSetProjection(key) => key.set ^ (key.projection as u64),
            NodeKey::Analysis(label) => label.0,
        }
    }

    fn same(&self, other: &NodeKey) -> (same: bool) {
        *self == *other
    }

    fn code(&self) -> (code: u64) {
        match self {
            NodeKey::ActionKey(key) => {
                let owner = match key.owner {
                    BaseDeferredKey::TargetLabel(label) => label.0,
                    BaseDeferredKey::AnonTarget(target) => target.0,
                    BaseDeferredKey::BxlLabel(key) => key.0,
                };
                key.id ^ owner
            },
            NodeKey::TransitiveSetProjection(key) => key.set ^ (key.projection as u64),
            NodeKey::Analysis(label) => label.0,
        }
    }
}

impl NodeKey {
    /// Whether the vertex is the analysis of a target.
    pub fn is_analysis(&self) -> (b: bool)
        ensures
            b == (*self is Analysis),
    {
        match self {
            NodeKey::Analysis(_) => true,
            _ => false,
        }
    }
}

} // verus!
