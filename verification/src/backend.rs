//! What every backend offers.

use crate::data::{NodeData, RegisteredAction};
use crate::duration::{Duration, NodeDuration};
use crate::key::{NodeKey, SpanId};
use crate::model::{first_occurrences, NodeRecord, VisibilityRecord};
use itertools::Itertools;
use std::sync::Arc;
use vstd::prelude::*;

verus! {

/// Why a build graph yields no report.
#[derive(Clone, Copy, Debug, PartialEq, Eq, Structural)]
pub enum BuildListenerError {
    /// A producer broke the contract of the graph: a node was reported twice,
    /// or the graph has more edges than can be counted.
    ContractViolation,
    /// A duration in microseconds does not fit in 64 bits.
    Overflow,
    /// The longest-path computation found the graph inconsistent, or its
    /// answer does not fit the graph.
    ComputationFailure,
    /// The counters or the cumulative duration of the online tracker would
    /// leave their ranges.
    LimitExceeded,
}

/// What a backend knows when the build has finished.
#[derive(Debug)]
pub struct BuildInfo {
    /// The critical path from its root to its terminal node: each node, its
    /// payload, and by how much the build would be shorter had the node
    /// taken no time, where the backend computes that.
    pub critical_path: Vec<(NodeKey, NodeData, Option<Duration>)>,
    /// The number of nodes of the graph.
    pub num_nodes: u64,
    /// The number of edges of the graph.
    pub num_edges: u64,
}

/// The record of a node that was reported with these values.
pub open spec fn node_record(
    key: NodeKey,
    action: Option<Arc<RegisteredAction>>,
    duration: NodeDuration,
    dep_keys: Seq<NodeKey>,
    span_id: Option<SpanId>,
) -> NodeRecord {
    NodeRecord { key, data: NodeData { action, duration, span_id }, deps: first_occurrences(dep_keys) }
}

/// `Itertools::unique` on the keys: each key once, in the order of the first
/// occurrences.  The adaptor tells keys apart by `Hash` and `Eq`, which on a
/// `NodeKey` agree with equality of values.
#[verifier::external_body]
pub(crate) fn unique_keys(keys: &Vec<NodeKey>) -> (unique: Vec<NodeKey>)
    ensures
        unique@ == first_occurrences(keys@),
{
    keys.iter().copied().unique().collect()
}

/// An accumulator of the build graph that names the critical path at the end
/// of the build.
///
/// What a backend has been told is modelled by two sequences, `recorded` and
/// `visibility`; what `finish` returns is a function of the two.
pub trait BuildListenerBackend: Sized {
    /// The backend is in a valid state.
    spec fn wf(&self) -> bool;

    /// The nodes that the backend was told of, in order.
    spec fn recorded(&self) -> Seq<NodeRecord>;

    /// The top-level targets that the backend was told of, in order.
    spec fn visibility(&self) -> Seq<VisibilityRecord>;

    /// A backend that was told of the nodes `recorded` has room for one more,
    /// of this duration and with these dependencies.
    spec fn accepts(recorded: Seq<NodeRecord>, duration: NodeDuration, deps: Seq<NodeKey>) -> bool;

    /// `finish` may return `outcome` where the backend was told of the nodes
    /// `recorded` and of the top-level targets `visibility`.
    spec fn finishes_with(
        recorded: Seq<NodeRecord>,
        visibility: Seq<VisibilityRecord>,
        outcome: Result<BuildInfo, BuildListenerError>,
    ) -> bool;

    /// Whether the backend has room for a node of this duration with these
    /// dependencies.
    fn accepts_node(&self, duration: &NodeDuration, dep_keys: &Vec<NodeKey>) -> (ok: bool)
        requires
            self.wf(),
        ensures
            ok == Self::accepts(self.recorded(), *duration, first_occurrences(dep_keys@)),
    ;

    /// Records a vertex with its out-edges.  Dependencies that are named more
    /// than once count once.
    fn process_node(
        &mut self,
        key: NodeKey,
        action: Option<Arc<RegisteredAction>>,
        duration: NodeDuration,
        dep_keys: Vec<NodeKey>,
        span_id: Option<SpanId>,
    )
        requires
            old(self).wf(),
            Self::accepts(old(self).recorded(), duration, first_occurrences(dep_keys@)),
        ensures
            final(self).wf(),
            final(self).recorded() == old(self).recorded().push(
                node_record(key, action, duration, dep_keys@, span_id),
            ),
            final(self).visibility() == old(self).visibility(),
    ;

    /// Records that the analysis of a top-level target makes these nodes
    /// visible.
    fn process_top_level_target(&mut self, analysis: NodeKey, artifacts: Vec<NodeKey>)
        requires
            old(self).wf(),
        ensures
            final(self).wf(),
            final(self).recorded() == old(self).recorded(),
            final(self).visibility() == old(self).visibility().push(
                (VisibilityRecord { node: analysis, makes_visible: artifacts@ }),
            ),
    ;

    /// Ends the accumulation and names the critical path.
    fn finish(self) -> (outcome: Result<BuildInfo, BuildListenerError>)
        requires
            self.wf(),
        ensures
            Self::finishes_with(self.recorded(), self.visibility(), outcome),
    ;
}

} // verus!
