//! The default backend: the longest chain, tracked while the nodes arrive.
//!
//! Each node is given the cumulative duration of the longest chain of
//! dependencies that ends in it, computed from the nodes that were reported
//! before it.  A dependency that has not been reported by then is counted as
//! an edge, and adds nothing to the chain.

use crate::backend::{node_record, unique_keys, BuildInfo, BuildListenerBackend, BuildListenerError};
use crate::critical_path::{
    critical_indices, extract_critical_path, has_key, index_of, lemma_critical_indices, stored,
    CriticalPathMap,
    CriticalPathNode, Entries,
};
use crate::data::{NodeData, RegisteredAction};
use crate::duration::{Duration, NodeDuration};
use crate::key::{NodeKey, SpanId};
use crate::model::{
    deduplicated, edge_total, lemma_first_occurrences, NodeRecord, VisibilityRecord,
};
use std::sync::Arc;
use vstd::prelude::*;

verus! {

/// The cumulative duration stored under a key, in nanoseconds.
pub open spec fn cumulative(s: Entries<NodeKey, NodeData>, key: NodeKey) -> nat {
    s[index_of(s, key)].1.duration@
}

/// Among the dependencies that the entries have, the first of the greatest
/// cumulative duration.
pub open spec fn longest_ancestor(s: Entries<NodeKey, NodeData>, deps: Seq<NodeKey>) -> Option<
    NodeKey,
>
    decreases deps.len(),
{
    if deps.len() == 0 {
        None
    } else {
        let before = longest_ancestor(s, deps.drop_last());
        let dep = deps.last();
        if !has_key(s, dep) {
            before
        } else {
            match before {
                Some(best) if cumulative(s, dep) <= cumulative(s, best) => before,
                _ => Some(dep),
            }
        }
    }
}

/// The cumulative duration of the chosen ancestor, zero without one.
pub open spec fn ancestor_cost(s: Entries<NodeKey, NodeData>, prev: Option<NodeKey>) -> nat {
    match prev {
        Some(key) => cumulative(s, key),
        None => 0,
    }
}

/// What is stored for a node that arrives when the entries are `s`.
pub open spec fn node_on_arrival(s: Entries<NodeKey, NodeData>, record: NodeRecord) -> CriticalPathNode<
    NodeKey,
    NodeData,
> {
    let prev = longest_ancestor(s, record.deps);
    CriticalPathNode {
        duration: Duration::of_nanos(ancestor_cost(s, prev) + record.data.duration.cost()),
        value: record.data,
        prev,
    }
}

/// The entries after the nodes of `log` have arrived in order.
pub open spec fn replay(log: Seq<NodeRecord>) -> Entries<NodeKey, NodeData>
    decreases log.len(),
{
    if log.len() == 0 {
        Seq::empty()
    } else {
        let s = replay(log.drop_last());
        stored(s, log.last().key, node_on_arrival(s, log.last()))
    }
}

/// The critical path of the entries as a backend reports it: key and payload
/// of each node, without a potential improvement.
pub open spec fn reported_path(s: Entries<NodeKey, NodeData>) -> Seq<
    (NodeKey, NodeData, Option<Duration>),
> {
    critical_indices(s).map_values(|i: int| (s[i].0, s[i].1.value, None::<Duration>))
}

/// The tracker has room for one more node with these dependencies: both
/// counters stay within 64 bits, and the cumulative duration of the node
/// within 128 bits of nanoseconds.
pub open spec fn tracker_accepts(log: Seq<NodeRecord>, duration: NodeDuration, deps: Seq<NodeKey>) -> bool {
    &&& log.len() < u64::MAX
    &&& edge_total(log) + deps.len() <= u64::MAX
    &&& ancestor_cost(replay(log), longest_ancestor(replay(log), deps)) + duration.cost()
        <= u128::MAX
}

/// Each node found the tracker with room for it: the counters and the
/// cumulative durations stayed within their ranges throughout.
pub open spec fn within_limits(log: Seq<NodeRecord>) -> bool {
    forall|i: int|
        0 <= i < log.len() ==> tracker_accepts(#[trigger] log.take(i), log[i].data.duration, log[i].deps)
}

/// What the tracker reports of the nodes of `log`.
pub open spec fn tracker_reports(log: Seq<NodeRecord>, info: BuildInfo) -> bool {
    &&& info.critical_path@ == reported_path(replay(log))
    &&& info.num_nodes == log.len()
    &&& info.num_edges == edge_total(log)
}

/// The backend that tracks the longest chain while the nodes arrive.
pub struct DefaultBackend {
    predecessors: CriticalPathMap<NodeKey, NodeData>,
    num_nodes: u64,
    num_edges: u64,
    log: Ghost<Seq<NodeRecord>>,
    targets: Ghost<Seq<VisibilityRecord>>,
}

/// Among the dependencies that the map has, the first of the greatest
/// cumulative duration, with that duration.
fn find_longest_ancestor(
    predecessors: &CriticalPathMap<NodeKey, NodeData>,
    deps: &Vec<NodeKey>,
) -> (best: Option<(NodeKey, Duration)>)
    requires
        predecessors.wf(),
    ensures
        match best {
            Some((key, duration)) => {
                &&& longest_ancestor(predecessors@, deps@) == Some(key)
                &&& has_key(predecessors@, key)
                &&& duration@ == cumulative(predecessors@, key)
            },
            None => longest_ancestor(predecessors@, deps@) is None,
        },
{
    let ghost s = predecessors@;
    let mut best: Option<(NodeKey, Duration)> = None;
    let mut i: usize = 0;
    assert(deps@.take(0) == Seq::<NodeKey>::empty());
    while i < deps.len()
        invariant
            i <= deps.len(),
            predecessors.wf(),
            s == predecessors@,
            match best {
                Some((key, duration)) => {
                    &&& longest_ancestor(s, deps@.take(i as int)) == Some(key)
                    &&& has_key(s, key)
                    &&& duration@ == cumulative(s, key)
                },
                None => longest_ancestor(s, deps@.take(i as int)) is None,
            },
        decreases deps.len() - i,
    {
        assert(deps@.take(i + 1).drop_last() == deps@.take(i as int));
        let dep = deps[i];
        match predecessors.get(&dep) {
            Some(node) => {
                let better = match best {
                    Some((_, duration)) => node.duration.as_nanos() > duration.as_nanos(),
                    None => true,
                };
                if better {
                    best = Some((dep, node.duration));
                }
            },
            None => {},
        }
        i += 1;
    }
    assert(deps@.take(deps.len() as int) == deps@);
    best
}

impl DefaultBackend {
    /// Every node that the backend was told of found it with room, so the
    /// nodes are within the limits of the tracker; and no node is recorded
    /// with a dependency twice.
    pub proof fn lemma_within_limits(&self)
        requires
            self.wf(),
        ensures
            within_limits(self.recorded()),
            deduplicated(self.recorded()),
    {
    }

    /// A backend that has been told of nothing.
    pub fn new() -> (backend: DefaultBackend)
        ensures
            backend.wf(),
            backend.recorded().len() == 0,
            backend.visibility().len() == 0,
    {
        let predecessors = CriticalPathMap::new();
        assert(predecessors@ == replay(Seq::empty()));
        DefaultBackend {
            predecessors,
            num_nodes: 0,
            num_edges: 0,
            log: Ghost(Seq::empty()),
            targets: Ghost(Seq::empty()),
        }
    }
}

impl BuildListenerBackend for DefaultBackend {
    closed spec fn wf(&self) -> bool {
        &&& self.predecessors.wf()
        &&& self.predecessors@ == replay(self.log@)
        &&& self.num_nodes == self.log@.len()
        &&& self.num_edges == edge_total(self.log@)
        &&& within_limits(self.log@)
        &&& deduplicated(self.log@)
    }

    closed spec fn recorded(&self) -> Seq<NodeRecord> {
        self.log@
    }

    closed spec fn visibility(&self) -> Seq<VisibilityRecord> {
        self.targets@
    }

    open spec fn accepts(recorded: Seq<NodeRecord>, duration: NodeDuration, deps: Seq<NodeKey>) -> bool {
        tracker_accepts(recorded, duration, deps)
    }

    open spec fn finishes_with(
        recorded: Seq<NodeRecord>,
        visibility: Seq<VisibilityRecord>,
        outcome: Result<BuildInfo, BuildListenerError>,
    ) -> bool {
        outcome matches Ok(info) && tracker_reports(recorded, info)
    }

    fn accepts_node(&self, duration: &NodeDuration, dep_keys: &Vec<NodeKey>) -> (ok: bool) {
        let deps = unique_keys(dep_keys);
        if self.num_nodes == u64::MAX {
            return false;
        }
        if deps.len() as u64 > u64::MAX - self.num_edges {
            return false;
        }
        match find_longest_ancestor(&self.predecessors, &deps) {
            Some((_, ancestor)) => ancestor.checked_add(duration.critical_path_duration()).is_some(),
            None => true,
        }
    }

    fn process_node(
        &mut self,
        key: NodeKey,
        action: Option<Arc<RegisteredAction>>,
        duration: NodeDuration,
        dep_keys: Vec<NodeKey>,
        span_id: Option<SpanId>,
    ) {
        let ghost record = node_record(key, action, duration, dep_keys@, span_id);
        let ghost before = self.log@;
        let deps = unique_keys(&dep_keys);
        let longest = find_longest_ancestor(&self.predecessors, &deps);
        let value = NodeData { action, duration, span_id };
        let node = match longest {
            Some((ancestor, ancestor_duration)) => {
                let sum = ancestor_duration.checked_add(duration.critical_path_duration());
                CriticalPathNode { prev: Some(ancestor), value, duration: sum.unwrap() }
            },
            None => CriticalPathNode {
                prev: None,
                value,
                duration: duration.critical_path_duration(),
            },
        };
        assert(node == node_on_arrival(self.predecessors@, record));
        self.num_edges = self.num_edges + deps.len() as u64;
        self.num_nodes = self.num_nodes + 1;
        self.predecessors.insert(key, node);
        proof {
            let after = before.push(record);
            assert(after.drop_last() == before);
            lemma_first_occurrences(dep_keys@);
            assert forall|i: int| 0 <= i < after.len() implies (#[trigger] after[i]).deps.no_duplicates() by {
                if i < before.len() {
                    assert(after[i] == before[i]);
                }
            }
            assert forall|i: int| 0 <= i < after.len() implies tracker_accepts(
                #[trigger] after.take(i),
                after[i].data.duration,
                after[i].deps,
            ) by {
                if i < before.len() {
                    assert(after.take(i) == before.take(i));
                } else {
                    assert(after.take(i) == before);
                }
            }
            self.log = Ghost(after);
        }
    }

    fn process_top_level_target(&mut self, analysis: NodeKey, artifacts: Vec<NodeKey>) {
        proof {
            self.targets = Ghost(
                self.targets@.push(VisibilityRecord { node: analysis, makes_visible: artifacts@ }),
            );
        }
    }

    fn finish(self) -> (outcome: Result<BuildInfo, BuildListenerError>) {
        let ghost s = self.predecessors@;
        let path = extract_critical_path(&self.predecessors);
        assert(path@.len() == critical_indices(s).len());
        proof {
            lemma_critical_indices(s);
        }
        let mut critical_path: Vec<(NodeKey, NodeData, Option<Duration>)> = Vec::new();
        let mut i: usize = 0;
        while i < path.len()
            invariant
                i <= path.len(),
                s == self.predecessors@,
                path@.len() == critical_indices(s).len(),
                forall|k: int|
                    0 <= k < path@.len() ==> *(#[trigger] path@[k]).0 == s[critical_indices(s)[k]].0,
                forall|k: int|
                    0 <= k < path@.len() ==> *(#[trigger] path@[k]).1 == s[critical_indices(
                        s,
                    )[k]].1.value,
                critical_path@.len() == i,
                forall|k: int| 0 <= k < i ==> #[trigger] critical_path@[k] == reported_path(s)[k],
            decreases path.len() - i,
        {
            let entry = &path[i];
            critical_path.push((*entry.0, entry.1.dupe(), None));
            i += 1;
        }
        assert(critical_path@ == reported_path(s));
        Ok(BuildInfo { critical_path, num_nodes: self.num_nodes, num_edges: self.num_edges })
    }
}

} // verus!
