//! The report of a finished build, as it goes on the wire.

use crate::backend::BuildInfo;
use crate::data::NodeData;
use crate::duration::Duration;
use crate::key::{BaseDeferredKey, ConfiguredTargetLabel, NodeKey, SpanId};
use vstd::prelude::*;

verus! {

/// The display name of an action.  Both parts are empty where the action
/// behind a node is not known, as for a redirection.
#[derive(Debug)]
pub struct ActionName {
    pub category: String,
    pub identifier: String,
}

/// What kind of node an entry of the critical path is.
#[derive(Debug)]
pub enum Entry {
    /// The execution of an action.
    ActionExecution { owner: BaseDeferredKey, name: ActionName },
    /// The analysis of a target.
    Analysis { target: ConfiguredTargetLabel },
}

/// One node of the critical path, as reported.
#[derive(Debug)]
pub struct CriticalPathEntry {
    pub span_id: Option<SpanId>,
    /// The duration by which the node counts on the critical path.
    pub duration: Duration,
    pub user_duration: Duration,
    pub total_duration: Duration,
    /// By how much the build would be shorter had the node taken no time.
    pub potential_improvement_duration: Option<Duration>,
    pub entry: Entry,
}

/// The report of a finished build.
#[derive(Debug)]
pub struct BuildGraphExecutionInfo {
    /// The critical path, from its root to its terminal node.
    pub critical_path2: Vec<CriticalPathEntry>,
    pub num_nodes: u64,
    pub num_edges: u64,
    /// Whether the critical path was computed from total durations; it is
    /// computed from user durations.
    pub uses_total_duration: bool,
}

/// A node of a critical path as a backend names it.
pub type PathNode = (NodeKey, NodeData, Option<Duration>);

/// Whether a node of the critical path is reported: every node is, but a
/// transitive-set projection.
pub open spec fn reportable(node: PathNode) -> bool {
    !(node.0 is TransitiveSetProjection)
}

/// The text of an identifier, empty for none.
pub open spec fn identifier_text(identifier: Option<String>) -> Seq<char> {
    match identifier {
        Some(text) => text@,
        None => Seq::empty(),
    }
}

/// The category of the action behind a node, empty where it is not known.
pub open spec fn category_of(data: NodeData) -> Seq<char> {
    match data.action {
        Some(action) => action.category@,
        None => Seq::empty(),
    }
}

/// The identifier of the action behind a node, empty where the action is
/// not known or has none.
pub open spec fn identifier_of(data: NodeData) -> Seq<char> {
    match data.action {
        Some(action) => identifier_text(action.identifier),
        None => Seq::empty(),
    }
}

/// The entry reports the node.
pub open spec fn describes(entry: CriticalPathEntry, node: PathNode) -> bool {
    &&& entry.span_id == node.1.span_id
    &&& entry.duration@ == node.1.duration.cost()
    &&& entry.user_duration == node.1.duration.user
    &&& entry.total_duration == node.1.duration.total
    &&& entry.potential_improvement_duration == node.2
    &&& match node.0 {
        NodeKey::ActionKey(key) => {
            &&& entry.entry matches Entry::ActionExecution { owner, name }
            &&& owner == key.owner
            &&& name.category@ == category_of(node.1)
            &&& name.identifier@ == identifier_of(node.1)
        },
        NodeKey::Analysis(label) => entry.entry matches Entry::Analysis { target } && target == label,
        NodeKey::TransitiveSetProjection(_) => false,
    }
}

/// The places of the nodes of a path that are reported, in ascending order.
pub open spec fn reported_places(path: Seq<PathNode>) -> Seq<int>
    decreases path.len(),
{
    if path.len() == 0 {
        Seq::empty()
    } else {
        let before = reported_places(path.drop_last());
        if reportable(path.last()) {
            before.push(path.len() - 1)
        } else {
            before
        }
    }
}

/// The report is that of the build: the counts are those of the backend, and
/// the entries report the reportable nodes of the critical path, in order.
pub open spec fn is_report_of(info: BuildGraphExecutionInfo, build: BuildInfo) -> bool {
    &&& info.num_nodes == build.num_nodes
    &&& info.num_edges == build.num_edges
    &&& !info.uses_total_duration
    &&& info.critical_path2@.len() == reported_places(build.critical_path@).len()
    &&& forall|j: int|
        0 <= j < info.critical_path2@.len() ==> describes(
            #[trigger] info.critical_path2@[j],
            build.critical_path@[reported_places(build.critical_path@)[j]],
        )
}

/// The reported places are places of reportable nodes of the path, in
/// ascending order.
pub proof fn lemma_reported_places(path: Seq<PathNode>)
    ensures
        reported_places(path).len() <= path.len(),
        forall|j: int|
            0 <= j < reported_places(path).len() ==> {
                &&& 0 <= #[trigger] reported_places(path)[j] < path.len()
                &&& reportable(path[reported_places(path)[j]])
            },
        forall|i: int, j: int|
            0 <= i < j < reported_places(path).len() ==> #[trigger] reported_places(path)[i]
                < #[trigger] reported_places(path)[j],
        forall|i: int|
            0 <= i < path.len() && reportable(path[i]) ==> #[trigger] reported_places(path).contains(i),
    decreases path.len(),
{
    if path.len() > 0 {
        let init = path.drop_last();
        let before = reported_places(init);
        let places = reported_places(path);
        lemma_reported_places(init);
        assert forall|j: int| 0 <= j < places.len() implies {
            &&& 0 <= #[trigger] places[j] < path.len()
            &&& reportable(path[places[j]])
        } by {
            if j < before.len() {
                assert(places[j] == before[j]);
                assert(path[before[j]] == init[before[j]]);
            }
        }
        assert forall|i: int, j: int| 0 <= i < j < places.len() implies #[trigger] places[i]
            < #[trigger] places[j] by {
            assert(places[i] == before[i]);
            if j < before.len() {
                assert(places[j] == before[j]);
            }
        }
        assert forall|i: int| 0 <= i < path.len() && reportable(path[i]) implies #[trigger] places.contains(
            i,
        ) by {
            if i < init.len() {
                assert(init[i] == path[i]);
                assert(before.contains(i));
                let j = choose|j: int| 0 <= j < before.len() && before[j] == i;
                assert(places[j] == i);
            } else {
                assert(places[places.len() - 1] == i);
            }
        }
    }
}

/// No transitive-set projection is reported: every entry of a report
/// describes a node of the critical path that is no transitive-set
/// projection.
pub proof fn lemma_report_omits_projections(info: BuildGraphExecutionInfo, build: BuildInfo)
    requires
        is_report_of(info, build),
    ensures
        forall|j: int|
            0 <= j < info.critical_path2@.len() ==> {
                let place = #[trigger] reported_places(build.critical_path@)[j];
                &&& 0 <= place < build.critical_path@.len()
                &&& !(build.critical_path@[place].0 is TransitiveSetProjection)
                &&& describes(info.critical_path2@[j], build.critical_path@[place])
            },
{
    lemma_reported_places(build.critical_path@);
    assert forall|j: int| 0 <= j < info.critical_path2@.len() implies {
        let place = #[trigger] reported_places(build.critical_path@)[j];
        &&& 0 <= place < build.critical_path@.len()
        &&& !(build.critical_path@[place].0 is TransitiveSetProjection)
        &&& describes(info.critical_path2@[j], build.critical_path@[place])
    } by {
        let e = info.critical_path2@[j];
    }
}

/// The entry that reports a node, for a node that is reported.
fn entry_of(node: &PathNode) -> (entry: Option<CriticalPathEntry>)
    ensures
        entry is Some <==> reportable(*node),
        entry matches Some(e) ==> describes(e, *node),
{
    let kind = match &node.0 {
        NodeKey::ActionKey(key) => {
            let name = match &node.1.action {
                Some(action) => {
                    let identifier = match &action.identifier {
                        Some(text) => text.clone(),
                        None => String::new(),
                    };
                    ActionName { category: action.category.clone(), identifier }
                },
                None => ActionName { category: String::new(), identifier: String::new() },
            };
            Entry::ActionExecution { owner: key.owner(), name }
        },
        NodeKey::Analysis(label) => Entry::Analysis { target: *label },
        NodeKey::TransitiveSetProjection(_) => {
            return None;
        },
    };
    Some(
        CriticalPathEntry {
            span_id: node.1.span_id,
            duration: node.1.duration.critical_path_duration(),
            user_duration: node.1.duration.user,
            total_duration: node.1.duration.total,
            potential_improvement_duration: node.2,
            entry: kind,
        },
    )
}

/// The report of a build: the counts of the backend, and an entry for each
/// node of the critical path but the transitive-set projections.
pub fn report(build: &BuildInfo) -> (info: BuildGraphExecutionInfo)
    ensures
        is_report_of(info, *build),
{
    let ghost path = build.critical_path@;
    let mut entries: Vec<CriticalPathEntry> = Vec::new();
    let mut i: usize = 0;
    assert(path.take(0) == Seq::<PathNode>::empty());
    while i < build.critical_path.len()
        invariant
            i <= build.critical_path.len(),
            path == build.critical_path@,
            entries@.len() == reported_places(path.take(i as int)).len(),
            forall|j: int|
                0 <= j < entries@.len() ==> describes(
                    #[trigger] entries@[j],
                    path[reported_places(path.take(i as int))[j]],
                ),
        decreases build.critical_path.len() - i,
    {
        let ghost before = reported_places(path.take(i as int));
        assert(path.take(i + 1).drop_last() == path.take(i as int));
        match entry_of(&build.critical_path[i]) {
            Some(entry) => {
                entries.push(entry);
            },
            None => {},
        }
        proof {
            let after = reported_places(path.take(i + 1));
            assert forall|j: int| 0 <= j < entries@.len() implies describes(
                #[trigger] entries@[j],
                path[after[j]],
            ) by {
                if j < before.len() {
                    assert(after[j] == before[j]);
                }
            }
        }
        i += 1;
    }
    assert(path.take(i as int) == path);
    BuildGraphExecutionInfo {
        critical_path2: entries,
        num_nodes: build.num_nodes,
        num_edges: build.num_edges,
        uses_total_duration: false,
    }
}

} // verus!
