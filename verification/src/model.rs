//! The mathematical model of what a backend has been told.
//!
//! A backend is told of nodes and of top-level targets, one at a time.  What
//! it has been told is a pair of sequences, and every result of a backend is
//! a function of these two.

use crate::data::NodeData;
use crate::key::NodeKey;
use vstd::prelude::*;

verus! {

/// One node as a backend was told of it.
pub struct NodeRecord {
    /// The identity of the node.
    pub key: NodeKey,
    /// The payload of the node.
    pub data: NodeData,
    /// The nodes that this one depends on, each once, in the order in which
    /// they were first named.
    pub deps: Seq<NodeKey>,
}

/// One top-level target as a backend was told of it.
pub struct VisibilityRecord {
    /// The analysis that makes the artifacts visible.
    pub node: NodeKey,
    /// The nodes that the analysis makes visible.
    pub makes_visible: Seq<NodeKey>,
}

/// The items of a sequence, each once, in the order of their first
/// occurrence.
pub open spec fn first_occurrences<A>(items: Seq<A>) -> Seq<A>
    decreases items.len(),
{
    if items.len() == 0 {
        Seq::empty()
    } else {
        let before = first_occurrences(items.drop_last());
        if before.contains(items.last()) {
            before
        } else {
            before.push(items.last())
        }
    }
}

/// The number of edges that the records name: the dependencies of each
/// record, added up.
pub open spec fn edge_total(log: Seq<NodeRecord>) -> nat
    decreases log.len(),
{
    if log.len() == 0 {
        0
    } else {
        edge_total(log.drop_last()) + log.last().deps.len()
    }
}

/// No two records have the same key.
pub open spec fn distinct_records(log: Seq<NodeRecord>) -> bool {
    forall|i: int, j: int| 0 <= i < j < log.len() ==> (#[trigger] log[i]).key != (#[trigger] log[j]).key
}

/// No record names a dependency twice.
pub open spec fn deduplicated(log: Seq<NodeRecord>) -> bool {
    forall|i: int| 0 <= i < log.len() ==> (#[trigger] log[i]).deps.no_duplicates()
}

/// The first occurrences of a sequence hold the same items as the sequence,
/// none of them twice.
pub proof fn lemma_first_occurrences<A>(items: Seq<A>)
    ensures
        first_occurrences(items).no_duplicates(),
        first_occurrences(items).len() <= items.len(),
        forall|a: A| first_occurrences(items).contains(a) <==> items.contains(a),
    decreases items.len(),
{
    if items.len() > 0 {
        let init = items.drop_last();
        let before = first_occurrences(init);
        lemma_first_occurrences(init);
        let after = first_occurrences(items);
        assert forall|a: A| after.contains(a) <==> items.contains(a) by {
            if items.contains(a) {
                let i = choose|i: int| 0 <= i < items.len() && items[i] == a;
                if i < init.len() {
                    assert(init[i] == a);
                    assert(init.contains(a));
                }
                if before.contains(a) {
                    let j = choose|j: int| 0 <= j < before.len() && before[j] == a;
                    assert(after[j] == a);
                } else {
                    assert(items.last() == a);
                    assert(after[before.len() as int] == a);
                }
                assert(after.contains(a));
            }
            if after.contains(a) {
                let j = choose|j: int| 0 <= j < after.len() && after[j] == a;
                if j < before.len() {
                    assert(before[j] == a);
                    assert(before.contains(a));
                    assert(init.contains(a));
                    let i = choose|i: int| 0 <= i < init.len() && init[i] == a;
                    assert(items[i] == a);
                } else {
                    assert(items[items.len() - 1] == a);
                }
                assert(items.contains(a));
            }
        }
    }
}

} // verus!
