//! What holds of the default backend for every sequence of nodes.
//!
//! The laws speak of the entries that `replay` gives for the nodes that a
//! backend was told of, which are the entries that `DefaultBackend` keeps.
//! They hold where no node was reported twice, which is what the producers
//! owe a backend, and where the cumulative durations are within their range,
//! which holds of all that a `DefaultBackend` was told of.

use crate::backend::BuildInfo;
use crate::critical_path::{
    chain, critical_indices, distinct_keys, has_key, index_of, lemma_terminal_first_longest,
    terminal, Entries,
};
use crate::data::NodeData;
use crate::default_backend::{
    ancestor_cost, cumulative, longest_ancestor, node_on_arrival, replay, tracker_accepts,
    tracker_reports, within_limits,
};
use crate::duration::{Duration, NodeDuration};
use crate::key::NodeKey;
use crate::model::{deduplicated, distinct_records, edge_total, NodeRecord};
use vstd::prelude::*;

verus! {

/// The cumulative duration that each node was given on its arrival is within
/// 128 bits of nanoseconds.
pub open spec fn costs_fit(log: Seq<NodeRecord>) -> bool {
    forall|i: int|
        0 <= i < log.len() ==> ancestor_cost(
            replay(#[trigger] log.take(i)),
            longest_ancestor(replay(log.take(i)), log[i].deps),
        ) + log[i].data.duration.cost() <= u128::MAX
}

/// Nodes within the limits of the tracker were given cumulative durations
/// within their range.
pub proof fn lemma_limits_fit(log: Seq<NodeRecord>)
    requires
        within_limits(log),
    ensures
        costs_fit(log),
{
    assert forall|i: int| 0 <= i < log.len() implies ancestor_cost(
        replay(#[trigger] log.take(i)),
        longest_ancestor(replay(log.take(i)), log[i].deps),
    ) + log[i].data.duration.cost() <= u128::MAX by {
        assert(tracker_accepts(log.take(i), log[i].data.duration, log[i].deps));
    }
}

/// The chosen ancestor is one of the dependencies, the entries have it, and
/// no dependency that the entries have has a greater cumulative duration.
/// Where no ancestor is chosen, the entries have none of the dependencies.
pub proof fn lemma_longest_ancestor(s: Entries<NodeKey, NodeData>, deps: Seq<NodeKey>)
    ensures
        match longest_ancestor(s, deps) {
            Some(best) => {
                &&& deps.contains(best)
                &&& has_key(s, best)
                &&& forall|d: NodeKey|
                    deps.contains(d) && has_key(s, d) ==> cumulative(s, d) <= cumulative(s, best)
            },
            None => forall|d: NodeKey| deps.contains(d) ==> !has_key(s, d),
        },
    decreases deps.len(),
{
    if deps.len() > 0 {
        let init = deps.drop_last();
        let last = deps.last();
        lemma_longest_ancestor(s, init);
        assert forall|d: NodeKey| deps.contains(d) implies d == last || init.contains(d) by {
            let i = choose|i: int| 0 <= i < deps.len() && deps[i] == d;
            if i < init.len() {
                assert(init[i] == d);
            }
        }
        assert(deps[deps.len() - 1] == last);
        match longest_ancestor(s, deps) {
            Some(best) => {
                if init.contains(best) {
                    let i = choose|i: int| 0 <= i < init.len() && init[i] == best;
                    assert(deps[i] == best);
                }
            },
            None => {},
        }
    }
}

/// Where no node was reported twice, the entries stand in the order of the
/// nodes: entry `i` has the key and the payload of node `i`, and is what the
/// node was given on its arrival, when the entries were those of the nodes
/// before it.
pub proof fn lemma_replay_in_order(log: Seq<NodeRecord>)
    requires
        distinct_records(log),
    ensures
        replay(log).len() == log.len(),
        distinct_keys(replay(log)),
        forall|i: int| 0 <= i < log.len() ==> (#[trigger] replay(log)[i]).0 == log[i].key,
        forall|i: int|
            0 <= i < log.len() ==> (#[trigger] replay(log)[i]).1 == node_on_arrival(
                replay(log.take(i)),
                log[i],
            ),
        forall|n: int| 0 <= n <= log.len() ==> #[trigger] replay(log.take(n)) == replay(log).take(n),
    decreases log.len(),
{
    if log.len() == 0 {
        assert forall|n: int| 0 <= n <= log.len() implies #[trigger] replay(log.take(n)) == replay(
            log,
        ).take(n) by {
            assert(log.take(n) == log);
        }
    } else {
        let init = log.drop_last();
        let last = log.last();
        let before = replay(init);
        assert forall|i: int, j: int| 0 <= i < j < init.len() implies (#[trigger] init[i]).key != (
        #[trigger] init[j]).key by {
            assert(log[i].key != log[j].key);
        }
        lemma_replay_in_order(init);
        assert(!has_key(before, last.key)) by {
            if has_key(before, last.key) {
                let i = choose|i: int| 0 <= i < before.len() && (#[trigger] before[i]).0 == last.key;
                assert(log[i].key != log[log.len() - 1].key);
            }
        }
        let after = replay(log);
        assert(after == before.push((last.key, node_on_arrival(before, last))));
        assert forall|i: int, j: int| 0 <= i < j < after.len() implies (#[trigger] after[i]).0 != (
        #[trigger] after[j]).0 by {
            if j < before.len() {
                assert(before[i].0 != before[j].0);
            } else {
                assert(before[i].0 == last.key ==> has_key(before, last.key));
            }
        }
        assert forall|n: int| 0 <= n <= log.len() implies #[trigger] replay(log.take(n)) == after.take(
            n,
        ) by {
            if n < log.len() {
                assert(log.take(n) == init.take(n));
                assert(after.take(n) == before.take(n));
            } else {
                assert(log.take(n) == log);
                assert(after.take(n) == after);
            }
        }
        assert forall|i: int| 0 <= i < log.len() implies (#[trigger] after[i]).1 == node_on_arrival(
            replay(log.take(i)),
            log[i],
        ) by {
            if i < init.len() {
                assert(after[i] == before[i]);
                assert(log.take(i) == init.take(i));
            } else {
                assert(log.take(i) == init);
            }
        }
    }
}

/// The cumulative duration that node `i` was given, in nanoseconds.
pub open spec fn arrival_cost(log: Seq<NodeRecord>, i: int) -> nat {
    replay(log)[i].1.duration@
}

/// The place of the ancestor that node `i` was given, if it was given one.
pub open spec fn ancestor_place(log: Seq<NodeRecord>, i: int) -> Option<int> {
    match replay(log)[i].1.prev {
        Some(key) => Some(index_of(replay(log), key)),
        None => None,
    }
}

/// The nodes that arrived before are among the entries, under their keys
/// and with the cumulative durations that they were given.
proof fn lemma_entries_before(log: Seq<NodeRecord>, n: int, j: int)
    requires
        distinct_records(log),
        0 <= j < n <= log.len(),
    ensures
        has_key(replay(log.take(n)), log[j].key),
        index_of(replay(log.take(n)), log[j].key) == j,
        cumulative(replay(log.take(n)), log[j].key) == arrival_cost(log, j),
{
    let s = replay(log);
    let before = replay(log.take(n));
    lemma_replay_in_order(log);
    assert(before == s.take(n));
    assert(s[j].0 == log[j].key);
    assert(before[j].0 == log[j].key);
    let k = index_of(before, log[j].key);
    assert(0 <= k < before.len() && before[k].0 == log[j].key);
    if k != j {
        assert(s[k].0 == s[j].0);
        if k < j {
            assert(s[k].0 != s[j].0);
        } else {
            assert(s[j].0 != s[k].0);
        }
    }
}

/// What a node was given on its arrival.  Its ancestor is one of its
/// dependencies and arrived before it; no dependency that arrived before it
/// has a greater cumulative duration than the ancestor; and its own
/// cumulative duration is that of the ancestor and its own duration, added
/// up.  A node without an ancestor has no dependency that arrived before it,
/// and its cumulative duration is its own duration.
pub proof fn lemma_arrival(log: Seq<NodeRecord>, i: int)
    requires
        distinct_records(log),
        costs_fit(log),
        0 <= i < log.len(),
    ensures
        match ancestor_place(log, i) {
            Some(a) => {
                &&& 0 <= a < i
                &&& replay(log)[i].1.prev == Some(log[a].key)
                &&& has_key(replay(log), log[a].key)
                &&& log[i].deps.contains(log[a].key)
                &&& arrival_cost(log, i) == arrival_cost(log, a) + log[i].data.duration.cost()
                &&& forall|j: int|
                    0 <= j < i && log[i].deps.contains(#[trigger] log[j].key) ==> arrival_cost(log, j)
                        <= arrival_cost(log, a)
            },
            None => {
                &&& arrival_cost(log, i) == log[i].data.duration.cost()
                &&& forall|j: int| 0 <= j < i ==> !log[i].deps.contains(#[trigger] log[j].key)
            },
        },
{
    let s = replay(log);
    let before = replay(log.take(i));
    let deps = log[i].deps;
    lemma_replay_in_order(log);
    lemma_longest_ancestor(before, deps);
    assert(before == s.take(i));
    assert(s[i].1 == node_on_arrival(before, log[i]));
    assert(ancestor_cost(replay(log.take(i)), longest_ancestor(replay(log.take(i)), deps))
        + log[i].data.duration.cost() <= u128::MAX);
    assert forall|j: int| 0 <= j < i implies has_key(before, #[trigger] log[j].key) && cumulative(
        before,
        log[j].key,
    ) == arrival_cost(log, j) by {
        lemma_entries_before(log, i, j);
    }
    match longest_ancestor(before, deps) {
        Some(best) => {
            let a = index_of(before, best);
            assert(0 <= a < before.len() && before[a].0 == best);
            assert(s[a].0 == best);
            assert(log[a].key == best);
            let found = index_of(s, best);
            assert(has_key(s, best));
            assert(0 <= found < s.len() && s[found].0 == best);
            if found != a {
                if found < a {
                    assert(s[found].0 != s[a].0);
                } else {
                    assert(s[a].0 != s[found].0);
                }
            }
            assert(ancestor_place(log, i) == Some(a));
            assert(cumulative(before, best) == arrival_cost(log, a));
        },
        None => {
            assert forall|j: int| 0 <= j < i implies !deps.contains(#[trigger] log[j].key) by {
                assert(has_key(before, log[j].key));
            }
        },
    }
}

/// A path of the recorded graph as the tracker sees it, from its root to its
/// end: places of nodes, each of which arrived after the one before it and
/// names the one before it among its dependencies.
pub open spec fn arrival_path(log: Seq<NodeRecord>, path: Seq<int>) -> bool {
    &&& forall|k: int| 0 <= k < path.len() ==> 0 <= #[trigger] path[k] < log.len()
    &&& forall|j: int, k: int|
        0 <= j && k == j + 1 && k < path.len() ==> (#[trigger] path[j]) < (#[trigger] path[k])
            && log[path[k]].deps.contains(log[path[j]].key)
}

/// The durations of the nodes of a path, added up, in nanoseconds.
pub open spec fn path_weight(log: Seq<NodeRecord>, path: Seq<int>) -> nat
    decreases path.len(),
{
    if path.len() == 0 {
        0
    } else {
        path_weight(log, path.drop_last()) + log[path.last()].data.duration.cost()
    }
}

/// The cost of the build as the tracker finds it: the greatest cumulative
/// duration of a node, zero without nodes.
pub open spec fn tracked_cost(log: Seq<NodeRecord>) -> nat {
    if log.len() == 0 {
        0
    } else {
        arrival_cost(log, terminal(replay(log)))
    }
}

/// No path that ends in a node weighs more than the cumulative duration
/// that the node was given.
pub proof fn lemma_path_bound(log: Seq<NodeRecord>, path: Seq<int>)
    requires
        distinct_records(log),
        costs_fit(log),
        arrival_path(log, path),
        path.len() > 0,
    ensures
        path_weight(log, path) <= arrival_cost(log, path.last()),
    decreases path.len(),
{
    let v = path.last();
    let init = path.drop_last();
    assert(0 <= path[path.len() - 1] < log.len());
    lemma_arrival(log, v);
    if init.len() == 0 {
        assert(path_weight(log, init) == 0);
    } else {
        let u = init.last();
        assert forall|k: int| 0 <= k < init.len() implies 0 <= #[trigger] init[k] < log.len() by {
            assert(init[k] == path[k]);
        }
        assert forall|j: int, k: int| 0 <= j && k == j + 1 && k < init.len() implies (
        #[trigger] init[j]) < (#[trigger] init[k]) && log[init[k]].deps.contains(log[init[j]].key) by {
            assert(init[k] == path[k]);
            assert(init[j] == path[j]);
        }
        lemma_path_bound(log, init);
        assert(u == path[path.len() - 2]);
        assert(path[path.len() - 2] < path[path.len() - 1] && log[path[path.len() - 1]].deps.contains(
            log[path[path.len() - 2]].key,
        ));
        assert(log[v].deps.contains(log[u].key));
    }
}

/// A sequence behind one item, turned round, is the sequence turned round
/// with the item behind it.
proof fn lemma_reverse_behind(first: int, rest: Seq<int>)
    ensures
        (seq![first] + rest).reverse() == rest.reverse().push(first),
{
    let whole = seq![first] + rest;
    let turned = whole.reverse();
    let expected = rest.reverse().push(first);
    assert(turned.len() == expected.len());
    assert forall|k: int| 0 <= k < turned.len() implies turned[k] == expected[k] by {
        assert(turned[k] == whole[whole.len() - 1 - k]);
        if k < rest.len() {
            assert(expected[k] == rest[rest.len() - 1 - k]);
        }
    }
}

/// The chain from a node is the node and then the chain from its ancestor.
proof fn lemma_chain_unfolds(log: Seq<NodeRecord>, i: int, limit: nat)
    requires
        distinct_records(log),
        costs_fit(log),
        0 <= i < log.len(),
        limit > 0,
    ensures
        chain(replay(log), i, limit) == match ancestor_place(log, i) {
            Some(a) => seq![i] + chain(replay(log), a, (limit - 1) as nat),
            None => seq![i],
        },
{
    lemma_replay_in_order(log);
    lemma_arrival(log, i);
}

/// A path with one more node behind it is a path where the node arrived
/// after the last of the path and names it among its dependencies.
proof fn lemma_path_extends(log: Seq<NodeRecord>, before: Seq<int>, i: int)
    requires
        arrival_path(log, before),
        0 <= i < log.len(),
        before.len() > 0 ==> before.last() < i && log[i].deps.contains(log[before.last()].key),
    ensures
        arrival_path(log, before.push(i)),
        path_weight(log, before.push(i)) == path_weight(log, before) + log[i].data.duration.cost(),
{
    let path = before.push(i);
    assert(path.drop_last() == before);
    assert forall|k: int| 0 <= k < path.len() implies 0 <= #[trigger] path[k] < log.len() by {
        if k < before.len() {
            assert(path[k] == before[k]);
        }
    }
    assert forall|j: int, k: int| 0 <= j && k == j + 1 && k < path.len() implies (
    #[trigger] path[j]) < (#[trigger] path[k]) && log[path[k]].deps.contains(log[path[j]].key) by {
        assert(path[j] == before[j]);
        if k < before.len() {
            assert(path[k] == before[k]);
        }
    }
}

/// The chain from a node, turned round: it is a path of the recorded graph
/// that ends in the node and weighs what the node was given as its
/// cumulative duration.
pub proof fn lemma_chain_is_path(log: Seq<NodeRecord>, i: int, limit: nat)
    requires
        distinct_records(log),
        costs_fit(log),
        0 <= i < log.len(),
        limit > i,
    ensures
        chain(replay(log), i, limit).len() > 0,
        chain(replay(log), i, limit).reverse().last() == i,
        arrival_path(log, chain(replay(log), i, limit).reverse()),
        path_weight(log, chain(replay(log), i, limit).reverse()) == arrival_cost(log, i),
    decreases i,
{
    let links = chain(replay(log), i, limit);
    lemma_chain_unfolds(log, i, limit);
    lemma_arrival(log, i);
    match ancestor_place(log, i) {
        Some(a) => {
            let rest = chain(replay(log), a, (limit - 1) as nat);
            lemma_chain_is_path(log, a, (limit - 1) as nat);
            lemma_reverse_behind(i, rest);
            lemma_path_extends(log, rest.reverse(), i);
        },
        None => {
            lemma_reverse_behind(i, Seq::empty());
            assert(seq![i] + Seq::<int>::empty() == seq![i]);
            assert(Seq::<int>::empty().reverse() == Seq::<int>::empty());
            lemma_path_extends(log, Seq::empty(), i);
            assert(path_weight(log, Seq::<int>::empty()) == 0);
        },
    }
}

/// The critical path of the default backend is a path of the recorded graph
/// that meets no node twice, each node named among the dependencies of the
/// next; it weighs the cost of the build; and the cost of the build is the
/// greatest weight of any path of the recorded graph.
pub proof fn lemma_critical_path(log: Seq<NodeRecord>)
    requires
        distinct_records(log),
        costs_fit(log),
    ensures
        arrival_path(log, critical_indices(replay(log))),
        path_weight(log, critical_indices(replay(log))) == tracked_cost(log),
        forall|i: int| 0 <= i < log.len() ==> arrival_cost(log, i) <= tracked_cost(log),
        forall|path: Seq<int>| #[trigger]
            arrival_path(log, path) ==> path_weight(log, path) <= tracked_cost(log),
{
    let s = replay(log);
    lemma_replay_in_order(log);
    if log.len() == 0 {
        assert(critical_indices(s) == Seq::<int>::empty()) by {
            assert(critical_indices(s).len() == 0);
        }
        assert forall|path: Seq<int>| #[trigger] arrival_path(log, path) implies path_weight(
            log,
            path,
        ) <= tracked_cost(log) by {
            if path.len() > 0 {
                assert(0 <= path[0] < log.len());
            }
        }
    } else {
        lemma_terminal_first_longest(s);
        lemma_chain_is_path(log, terminal(s), s.len());
        assert forall|path: Seq<int>| #[trigger] arrival_path(log, path) implies path_weight(
            log,
            path,
        ) <= tracked_cost(log) by {
            if path.len() > 0 {
                lemma_path_bound(log, path);
                assert(0 <= path[path.len() - 1] < log.len());
                assert(s[path.last()].1.duration@ <= s[terminal(s)].1.duration@);
            }
        }
        assert forall|i: int| 0 <= i < log.len() implies arrival_cost(log, i) <= tracked_cost(
            log,
        ) by {
            assert(s[i].1.duration@ <= s[terminal(s)].1.duration@);
        }
    }
}

/// The node `node` was reported with `dep` among its dependencies.
pub open spec fn declares(log: Seq<NodeRecord>, node: NodeKey, dep: NodeKey) -> bool {
    exists|i: int| 0 <= i < log.len() && (#[trigger] log[i]).key == node && log[i].deps.contains(dep)
}

/// The user durations of the nodes of a reported path, added up, in
/// nanoseconds.
pub open spec fn reported_cost(path: Seq<(NodeKey, NodeData, Option<Duration>)>) -> nat
    decreases path.len(),
{
    if path.len() == 0 {
        0
    } else {
        reported_cost(path.drop_last()) + path.last().1.duration.cost()
    }
}

/// The places of a path give the reported path the weight of the path.
proof fn lemma_reported_cost(log: Seq<NodeRecord>, places: Seq<int>)
    requires
        distinct_records(log),
        forall|k: int| 0 <= k < places.len() ==> 0 <= #[trigger] places[k] < log.len(),
    ensures
        reported_cost(
            places.map_values(
                |i: int| (replay(log)[i].0, replay(log)[i].1.value, None::<Duration>),
            ),
        ) == path_weight(log, places),
    decreases places.len(),
{
    let s = replay(log);
    let f = |i: int| (s[i].0, s[i].1.value, None::<Duration>);
    if places.len() > 0 {
        let init = places.drop_last();
        assert forall|k: int| 0 <= k < init.len() implies 0 <= #[trigger] init[k] < log.len() by {
            assert(init[k] == places[k]);
        }
        lemma_reported_cost(log, init);
        lemma_replay_in_order(log);
        assert(places.map_values(f).drop_last() == init.map_values(f));
        assert(0 <= places[places.len() - 1] < log.len());
        assert(s[places.last()].1 == node_on_arrival(replay(log.take(places.last())), log[places.last()]));
    }
}

/// The critical path that the default backend reports is a path of the
/// recorded graph: its nodes are nodes that were reported, with their
/// payloads and without a potential; each arrived after the one before it
/// and names the one before it among its dependencies; so none is met twice.
pub proof fn lemma_reported_path_is_a_path(log: Seq<NodeRecord>, info: BuildInfo)
    requires
        distinct_records(log),
        costs_fit(log),
        tracker_reports(log, info),
    ensures
        info.critical_path@.len() == critical_indices(replay(log)).len(),
        arrival_path(log, critical_indices(replay(log))),
        forall|k: int|
            0 <= k < info.critical_path@.len() ==> (#[trigger] info.critical_path@[k]) == (
                log[critical_indices(replay(log))[k]].key,
                log[critical_indices(replay(log))[k]].data,
                None::<Duration>,
            ),
        forall|k: int|
            0 < k < info.critical_path@.len() ==> declares(
                log,
                (#[trigger] info.critical_path@[k]).0,
                info.critical_path@[k - 1].0,
            ),
        forall|a: int, b: int|
            0 <= a < b < info.critical_path@.len() ==> (#[trigger] info.critical_path@[a]).0 != (
            #[trigger] info.critical_path@[b]).0,
{
    let s = replay(log);
    let places = critical_indices(s);
    let path = info.critical_path@;
    lemma_critical_path(log);
    lemma_replay_in_order(log);
    assert forall|k: int| 0 <= k < path.len() implies (#[trigger] path[k]) == (
        log[places[k]].key,
        log[places[k]].data,
        None::<Duration>,
    ) by {
        let i = places[k];
        assert(0 <= i < log.len());
        assert(s[i].0 == log[i].key);
        assert(s[i].1 == node_on_arrival(replay(log.take(i)), log[i]));
    }
    assert forall|k: int| 0 < k < path.len() implies declares(
        log,
        (#[trigger] path[k]).0,
        path[k - 1].0,
    ) by {
        let i = places[k];
        assert(places[k - 1] < places[k] && log[places[k]].deps.contains(log[places[k - 1]].key));
        assert(path[k - 1] == (log[places[k - 1]].key, log[places[k - 1]].data, None::<Duration>));
        assert(0 <= i < log.len() && log[i].key == path[k].0);
    }
    lemma_path_ascends(log, places);
    assert forall|a: int, b: int| 0 <= a < b < path.len() implies (#[trigger] path[a]).0 != (
    #[trigger] path[b]).0 by {
        assert(places[a] < places[b]);
        assert(log[places[a]].key != log[places[b]].key);
    }
}

/// The places of a path of the recorded graph ascend.
pub proof fn lemma_path_ascends(log: Seq<NodeRecord>, path: Seq<int>)
    requires
        arrival_path(log, path),
    ensures
        forall|a: int, b: int| 0 <= a < b < path.len() ==> #[trigger] path[a] < #[trigger] path[b],
    decreases path.len(),
{
    if path.len() > 1 {
        let init = path.drop_last();
        assert forall|k: int| 0 <= k < init.len() implies 0 <= #[trigger] init[k] < log.len() by {
            assert(init[k] == path[k]);
        }
        assert forall|j: int, k: int| 0 <= j && k == j + 1 && k < init.len() implies (
        #[trigger] init[j]) < (#[trigger] init[k]) && log[init[k]].deps.contains(log[init[j]].key) by {
            assert(init[k] == path[k]);
            assert(init[j] == path[j]);
        }
        lemma_path_ascends(log, init);
        assert forall|a: int, b: int| 0 <= a < b < path.len() implies #[trigger] path[a]
            < #[trigger] path[b] by {
            let last = path.len() - 1;
            assert(path[last - 1] < path[last]);
            if b < last {
                assert(init[a] < init[b]);
            } else if a < last - 1 {
                assert(init[a] < init[last - 1]);
            }
        }
    }
}

/// The durations along the critical path that the default backend reports
/// add up to the cost of the build, which is the greatest cumulative
/// duration of a node and the greatest weight of a path of the recorded
/// graph.
pub proof fn lemma_reported_path_cost(log: Seq<NodeRecord>, info: BuildInfo)
    requires
        distinct_records(log),
        costs_fit(log),
        tracker_reports(log, info),
    ensures
        reported_cost(info.critical_path@) == tracked_cost(log),
        forall|i: int| 0 <= i < log.len() ==> arrival_cost(log, i) <= tracked_cost(log),
        forall|path: Seq<int>| #[trigger]
            arrival_path(log, path) ==> path_weight(log, path) <= tracked_cost(log),
        arrival_path(log, critical_indices(replay(log))) && path_weight(
            log,
            critical_indices(replay(log)),
        ) == tracked_cost(log),
{
    lemma_critical_path(log);
    lemma_reported_cost(log, critical_indices(replay(log)));
}

/// A record with its user duration set to zero.
pub open spec fn without_duration(record: NodeRecord) -> NodeRecord {
    NodeRecord {
        key: record.key,
        data: NodeData {
            action: record.data.action,
            duration: NodeDuration { user: Duration::of_nanos(0), total: record.data.duration.total },
            span_id: record.data.span_id,
        },
        deps: record.deps,
    }
}

/// The nodes with the user duration of node `v` set to zero.
pub open spec fn zeroed(log: Seq<NodeRecord>, v: int) -> Seq<NodeRecord> {
    log.update(v, without_duration(log[v]))
}

/// Setting the duration of a node to zero takes at most that duration from
/// the weight of a path, and nothing from a path that does not meet the
/// node.
proof fn lemma_weight_zeroed(log: Seq<NodeRecord>, v: int, path: Seq<int>)
    requires
        0 <= v < log.len(),
        arrival_path(log, path),
    ensures
        arrival_path(zeroed(log, v), path),
        path_weight(zeroed(log, v), path) <= path_weight(log, path),
        path_weight(log, path) <= path_weight(zeroed(log, v), path) + log[v].data.duration.cost(),
        !path.contains(v) ==> path_weight(zeroed(log, v), path) == path_weight(log, path),
    decreases path.len(),
{
    let other = zeroed(log, v);
    assert forall|j: int, k: int| 0 <= j && k == j + 1 && k < path.len() implies (
    #[trigger] path[j]) < (#[trigger] path[k]) && other[path[k]].deps.contains(other[path[j]].key) by {
        assert(log[path[k]].deps.contains(log[path[j]].key));
        assert(0 <= path[j] < log.len());
    }
    if path.len() > 0 {
        let init = path.drop_last();
        let last = path.last();
        assert forall|k: int| 0 <= k < init.len() implies 0 <= #[trigger] init[k] < log.len() by {
            assert(init[k] == path[k]);
        }
        assert forall|j: int, k: int| 0 <= j && k == j + 1 && k < init.len() implies (
        #[trigger] init[j]) < (#[trigger] init[k]) && log[init[k]].deps.contains(log[init[j]].key) by {
            assert(init[k] == path[k]);
            assert(init[j] == path[j]);
        }
        lemma_weight_zeroed(log, v, init);
        lemma_path_ascends(log, path);
        assert(0 <= path[path.len() - 1] < log.len());
        if last == v {
            assert(!init.contains(v)) by {
                if init.contains(v) {
                    let k = choose|k: int| 0 <= k < init.len() && init[k] == v;
                    assert(path[k] < path[path.len() - 1]);
                }
            }
        }
        if init.contains(v) {
            let k = choose|k: int| 0 <= k < init.len() && init[k] == v;
            assert(path[k] == v);
        }
        if path.contains(v) && last != v {
            let k = choose|k: int| 0 <= k < path.len() && path[k] == v;
            assert(init[k] == v);
        }
    }
}

/// The first nodes of a sequence without a node that was reported twice
/// hold no node twice either.
proof fn lemma_distinct_prefix(log: Seq<NodeRecord>, n: int)
    requires
        distinct_records(log),
        0 <= n <= log.len(),
    ensures
        distinct_records(log.take(n)),
{
    assert forall|i: int, j: int| 0 <= i < j < log.take(n).len() implies (#[trigger] log.take(n)[i]).key
        != (#[trigger] log.take(n)[j]).key by {
        assert(log[i].key != log[j].key);
    }
}

/// With the duration of a node set to zero, the cumulative durations stay
/// within their range, and no node is given a greater one than before.
proof fn lemma_zeroed_costs_fit(log: Seq<NodeRecord>, v: int, n: int)
    requires
        distinct_records(log),
        costs_fit(log),
        0 <= v < log.len(),
        0 <= n <= log.len(),
    ensures
        distinct_records(zeroed(log, v).take(n)),
        costs_fit(zeroed(log, v).take(n)),
        forall|i: int|
            0 <= i < n ==> arrival_cost(#[trigger] zeroed(log, v).take(n), i) <= arrival_cost(log, i),
    decreases n,
{
    let other = zeroed(log, v);
    let now = other.take(n);
    assert forall|i: int, j: int| 0 <= i < j < other.len() implies (#[trigger] other[i]).key != (
    #[trigger] other[j]).key by {
        assert(log[i].key != log[j].key);
    }
    lemma_distinct_prefix(other, n);
    if n > 0 {
        let i = n - 1;
        let before = other.take(i);
        let deps = log[i].deps;
        lemma_zeroed_costs_fit(log, v, i);
        lemma_replay_in_order(now);
        lemma_replay_in_order(before);
        assert(now.take(i) == before);
        assert(now[i] == other[i]);
        assert(other[i].deps == deps);
        assert(other[i].data.duration.cost() <= log[i].data.duration.cost());
        let entries = replay(before);
        lemma_longest_ancestor(entries, deps);
        lemma_arrival(log, i);
        let given = ancestor_cost(entries, longest_ancestor(entries, deps));
        assert(given + other[i].data.duration.cost() <= arrival_cost(log, i)) by {
            match longest_ancestor(entries, deps) {
                Some(best) => {
                    let a = index_of(entries, best);
                    assert(0 <= a < entries.len() && entries[a].0 == best);
                    assert(entries[a].0 == before[a].key);
                    assert(before[a].key == log[a].key);
                    assert(arrival_cost(before, a) <= arrival_cost(log, a));
                    assert(deps.contains(log[a].key));
                },
                None => {},
            }
        }
        assert forall|k: int| 0 <= k < now.len() implies ancestor_cost(
            replay(#[trigger] now.take(k)),
            longest_ancestor(replay(now.take(k)), now[k].deps),
        ) + now[k].data.duration.cost() <= u128::MAX by {
            if k < i {
                assert(now.take(k) == before.take(k));
                assert(now[k] == before[k]);
            }
        }
        assert forall|k: int| 0 <= k < n implies arrival_cost(now, k) <= arrival_cost(log, k) by {
            assert(replay(now).take(i) == replay(before));
            if k < i {
                assert(replay(now)[k] == replay(before)[k]);
                assert(arrival_cost(before, k) <= arrival_cost(log, k));
            } else {
                assert(replay(now)[i].1 == node_on_arrival(entries, now[i]));
            }
        }
    }
}

/// Had a node taken no time, the cost of the build would be no greater, and
/// smaller by no more than the duration of the node; and it would be the
/// same for a node that is not on the critical path.
pub proof fn lemma_zeroed_cost(log: Seq<NodeRecord>, v: int)
    requires
        distinct_records(log),
        costs_fit(log),
        0 <= v < log.len(),
    ensures
        tracked_cost(zeroed(log, v)) <= tracked_cost(log),
        tracked_cost(log) <= tracked_cost(zeroed(log, v)) + log[v].data.duration.cost(),
        !critical_indices(replay(log)).contains(v) ==> tracked_cost(zeroed(log, v)) == tracked_cost(
            log,
        ),
{
    let other = zeroed(log, v);
    lemma_zeroed_costs_fit(log, v, log.len() as int);
    assert(other.take(log.len() as int) == other);
    let path = critical_indices(replay(log));
    let other_path = critical_indices(replay(other));
    lemma_critical_path(log);
    lemma_critical_path(other);
    lemma_weight_zeroed(log, v, path);
    // The critical path of the other nodes is a path of these nodes too.
    assert(arrival_path(log, other_path)) by {
        assert forall|j: int, k: int| 0 <= j && k == j + 1 && k < other_path.len() implies (
        #[trigger] other_path[j]) < (#[trigger] other_path[k]) && log[other_path[k]].deps.contains(
            log[other_path[j]].key,
        ) by {
            assert(other[other_path[k]].deps.contains(other[other_path[j]].key));
            assert(0 <= other_path[j] < other.len());
        }
    }
    lemma_weight_zeroed(log, v, other_path);
}

/// Every dependency that was reported at all was reported before the node
/// that names it.
pub open spec fn dependencies_first(log: Seq<NodeRecord>) -> bool {
    forall|i: int, j: int|
        0 <= i < log.len() && 0 <= j < log.len() && (#[trigger] log[i]).deps.contains(
            (#[trigger] log[j]).key,
        ) ==> j < i
}

/// The two sequences hold the same nodes.
pub open spec fn same_nodes(a: Seq<NodeRecord>, b: Seq<NodeRecord>) -> bool {
    &&& forall|i: int| 0 <= i < a.len() ==> b.contains(#[trigger] a[i])
    &&& forall|j: int| 0 <= j < b.len() ==> a.contains(#[trigger] b[j])
}

/// A path of the graph of one sequence of nodes is, place by place, a path
/// of the same weight of the graph of the same nodes in another order, where
/// in that order the dependencies come first.
proof fn lemma_path_in_other_order(a: Seq<NodeRecord>, b: Seq<NodeRecord>, path: Seq<int>)
    requires
        forall|i: int| 0 <= i < a.len() ==> b.contains(#[trigger] a[i]),
        dependencies_first(b),
        arrival_path(a, path),
    ensures
        arrival_path(b, path.map_values(|i: int| b.index_of(a[i]))),
        path_weight(b, path.map_values(|i: int| b.index_of(a[i]))) == path_weight(a, path),
    decreases path.len(),
{
    let f = |i: int| b.index_of(a[i]);
    let moved = path.map_values(f);
    assert forall|k: int| 0 <= k < path.len() implies 0 <= #[trigger] moved[k] < b.len() && b[moved[k]]
        == a[path[k]] by {
        assert(0 <= path[k] < a.len());
        assert(b.contains(a[path[k]]));
    }
    assert forall|j: int, k: int| 0 <= j && k == j + 1 && k < moved.len() implies (
    #[trigger] moved[j]) < (#[trigger] moved[k]) && b[moved[k]].deps.contains(b[moved[j]].key) by {
        assert(path[j] < path[k] && a[path[k]].deps.contains(a[path[j]].key));
        assert(b[moved[k]] == a[path[k]]);
        assert(b[moved[j]] == a[path[j]]);
    }
    if path.len() > 0 {
        let init = path.drop_last();
        assert forall|k: int| 0 <= k < init.len() implies 0 <= #[trigger] init[k] < a.len() by {
            assert(init[k] == path[k]);
        }
        assert forall|j: int, k: int| 0 <= j && k == j + 1 && k < init.len() implies (
        #[trigger] init[j]) < (#[trigger] init[k]) && a[init[k]].deps.contains(a[init[j]].key) by {
            assert(init[k] == path[k]);
            assert(init[j] == path[j]);
        }
        lemma_path_in_other_order(a, b, init);
        assert(moved.drop_last() == init.map_values(f));
        assert(b[moved[moved.len() - 1]] == a[path[path.len() - 1]]);
    }
}

/// A path of the first nodes of a sequence is a path of the sequence, of
/// the same weight.
proof fn lemma_path_of_prefix(log: Seq<NodeRecord>, n: int, path: Seq<int>)
    requires
        0 <= n <= log.len(),
        arrival_path(log.take(n), path),
    ensures
        arrival_path(log, path),
        path_weight(log, path) == path_weight(log.take(n), path),
    decreases path.len(),
{
    let first = log.take(n);
    assert forall|k: int| 0 <= k < path.len() implies 0 <= #[trigger] path[k] < n by {}
    assert forall|j: int, k: int| 0 <= j && k == j + 1 && k < path.len() implies (
    #[trigger] path[j]) < (#[trigger] path[k]) && log[path[k]].deps.contains(log[path[j]].key) by {
        assert(first[path[k]].deps.contains(first[path[j]].key));
        assert(0 <= path[j] < n);
        assert(0 <= path[k] < n);
    }
    if path.len() > 0 {
        let init = path.drop_last();
        assert forall|k: int| 0 <= k < init.len() implies 0 <= #[trigger] init[k] < first.len() by {
            assert(init[k] == path[k]);
        }
        assert forall|j: int, k: int| 0 <= j && k == j + 1 && k < init.len() implies (
        #[trigger] init[j]) < (#[trigger] init[k]) && first[init[k]].deps.contains(
            first[init[j]].key,
        ) by {
            assert(init[k] == path[k]);
            assert(init[j] == path[j]);
        }
        lemma_path_of_prefix(log, n, init);
        assert(0 <= path[path.len() - 1] < n);
    }
}

/// Where the cumulative durations of some nodes are within their range,
/// and the dependencies of each node were reported before it, the cumulative
/// durations are within their range in every order of the same nodes.
proof fn lemma_costs_fit_in_other_order(a: Seq<NodeRecord>, b: Seq<NodeRecord>, n: int)
    requires
        forall|i: int| 0 <= i < b.len() ==> a.contains(#[trigger] b[i]),
        distinct_records(a),
        distinct_records(b),
        costs_fit(a),
        dependencies_first(a),
        0 <= n <= b.len(),
    ensures
        costs_fit(b.take(n)),
    decreases n,
{
    let now = b.take(n);
    if n > 0 {
        let i = n - 1;
        let before = b.take(i);
        let deps = b[i].deps;
        lemma_costs_fit_in_other_order(a, b, i);
        lemma_distinct_prefix(b, i);
        lemma_replay_in_order(before);
        assert(now.take(i) == before);
        let entries = replay(before);
        lemma_longest_ancestor(entries, deps);
        let given = ancestor_cost(entries, longest_ancestor(entries, deps));
        assert(given + b[i].data.duration.cost() <= u128::MAX) by {
            match longest_ancestor(entries, deps) {
                Some(best) => {
                    let from = index_of(entries, best);
                    assert(0 <= from < entries.len() && entries[from].0 == best);
                    assert(entries[from].0 == before[from].key);
                    lemma_chain_is_path(before, from, before.len());
                    let path = chain(entries, from, before.len()).reverse();
                    lemma_path_of_prefix(b, i, path);
                    assert(b[from] == before[from]);
                    lemma_path_extends(b, path, i);
                    let longer = path.push(i);
                    lemma_path_in_other_order(b, a, longer);
                    lemma_critical_path(a);
                    let moved = longer.map_values(|k: int| a.index_of(b[k]));
                    assert(arrival_path(a, moved));
                    assert(path_weight(a, moved) <= tracked_cost(a));
                },
                None => {},
            }
        }
        assert forall|k: int| 0 <= k < now.len() implies ancestor_cost(
            replay(#[trigger] now.take(k)),
            longest_ancestor(replay(now.take(k)), now[k].deps),
        ) + now[k].data.duration.cost() <= u128::MAX by {
            if k < i {
                assert(now.take(k) == before.take(k));
                assert(now[k] == before[k]);
            }
        }
    }
}

/// The order in which the nodes are reported does not change the cost of
/// the build, nor the number of nodes, as long as the dependencies of each
/// node are reported before it.
pub proof fn lemma_order_independent(a: Seq<NodeRecord>, b: Seq<NodeRecord>)
    requires
        same_nodes(a, b),
        distinct_records(a),
        distinct_records(b),
        costs_fit(a),
        dependencies_first(a),
        dependencies_first(b),
    ensures
        costs_fit(b),
        tracked_cost(a) == tracked_cost(b),
        a.len() == b.len(),
{
    lemma_costs_fit_in_other_order(a, b, b.len() as int);
    assert(b.take(b.len() as int) == b);
    lemma_critical_path(a);
    lemma_critical_path(b);
    let path_a = critical_indices(replay(a));
    let path_b = critical_indices(replay(b));
    lemma_path_in_other_order(a, b, path_a);
    lemma_path_in_other_order(b, a, path_b);
    let moved_a = path_a.map_values(|i: int| b.index_of(a[i]));
    let moved_b = path_b.map_values(|i: int| a.index_of(b[i]));
    assert(arrival_path(b, moved_a));
    assert(arrival_path(a, moved_b));
    assert(a.no_duplicates()) by {
        assert forall|i: int, j: int| 0 <= i < a.len() && 0 <= j < a.len() && i != j implies a[i]
            != a[j] by {
            if i < j {
                assert(a[i].key != a[j].key);
            } else {
                assert(a[j].key != a[i].key);
            }
        }
    }
    assert(b.no_duplicates()) by {
        assert forall|i: int, j: int| 0 <= i < b.len() && 0 <= j < b.len() && i != j implies b[i]
            != b[j] by {
            if i < j {
                assert(b[i].key != b[j].key);
            } else {
                assert(b[j].key != b[i].key);
            }
        }
    }
    a.unique_seq_to_set();
    b.unique_seq_to_set();
    assert(a.to_set() =~= b.to_set()) by {
        assert forall|r: NodeRecord| a.to_set().contains(r) <==> b.to_set().contains(r) by {
            if a.contains(r) {
                let i = choose|i: int| 0 <= i < a.len() && a[i] == r;
                assert(b.contains(a[i]));
            }
            if b.contains(r) {
                let j = choose|j: int| 0 <= j < b.len() && b[j] == r;
                assert(a.contains(b[j]));
            }
        }
    }
}

/// The pairs of a node and a dependency that the node was reported with.
pub open spec fn dependency_pairs(log: Seq<NodeRecord>) -> Set<(NodeKey, NodeKey)> {
    Set::new(|pair: (NodeKey, NodeKey)| declares(log, pair.0, pair.1))
}

/// The edge count of the default backend is the number of pairs of a node
/// and a dependency that were reported, each pair counted once.
pub proof fn lemma_edge_total_counts_pairs(log: Seq<NodeRecord>)
    requires
        distinct_records(log),
        deduplicated(log),
    ensures
        dependency_pairs(log).finite(),
        dependency_pairs(log).len() == edge_total(log),
    decreases log.len(),
{
    if log.len() == 0 {
        assert(dependency_pairs(log) =~= Set::empty());
    } else {
        let init = log.drop_last();
        let last = log.last();
        assert forall|i: int, j: int| 0 <= i < j < init.len() implies (#[trigger] init[i]).key != (
        #[trigger] init[j]).key by {
            assert(log[i].key != log[j].key);
        }
        assert forall|i: int| 0 <= i < init.len() implies (#[trigger] init[i]).deps.no_duplicates() by {
            assert(init[i] == log[i]);
        }
        lemma_edge_total_counts_pairs(init);
        let named = last.deps.map_values(|dep: NodeKey| (last.key, dep));
        assert(named.no_duplicates()) by {
            assert forall|i: int, j: int|
                0 <= i < named.len() && 0 <= j < named.len() && i != j implies named[i]
                != named[j] by {
                assert(last.deps[i] != last.deps[j]);
            }
        }
        named.unique_seq_to_set();
        broadcast use vstd::seq_lib::seq_to_set_is_finite;
        let before = dependency_pairs(init);
        assert(before.disjoint(named.to_set())) by {
            assert forall|pair: (NodeKey, NodeKey)| before.contains(pair) implies !named.to_set().contains(
                pair,
            ) by {
                if named.contains(pair) {
                    let k = choose|k: int| 0 <= k < named.len() && named[k] == pair;
                    let i = choose|i: int|
                        0 <= i < init.len() && (#[trigger] init[i]).key == pair.0
                            && init[i].deps.contains(pair.1);
                    assert(log[i].key != log[log.len() - 1].key);
                }
            }
        }
        assert(dependency_pairs(log) =~= before + named.to_set()) by {
            assert forall|pair: (NodeKey, NodeKey)| dependency_pairs(log).contains(pair) <==> (before
                + named.to_set()).contains(pair) by {
                if declares(log, pair.0, pair.1) {
                    let i = choose|i: int|
                        0 <= i < log.len() && (#[trigger] log[i]).key == pair.0
                            && log[i].deps.contains(pair.1);
                    if i < init.len() {
                        assert(init[i] == log[i]);
                        assert(declares(init, pair.0, pair.1));
                    } else {
                        let k = choose|k: int| 0 <= k < last.deps.len() && last.deps[k] == pair.1;
                        assert(named[k] == pair);
                        assert(named.contains(pair));
                    }
                }
                if before.contains(pair) {
                    let i = choose|i: int|
                        0 <= i < init.len() && (#[trigger] init[i]).key == pair.0
                            && init[i].deps.contains(pair.1);
                    assert(log[i] == init[i]);
                    assert(declares(log, pair.0, pair.1));
                }
                if named.contains(pair) {
                    let k = choose|k: int| 0 <= k < named.len() && named[k] == pair;
                    assert(last.deps[k] == pair.1);
                    assert(last.deps.contains(pair.1));
                    assert(log[log.len() - 1].key == pair.0);
                    assert(declares(log, pair.0, pair.1));
                }
            }
        }
        vstd::set_lib::lemma_set_disjoint_lens(before, named.to_set());
    }
}

} // verus!
