use build_signals::backend::{BuildInfo, BuildListenerBackend};
use build_signals::default_backend::DefaultBackend;
use build_signals::duration::{Duration, NodeDuration};
use build_signals::key::{ActionKey, BaseDeferredKey, BxlKey, NodeKey};
use std::collections::HashSet;

/// A node of a test graph: its number, its seconds, and the numbers of the
/// nodes that it depends on.
type Node = (u64, u64, Vec<u64>);

fn key(id: u64) -> NodeKey {
    NodeKey::ActionKey(ActionKey {
        owner: BaseDeferredKey::BxlLabel(BxlKey(3)),
        id,
    })
}

fn track(nodes: &[Node]) -> BuildInfo {
    let mut backend = DefaultBackend::new();
    for (id, seconds, deps) in nodes {
        let duration = NodeDuration {
            user: Duration::from_secs(*seconds),
            total: Duration::from_secs(*seconds * 2),
        };
        let deps: Vec<NodeKey> = deps.iter().map(|dep| key(*dep)).collect();
        assert!(backend.accepts_node(&duration, &deps));
        backend.process_node(key(*id), None, duration, deps, None);
    }
    backend.finish().unwrap()
}

fn cost(info: &BuildInfo) -> u128 {
    info.critical_path
        .iter()
        .map(|node| node.1.duration.user.as_nanos())
        .sum()
}

/// The weight of the heaviest path that ends in the node, by exhaustion.
fn heaviest_to(nodes: &[Node], id: u64) -> u64 {
    let (_, seconds, deps) = nodes.iter().find(|node| node.0 == id).unwrap();
    let before = deps
        .iter()
        .filter(|dep| nodes.iter().any(|node| node.0 == **dep))
        .map(|dep| heaviest_to(nodes, *dep))
        .max()
        .unwrap_or(0);
    seconds + before
}

fn heaviest(nodes: &[Node]) -> u64 {
    nodes
        .iter()
        .map(|node| heaviest_to(nodes, node.0))
        .max()
        .unwrap_or(0)
}

fn diamond() -> Vec<Node> {
    vec![
        (1, 5, vec![]),
        (2, 6, vec![1]),
        (3, 1, vec![1, 1, 2]),
        (4, 9, vec![1, 77]),
        (5, 2, vec![4, 3]),
        (6, 30, vec![]),
        (7, 4, vec![5, 2]),
    ]
}

#[test]
fn each_node_of_the_path_names_the_one_before_it() {
    let nodes = diamond();
    let info = track(&nodes);
    let path: Vec<NodeKey> = info.critical_path.iter().map(|node| node.0).collect();
    assert_eq!(path, vec![key(6)]);

    let mut nodes = diamond();
    nodes[5].1 = 3;
    let info = track(&nodes);
    let path: Vec<NodeKey> = info.critical_path.iter().map(|node| node.0).collect();
    assert_eq!(path, vec![key(1), key(4), key(5), key(7)]);
    for pair in path.windows(2) {
        let later = nodes.iter().find(|node| key(node.0) == pair[1]).unwrap();
        assert!(later.2.iter().any(|dep| key(*dep) == pair[0]));
    }
    let met: HashSet<NodeKey> = path.iter().copied().collect();
    assert_eq!(met.len(), path.len());
}

#[test]
fn durations_along_the_path_add_up_to_the_heaviest_path() {
    let mut nodes = diamond();
    assert_eq!(cost(&track(&nodes)), Duration::from_secs(30).as_nanos());
    assert_eq!(heaviest(&nodes), 30);
    nodes[5].1 = 3;
    assert_eq!(cost(&track(&nodes)), Duration::from_secs(20).as_nanos());
    assert_eq!(heaviest(&nodes), 20);
}

#[test]
fn zeroing_a_node_takes_at_most_its_duration_from_the_cost() {
    let mut nodes = diamond();
    nodes[5].1 = 3;
    let whole = cost(&track(&nodes));
    let on_path = [1, 4, 5, 7];
    for index in 0..nodes.len() {
        let mut without = nodes.clone();
        let id = without[index].0;
        let seconds = without[index].1;
        without[index].1 = 0;
        let rest = cost(&track(&without));
        assert!(rest <= whole);
        assert!(whole <= rest + Duration::from_secs(seconds).as_nanos());
        if !on_path.contains(&id) {
            assert_eq!(rest, whole);
        }
    }
    // Without the 9 s of node 4 the path through nodes 2 and 3 is the
    // longest: 5 + 6 + 1 + 2 + 4 s.
    let mut without = nodes.clone();
    without[3].1 = 0;
    assert_eq!(cost(&track(&without)), Duration::from_secs(18).as_nanos());
}

#[test]
fn edges_are_the_pairs_of_a_node_and_a_dependency() {
    let nodes = diamond();
    let pairs: HashSet<(u64, u64)> = nodes
        .iter()
        .flat_map(|(id, _, deps)| deps.iter().map(move |dep| (*id, *dep)))
        .collect();
    let info = track(&nodes);
    assert_eq!(info.num_edges, pairs.len() as u64);
    assert_eq!(info.num_edges, 9);
    assert_eq!(info.num_nodes, 7);
}

#[test]
fn order_of_arrival_does_not_change_the_cost() {
    let mut nodes = diamond();
    nodes[5].1 = 3;
    let other: Vec<Node> = [6, 1, 4, 2, 3, 5, 7]
        .iter()
        .map(|id| nodes.iter().find(|node| node.0 == *id).unwrap().clone())
        .collect();
    let (first, second) = (track(&nodes), track(&other));
    assert_eq!(cost(&first), cost(&second));
    assert_eq!(cost(&second), Duration::from_secs(20).as_nanos());
    assert_eq!(first.num_nodes, second.num_nodes);
    assert_eq!(first.num_edges, second.num_edges);
}
