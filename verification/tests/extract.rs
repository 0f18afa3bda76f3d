use build_signals::critical_path::{extract_critical_path, CriticalPathMap, CriticalPathNode};
use build_signals::duration::Duration;

type PathMap = CriticalPathMap<i32, Option<i32>>;

fn cp_insert(predecessors: &mut PathMap, key: i32, prev: Option<i32>, duration: Duration) {
    predecessors.insert(
        key,
        CriticalPathNode {
            duration,
            value: Some(key),
            prev,
        },
    );
}

#[test]
fn empty_path() {
    let predecessors = PathMap::new();
    assert_eq!(extract_critical_path(&predecessors), vec![]);
}

#[test]
fn unit_path() {
    let mut predecessors = PathMap::new();
    cp_insert(&mut predecessors, 1, None, Duration::from_secs(3));
    assert_eq!(
        extract_critical_path(&predecessors),
        vec![(&1, &Some(1), Duration::from_secs(3))],
    );
}

#[test]
fn long_path() {
    let mut predecessors = PathMap::new();
    /*   -> 1 -> 2 -> 3
     *   5s   6s   7s
     *
     *      1 -> 4
     *        9s
     */
    cp_insert(&mut predecessors, 1, None, Duration::from_secs(5));
    cp_insert(&mut predecessors, 2, Some(1), Duration::from_secs(11));
    cp_insert(&mut predecessors, 3, Some(2), Duration::from_secs(18));
    cp_insert(&mut predecessors, 4, Some(1), Duration::from_secs(14));
    assert_eq!(
        extract_critical_path(&predecessors),
        vec![
            (&1, &Some(1), Duration::from_secs(5)),
            (&2, &Some(2), Duration::from_secs(6)),
            (&3, &Some(3), Duration::from_secs(7)),
        ],
    );
}

#[test]
fn chain_ends_where_the_previous_key_is_unknown() {
    let mut predecessors = PathMap::new();
    cp_insert(&mut predecessors, 2, Some(7), Duration::from_secs(4));
    cp_insert(&mut predecessors, 3, Some(2), Duration::from_secs(9));
    assert_eq!(
        extract_critical_path(&predecessors),
        vec![
            (&2, &Some(2), Duration::from_secs(4)),
            (&3, &Some(3), Duration::from_secs(5)),
        ],
    );
}

#[test]
fn step_is_zero_where_the_cumulative_duration_falls() {
    let mut predecessors = PathMap::new();
    cp_insert(&mut predecessors, 1, None, Duration::from_secs(500));
    cp_insert(&mut predecessors, 4, Some(1), Duration::from_secs(600));
    cp_insert(&mut predecessors, 2, Some(4), Duration::from_secs(550));
    cp_insert(&mut predecessors, 3, Some(2), Duration::from_secs(700));
    assert_eq!(
        extract_critical_path(&predecessors),
        vec![
            (&1, &Some(1), Duration::from_secs(500)),
            (&4, &Some(4), Duration::from_secs(100)),
            (&2, &Some(2), Duration::from_secs(0)),
            (&3, &Some(3), Duration::from_secs(150)),
        ],
    );
}

#[test]
fn first_of_the_longest_ends_the_path() {
    let mut predecessors = PathMap::new();
    cp_insert(&mut predecessors, 1, None, Duration::from_secs(8));
    cp_insert(&mut predecessors, 2, Some(1), Duration::from_secs(9));
    cp_insert(&mut predecessors, 3, Some(1), Duration::from_secs(9));
    assert_eq!(
        extract_critical_path(&predecessors),
        vec![
            (&1, &Some(1), Duration::from_secs(8)),
            (&2, &Some(2), Duration::from_secs(1)),
        ],
    );
    // A node that is stored again keeps its place among the entries.
    cp_insert(&mut predecessors, 1, None, Duration::from_secs(9));
    assert_eq!(
        extract_critical_path(&predecessors),
        vec![(&1, &Some(1), Duration::from_secs(9))],
    );
}

#[test]
fn circle_is_followed_for_as_many_entries_as_there_are() {
    let mut predecessors = PathMap::new();
    cp_insert(&mut predecessors, 1, Some(2), Duration::from_secs(5));
    cp_insert(&mut predecessors, 2, Some(1), Duration::from_secs(7));
    assert_eq!(
        extract_critical_path(&predecessors),
        vec![
            (&1, &Some(1), Duration::from_secs(5)),
            (&2, &Some(2), Duration::from_secs(2)),
        ],
    );
}

#[test]
fn map_keeps_one_node_for_each_key() {
    let mut predecessors = PathMap::new();
    assert_eq!(predecessors.len(), 0);
    assert!(predecessors.get(&1).is_none());
    cp_insert(&mut predecessors, 1, None, Duration::from_secs(1));
    cp_insert(&mut predecessors, 2, Some(1), Duration::from_secs(2));
    cp_insert(&mut predecessors, 1, Some(9), Duration::from_secs(3));
    assert_eq!(predecessors.len(), 2);
    assert_eq!(predecessors.position(&1), Some(0));
    assert_eq!(predecessors.position(&2), Some(1));
    assert_eq!(predecessors.position(&9), None);
    let first = predecessors.get(&1).unwrap();
    assert_eq!(first.duration, Duration::from_secs(3));
    assert_eq!(first.prev, Some(9));
    assert_eq!(first.value, Some(1));
}
